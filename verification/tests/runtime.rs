use nacelle::runtime::{Link, Route, ABI_VERSION};

#[test]
fn a_plain_program_owns_its_state() {
    let link = Link::new();
    assert!(link.is_host());
}

#[test]
fn an_older_interface_refuses_to_attach() {
    let mut link = Link::new();
    assert!(!link.attach(Some(ABI_VERSION - 1)), "an older interface must be refused");
    assert!(!link.attach(None), "null must be refused");
    assert!(link.api().is_none());
    assert!(link.is_host());
}

#[test]
fn a_newer_host_is_attached_and_calls_are_forwarded() {
    let mut link = Link::new();
    assert_eq!(link.route(), Route::Local);
    assert!(link.attach(Some(ABI_VERSION + 3)));
    assert!(!link.is_host());
    assert_eq!(link.api(), Some(ABI_VERSION + 3));
    assert_eq!(link.route(), Route::Forward);
    assert_eq!(link.route(), Route::Forward);
}

#[test]
fn the_same_version_attaches() {
    let mut link = Link::new();
    assert!(link.attach(Some(ABI_VERSION)));
    assert_eq!(link.route(), Route::Forward);
}

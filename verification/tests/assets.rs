use nacelle::assets::{join_path, safe_component, AssetRoots};

#[test]
fn safe_component_blocks_every_escape() {
    for bad in ["", ".", "..", "a/b", "a\\b", "a\0b", "/etc", " . "] {
        assert!(safe_component(bad).is_none(), "{bad:?} must be refused");
    }
    assert_eq!(safe_component(" console "), Some("console".into()));
    assert_eq!(safe_component("my.layaut"), Some("my.layaut".into()));
}

#[test]
fn the_first_root_holding_a_name_wins() {
    let roots = AssetRoots::new(vec!["/a".to_string(), "/b".to_string()], "/a".to_string());
    // Only /b holds the file: /b wins.
    let only_b = |p: &String| p == "/b/layauts/x.layaut";
    assert_eq!(roots.find("layauts", "x.layaut", only_b), Some("/b/layauts/x.layaut".to_string()));
    // Both hold it: the first root wins.
    let both = |p: &String| p.ends_with("/layauts/x.layaut");
    assert_eq!(roots.find("layauts", "x.layaut", both), Some("/a/layauts/x.layaut".to_string()));
    // Neither: nothing.
    assert_eq!(roots.find("layauts", "x.layaut", |_: &String| false), None);
    assert_eq!(roots.write_dir("layauts"), "/a/layauts");
}

#[test]
fn dirs_keep_the_search_order_and_only_what_exists() {
    let roots = AssetRoots::new(
        vec!["/x".to_string(), "/y/".to_string(), "/z".to_string()],
        "/x".to_string(),
    );
    let exists = |p: &String| p != "/y/layauts";
    assert_eq!(roots.dirs("layauts", exists), vec!["/x/layauts".to_string(), "/z/layauts".to_string()]);
    assert_eq!(roots.dirs("layauts", |_: &String| true).len(), 3);
}

#[test]
fn joining_follows_the_path_rules() {
    assert_eq!(join_path("/a", "b"), "/a/b");
    assert_eq!(join_path("/a/", "b"), "/a/b");
    assert_eq!(join_path("", "b"), "b");
    assert_eq!(join_path("/a", "/etc"), "/etc");
    assert_eq!(join_path("a", ""), "a/");
}

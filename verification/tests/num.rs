use nacelle::num::{grouped, pointed, Reading};

#[test]
fn a_group_is_counted_from_the_right() {
    // A group of three from the right, and nothing below the minimum.
    assert_eq!(grouped("12345", 3, 4, " "), "12 345");
    assert_eq!(grouped("123", 3, 4, " "), "123");
    assert_eq!(grouped("1234", 3, 5, " "), "1234");
    assert_eq!(grouped("1234567", 3, 4, ","), "1,234,567");
    assert_eq!(grouped("123456", 3, 0, "."), "123.456");
}

#[test]
fn grouping_keeps_every_digit_it_was_given() {
    for v in ["0", "7", "1234", "123456789", "98765"] {
        let written = grouped(v, 3, 4, "\u{202f}");
        assert_eq!(
            written.chars().filter(|c| c.is_ascii_digit()).count(),
            v.chars().filter(|c| c.is_ascii_digit()).count(),
            "{v}: {written}"
        );
    }
    // An empty separator leaves the number alone.
    assert_eq!(grouped("1234567", 3, 4, ""), "1234567");
}

#[test]
fn a_reading_joins_its_unit_by_the_themes_rule() {
    let r = Reading { number: "85".into(), unit: "%".into() };
    assert!(r.attached(true));
    assert!(!r.attached(false));
    assert_eq!(r.text(true, " "), "85%");
    assert_eq!(r.text(false, " "), "85 %");
    let r = Reading { number: "60".into(), unit: "ps".into() };
    assert_eq!(r.text(true, " "), "60 ps");
    let r = Reading { number: "7".into(), unit: String::new() };
    assert_eq!(r.text(false, " "), "7");
}

#[test]
fn a_written_number_is_grouped_and_pointed_under_the_policy() {
    assert_eq!(pointed("-1234567.50", 3, 4, " ", ","), "-1 234 567,50");
    assert_eq!(pointed("1234.5", 3, 5, " ", ","), "1234,5");
    assert_eq!(pointed("42", 3, 4, " ", "."), "42");
    assert_eq!(pointed("-0.25", 3, 4, " ", "."), "-0.25");
    assert_eq!(pointed("123456", 3, 0, ".", ","), "123.456");
}

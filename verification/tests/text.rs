use monadicast::text::{format_i32, parse_i32, remove_spaces};

#[test]
fn spaces_are_removed() {
    assert_eq!(remove_spaces("libc :: c_int"), "libc::c_int");
    assert_eq!(remove_spaces("   "), "");
    assert_eq!(remove_spaces(""), "");
    assert_eq!(remove_spaces("a\tb c"), "a\tbc");
}

#[test]
fn removing_spaces_twice_changes_nothing() {
    let once = remove_spaces(" Vec < u8 > ");
    assert_eq!(remove_spaces(&once), once);
}

#[test]
fn integers_parse_as_std_does() {
    assert_eq!(parse_i32("0"), Some(0));
    assert_eq!(parse_i32("42"), Some(42));
    assert_eq!(parse_i32("+7"), Some(7));
    assert_eq!(parse_i32("-1"), Some(-1));
    assert_eq!(parse_i32("2147483647"), Some(i32::MAX));
    assert_eq!(parse_i32("-2147483648"), Some(i32::MIN));
    assert_eq!(parse_i32("007"), Some(7));
}

#[test]
fn malformed_or_out_of_range_integers_do_not_parse() {
    assert_eq!(parse_i32(""), None);
    assert_eq!(parse_i32("-"), None);
    assert_eq!(parse_i32("+"), None);
    assert_eq!(parse_i32("12a"), None);
    assert_eq!(parse_i32("1 2"), None);
    assert_eq!(parse_i32("2147483648"), None);
    assert_eq!(parse_i32("-2147483649"), None);
    assert_eq!(parse_i32("99999999999999999999"), None);
    for text in ["", "-", "12a", "2147483648", "x"] {
        assert_eq!(parse_i32(text), text.parse::<i32>().ok());
    }
}

#[test]
fn integers_are_written_as_std_writes_them() {
    for v in [0, 7, 10, -1, 42, 1000, i32::MAX, i32::MIN] {
        assert_eq!(format_i32(v), v.to_string());
        assert_eq!(parse_i32(&format_i32(v)), Some(v));
    }
}

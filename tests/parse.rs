use process_intake::parse::{parse_count, parse_time};

#[test]
fn count_accepts_plain_and_signed_numerals() {
    assert_eq!(parse_count("7"), Some(7));
    assert_eq!(parse_count("+12"), Some(12));
    assert_eq!(parse_count("-0"), Some(0));
    assert_eq!(parse_count("  42\n"), Some(42));
    assert_eq!(parse_count("007"), Some(7));
}

#[test]
fn count_bounds() {
    assert_eq!(parse_count("2147483647"), Some(2147483647));
    assert_eq!(parse_count("2147483648"), None);
    assert_eq!(parse_count("-3"), None);
    assert_eq!(parse_count("99999999999999999999999"), None);
}

#[test]
fn count_rejects_malformed_lines() {
    assert_eq!(parse_count("abc"), None);
    assert_eq!(parse_count(""), None);
    assert_eq!(parse_count("+"), None);
    assert_eq!(parse_count("-"), None);
    assert_eq!(parse_count("1 2"), None);
    assert_eq!(parse_count("3x"), None);
    assert_eq!(parse_count("--1"), None);
}

#[test]
fn time_accepts_unsigned_numerals() {
    assert_eq!(parse_time("0"), Some(0));
    assert_eq!(parse_time("+5"), Some(5));
    assert_eq!(parse_time("\u{a0}19\u{3000}"), Some(19));
    assert_eq!(parse_time("4294967295"), Some(4294967295));
}

#[test]
fn time_rejects_malformed_lines() {
    assert_eq!(parse_time("-0"), None);
    assert_eq!(parse_time("-5"), None);
    assert_eq!(parse_time("4294967296"), None);
    assert_eq!(parse_time("x"), None);
    assert_eq!(parse_time("1.5"), None);
    assert_eq!(parse_time(""), None);
}

#[test]
fn parsing_agrees_with_std() {
    for s in ["0", "+5", "-0", "-5", " 8 ", "x", "", "+", "4294967295", "4294967296", "2147483648", "\t3\n", "٣"] {
        assert_eq!(parse_time(s), s.trim().parse::<u32>().ok(), "time {:?}", s);
        let std_count = s.trim().parse::<i32>().ok().filter(|n| *n >= 0).map(|n| n as u32);
        assert_eq!(parse_count(s), std_count, "count {:?}", s);
    }
}

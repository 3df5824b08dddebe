use code_2015::roster::{enroll, find};
use code_2015::text::{
    chars_of, parse_error, parse_signed, parse_signed_chars, parse_unsigned, push_decimal,
    same_text, string_of, trim,
};

#[test]
fn unsigned_numbers() {
    assert_eq!(parse_unsigned("0", 10), Some(0));
    assert_eq!(parse_unsigned("007", 10), Some(7));
    assert_eq!(parse_unsigned("+5", 10), Some(5));
    assert_eq!(parse_unsigned("10", 10), Some(10));
    assert_eq!(parse_unsigned("11", 10), None);
    assert_eq!(parse_unsigned("", 10), None);
    assert_eq!(parse_unsigned("+", 10), None);
    assert_eq!(parse_unsigned("-5", 10), None);
    assert_eq!(parse_unsigned("5 ", 10), None);
    assert_eq!(parse_unsigned("++5", 10), None);
    assert_eq!(parse_unsigned("٣", 10), None);
    assert_eq!(parse_unsigned("18446744073709551615", u64::MAX), Some(u64::MAX));
    assert_eq!(parse_unsigned("18446744073709551616", u64::MAX), None);
    assert_eq!(parse_unsigned("99999999999999999999999", u64::MAX), None);
}

#[test]
fn signed_numbers() {
    assert_eq!(parse_signed("-0", -5, 5), Some(0));
    assert_eq!(parse_signed("-5", -5, 5), Some(-5));
    assert_eq!(parse_signed("-6", -5, 5), None);
    assert_eq!(parse_signed("+5", -5, 5), Some(5));
    assert_eq!(parse_signed("6", -5, 5), None);
    assert_eq!(parse_signed("-", -5, 5), None);
    assert_eq!(parse_signed("--1", -5, 5), None);
    assert_eq!(
        parse_signed("-9223372036854775808", i64::MIN, i64::MAX),
        Some(i64::MIN)
    );
    assert_eq!(parse_signed("-9223372036854775809", i64::MIN, i64::MAX), None);
    assert_eq!(parse_signed("9223372036854775807", i64::MIN, i64::MAX), Some(i64::MAX));
    assert_eq!(parse_signed("9223372036854775808", i64::MIN, i64::MAX), None);
    assert_eq!(parse_signed_chars(&vec!['-', '1', '2'], -100, 100), Some(-12));
}

#[test]
fn signed_numbers_in_any_range() {
    assert_eq!(parse_signed("5", 3, 10), Some(5));
    assert_eq!(parse_signed("2", 3, 10), None);
    assert_eq!(parse_signed("0", 3, 10), None);
    assert_eq!(parse_signed("-0", 3, 10), None);
    assert_eq!(parse_signed("-5", 3, 10), None);
    assert_eq!(parse_signed("-5", -10, -3), Some(-5));
    assert_eq!(parse_signed("-2", -10, -3), None);
    assert_eq!(parse_signed("-11", -10, -3), None);
    assert_eq!(parse_signed("5", -10, -3), None);
    assert_eq!(parse_signed("0", -10, -3), None);
    assert_eq!(parse_signed("5", 6, 4), None);
    assert_eq!(parse_signed("-0", 0, 0), Some(0));
}

#[test]
fn characters_and_strings() {
    assert_eq!(chars_of("aé\u{1F600}"), vec!['a', 'é', '\u{1F600}']);
    assert_eq!(chars_of(""), Vec::<char>::new());
    assert_eq!(string_of(&vec!['a', 'é', '\u{1F600}']), "aé\u{1F600}");
    assert_eq!(string_of(&Vec::new()), "");
    assert!(same_text("abc", "abc"));
    assert!(!same_text("abc", "abd"));
    assert!(!same_text("abc", "ab"));
    assert!(same_text("", ""));
}

#[test]
fn trimming() {
    assert_eq!(trim("  a b \n"), vec!['a', ' ', 'b']);
    assert_eq!(trim("\u{a0}x\u{2003}"), vec!['x']);
    assert_eq!(trim(" \t "), Vec::<char>::new());
    assert_eq!(trim(""), Vec::<char>::new());
    assert_eq!(trim("x"), vec!['x']);
}

#[test]
fn numbers_in_base_ten() {
    let mut out = vec!['n'];
    push_decimal(&mut out, 0);
    push_decimal(&mut out, 1203);
    push_decimal(&mut out, u64::MAX);
    assert_eq!(string_of(&out), "n0120318446744073709551615");
}

#[test]
fn error_messages() {
    assert_eq!(parse_error("a <", "b", "> c").message, "a <b> c");
}

#[test]
fn names_get_handles_in_order() {
    let mut names: Vec<String> = Vec::new();
    assert_eq!(enroll(&mut names, "Alice"), 0);
    assert_eq!(enroll(&mut names, "Bob"), 1);
    assert_eq!(enroll(&mut names, "Alice"), 0);
    assert_eq!(names, vec!["Alice", "Bob"]);
    assert_eq!(find(&names, "Bob"), Some(1));
    assert_eq!(find(&names, "Carol"), None);
}

use code_2015::nice::{
    check_new_nice_string, check_nice_string, has_repeat_char, repeat_without_overlap,
};

#[test]
fn test_check_nice_string() {
    assert_eq!(check_nice_string("ugknbfddgicrmopn"), true);
    assert_eq!(check_nice_string("aaa"), true);
    assert_eq!(check_nice_string("jchzalrnumimnmhp"), false);
    assert_eq!(check_nice_string("haegwjzuvuyypxyu"), false);
    assert_eq!(check_nice_string("dvszwmarrgswjxmb"), false);
}

#[test]
fn test_check_new_nice_string() {
    assert_eq!(check_new_nice_string("qjhvhtzxzqqjkmpb"), true);
    assert_eq!(check_new_nice_string("xxyxx"), true);
    assert_eq!(check_new_nice_string("uurcxstgmygtbstg"), false);
    assert_eq!(check_new_nice_string("ieodomkazucvgmuy"), false);
}

#[test]
fn short_strings_are_naughty() {
    assert_eq!(check_nice_string(""), false);
    assert_eq!(check_nice_string("aa"), false);
    assert_eq!(check_nice_string("aei"), false);
    assert_eq!(check_new_nice_string(""), false);
    assert_eq!(check_new_nice_string("aa"), false);
    assert_eq!(check_new_nice_string("aaa"), false);
    assert_eq!(check_new_nice_string("aaaa"), true);
}

#[test]
fn the_parts_of_the_new_rules() {
    assert_eq!(has_repeat_char("xyx"), true);
    assert_eq!(has_repeat_char("aaa"), true);
    assert_eq!(has_repeat_char("abcabc"), false);
    assert_eq!(has_repeat_char("ab"), false);
    assert_eq!(repeat_without_overlap("xyxy"), true);
    assert_eq!(repeat_without_overlap("aaa"), false);
    assert_eq!(repeat_without_overlap("aabcdefgaa"), true);
    assert_eq!(repeat_without_overlap("abcde"), false);
}

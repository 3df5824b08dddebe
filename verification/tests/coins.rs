use code_2015::coins::{check_md5, leading_zeros};

#[test]
fn day4_test_empty_string() {
    assert_eq!(check_md5("abcdef", 5), Some(609043));
    assert_eq!(check_md5("pqrstuv", 5), Some(1048970));
}

#[test]
fn the_key_is_trimmed() {
    assert_eq!(check_md5("abcdef", 1), check_md5("  abcdef\n", 1));
    assert_eq!(check_md5("abcdef", 0), Some(0));
    // 31 is the first number whose digest starts with a zero
    assert_eq!(check_md5("abcdef", 1), Some(31));
}

#[test]
fn zeros_are_counted_by_hexadecimal_digit() {
    let mut digest = [0u8; 16];
    assert!(leading_zeros(&digest, 32));
    assert!(!leading_zeros(&digest, 33));
    digest[2] = 0x0f;
    assert!(leading_zeros(&digest, 5));
    assert!(!leading_zeros(&digest, 6));
    digest[2] = 0xf0;
    assert!(leading_zeros(&digest, 4));
    assert!(!leading_zeros(&digest, 5));
}

use code_2015::passwords::{generate_next_password, generate_next_valid_password, is_valid};

#[test]
fn test_is_valid() {
    assert_eq!(is_valid(&"hijklmmn".into()), false);
    assert_eq!(is_valid(&"abbceffg".into()), false);
    assert_eq!(is_valid(&"abbcegjk".into()), false);
    assert_eq!(is_valid(&"abcdffaa".into()), true);
    assert_eq!(is_valid(&"ghjaabcc".into()), true);
}

#[test]
fn test_generate_password() {
    assert_eq!(generate_next_password(&"hijklmmn".into()), "hijklmmo");
    assert_eq!(generate_next_password(&"hijklmmz".into()), "hijklmna");
    assert_eq!(generate_next_password(&"hizzzzzz".into()), "hjaaaaaa");
}

#[test]
fn the_next_password_steps_any_character_below_z() {
    assert_eq!(generate_next_password(&"".into()), "");
    assert_eq!(generate_next_password(&"zzz".into()), "aaa");
    assert_eq!(generate_next_password(&"aA".into()), "aB");
    assert_eq!(generate_next_password(&"a{".into()), "ba");
    assert_eq!(generate_next_password(&"y".into()), "z");
}

#[test]
fn the_next_valid_password() {
    assert_eq!(
        generate_next_valid_password("abcdffaa".into()),
        Some(String::from("abcdffbb"))
    );
    assert_eq!(
        generate_next_valid_password("abcdefgh".into()),
        Some(String::from("abcdffaa"))
    );
}

#[test]
fn quirks_of_the_rules() {
    assert_eq!(is_valid(&"".into()), false);
    assert_eq!(is_valid(&"abcaabb".into()), true);
    assert_eq!(is_valid(&"aabcc".into()), true);
    assert_eq!(is_valid(&"aaabc".into()), false);
    assert_eq!(is_valid(&"abcaaxbb".into()), true);
    assert_eq!(is_valid(&"abcaaxbbi".into()), false);
}

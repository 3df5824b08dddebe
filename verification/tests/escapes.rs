use code_2015::escapes::{count_characters_in_memory, encode};

#[test]
fn test_characters() {
    assert_eq!("\"\"".len(), 2);
    assert_eq!("\"abc\"".len(), 5);
    assert_eq!("\"aaa\\\"aaa\"".len(), 10);
    assert_eq!("\"\\x27\"".len(), 6);
}

#[test]
fn test_count_characters_in_memory() {
    assert_eq!(count_characters_in_memory("\"\\\"").unwrap(), 1);
    assert_eq!(count_characters_in_memory("\"\\\\\"").unwrap(), 1);
    assert_eq!(count_characters_in_memory("\"\\\"\"").unwrap(), 1);
    assert_eq!(count_characters_in_memory("\"\\x\"").unwrap(), 2);
    assert_eq!(count_characters_in_memory("\"\\x1\"").unwrap(), 3);
    assert_eq!(count_characters_in_memory("\"\\x12\"").unwrap(), 1);

    assert_eq!(count_characters_in_memory("\"abc\"").unwrap(), 3);
    assert_eq!(count_characters_in_memory("\"aaa\\\"aaa\"").unwrap(), 7);
    assert_eq!(count_characters_in_memory("\"\x27\"").unwrap(), 1);
}

#[test]
fn test_encode() {
    println!("asdfsdf {}", encode(""));
    assert_eq!(encode("\"\"").len(), 6);
    assert_eq!(encode("\"abc\"").len(), 9);
    assert_eq!(encode("\"aaa\\\"aaa\"").len(), 16);
    assert_eq!(encode("\"\\x27\"").len(), 11);
}

#[test]
fn encode_writes_the_literal() {
    assert_eq!(encode(""), "\"\"");
    assert_eq!(encode("a\"b\\c"), "\"a\\\"b\\\\c\"");
}

#[test]
fn literals_that_are_none() {
    let e = count_characters_in_memory("abc").unwrap_err();
    assert_eq!(e.message, "string: \"abc\" is not quoted by double quote");
    let e = count_characters_in_memory("").unwrap_err();
    assert_eq!(e.message, "string: \"\" is not quoted by double quote");
    let e = count_characters_in_memory("\"a\"b\"").unwrap_err();
    assert_eq!(
        e.message,
        "got error: \"found multiple double quote\" for string: \"\"a\"b\"\""
    );
    assert_eq!(count_characters_in_memory("\"\"").unwrap(), 0);
    assert_eq!(count_characters_in_memory("\"\\a\\xg\"").unwrap(), 5);
}

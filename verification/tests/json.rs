use code_2015::json::{
    has_red, numbers_fit, sum_all_numbers, sum_number, sum_without_red, JsonError,
};

#[test]
fn test_sum_all_numbers() {
    assert_eq!(sum_all_numbers("[1,2,3]"), 6);
    assert_eq!(sum_all_numbers("{\"a\":2,\"b\":4}"), 6);
    assert_eq!(sum_all_numbers("[[[3]]"), 3);
    assert_eq!(sum_all_numbers("{\"a\":{\"b\":4},\"c\":-1}"), 3);
    assert_eq!(sum_all_numbers("{\"a\":[-1,1]}"), 0);
    assert_eq!(sum_all_numbers("[-1,{\"a\":1}]"), 0);
    assert_eq!(sum_all_numbers("{}"), 0);
    assert_eq!(sum_all_numbers("[]"), 0);
}

#[test]
fn test_sum_without_red() {
    assert_eq!(sum_without_red("[1,2,3]").unwrap(), 6);
    assert_eq!(sum_without_red("[1,{\"c\":\"red\",\"b\":2},3]").unwrap(), 4);
    assert_eq!(sum_without_red("{\"d\":\"red\",\"e\":[1,2,3,4],\"f\":5}").unwrap(), 0);
    assert_eq!(sum_without_red("[1,\"red\",5]").unwrap(), 6);
}

#[test]
fn runs_that_write_no_number_count_for_nothing() {
    assert_eq!(sum_all_numbers(""), 0);
    assert_eq!(sum_all_numbers("12"), 12);
    assert_eq!(sum_all_numbers("a12b-3c"), 9);
    assert_eq!(sum_all_numbers("1-2"), 0);
    assert_eq!(sum_all_numbers("--5 7"), 7);
    assert_eq!(sum_all_numbers("- 4"), 4);
    assert_eq!(sum_all_numbers("2147483647 2147483648 -2147483648"), -1);
    assert_eq!(sum_all_numbers("007"), 7);
}

#[test]
fn documents_without_a_sum() {
    assert_eq!(sum_without_red("[1,"), Err(JsonError::Syntax));
    assert_eq!(sum_without_red("[1.5]"), Err(JsonError::NoSum));
    assert_eq!(sum_without_red("[9223372036854775807,1]"), Err(JsonError::NoSum));
    assert_eq!(sum_without_red("[18446744073709551615]"), Err(JsonError::NoSum));
    assert_eq!(sum_without_red("{\"a\":\"red\",\"b\":1.5}"), Ok(0));
    assert_eq!(sum_without_red("{\"red\":5,\"b\":[true,null,\"x\",-7]}"), Ok(-2));
    assert_eq!(sum_without_red("\"red\""), Ok(0));
    assert_eq!(sum_without_red("-12"), Ok(-12));
}

#[test]
fn sums_of_values() {
    let v: serde_json::Value = serde_json::from_str("[1,[2,{\"a\":3}],\"4\",true,null]").unwrap();
    assert_eq!(sum_number(&v), Some(6));
    let v: serde_json::Value = serde_json::from_str("{\"a\":{\"b\":\"red\",\"c\":9},\"d\":1}").unwrap();
    assert_eq!(sum_number(&v), Some(1));
    let v: serde_json::Value = serde_json::from_str("2.5").unwrap();
    assert_eq!(sum_number(&v), None);
    let v: serde_json::Value =
        serde_json::from_str("[-9223372036854775808,-1,1]").unwrap();
    assert_eq!(sum_number(&v), None);
}

#[test]
fn red_among_values() {
    let red: serde_json::Value = serde_json::from_str("\"red\"").unwrap();
    let blue: serde_json::Value = serde_json::from_str("\"blue\"").unwrap();
    let list: serde_json::Value = serde_json::from_str("[\"red\"]").unwrap();
    assert!(has_red(&vec![&blue, &red]));
    assert!(!has_red(&vec![&blue, &list]));
    assert!(!has_red(&Vec::new()));
}

#[test]
fn sums_that_are_an_i32_and_sums_that_are_not() {
    assert!(numbers_fit(""));
    assert!(numbers_fit("[1,2,3]"));
    assert!(numbers_fit("2147483647"));
    assert!(!numbers_fit("2147483647 1"));
    assert!(numbers_fit("2147483647 1 -1"));
    assert!(numbers_fit("-2147483648"));
    assert!(!numbers_fit("-2147483648 -1"));
    // a run that writes no `i32` counts for nothing
    assert!(numbers_fit("99999999999 2147483647"));
    assert_eq!(sum_all_numbers("99999999999 2147483647"), 2147483647);
    assert_eq!(sum_all_numbers("12345 678"), 13023);
}

use code_2015::floors::{check_result, SantaResult};

#[test]
fn day1_test_empty_string() {
    assert_eq!(check_result(""), SantaResult { floor: 0, position: 0 });
}

#[test]
fn test_floor() {
    assert_eq!(check_result("("), SantaResult { floor: 1, position: 0 });
    assert_eq!(check_result("()("), SantaResult { floor: 1, position: 0 });
    assert_eq!(check_result("()(("), SantaResult { floor: 2, position: 0 });
    assert_eq!(check_result("(())((("), SantaResult { floor: 3, position: 0 });
    assert_eq!(check_result("))((("), SantaResult { floor: 1, position: 1 });
}

#[test]
fn test_position() {
    assert_eq!(check_result("(()))(("), SantaResult { floor: 1, position: 5 });
    assert_eq!(check_result(")"), SantaResult { floor: -1, position: 1 });
    assert_eq!(check_result("(()"), SantaResult { floor: 1, position: 0 });
}

#[test]
fn other_characters_stay_on_the_floor() {
    assert_eq!(check_result("a(b)c)\n"), SantaResult { floor: -1, position: 6 });
    assert_eq!(check_result("xyz"), SantaResult { floor: 0, position: 0 });
}

#[test]
fn only_the_first_visit_to_the_basement_counts() {
    assert_eq!(check_result(")()"), SantaResult { floor: -1, position: 1 });
    assert_eq!(check_result("())())"), SantaResult { floor: -2, position: 3 });
}

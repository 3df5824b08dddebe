use code_2015::houses::{next_pos, spread_presents, spread_presents_with_robot};

#[test]
fn day3_test_empty_string() {
    assert_eq!(spread_presents(""), 0);
}

#[test]
fn test_spread_presents() {
    assert_eq!(spread_presents(">"), 2);
    assert_eq!(spread_presents("^>v<"), 4);
    assert_eq!(spread_presents("^v^v^v^v^v"), 2);
    assert_eq!(spread_presents("<><><><>"), 2);
}

#[test]
fn test_spread_presents_with_robot() {
    assert_eq!(spread_presents_with_robot("^v"), 3);
    assert_eq!(spread_presents_with_robot("^>v<"), 3);
    assert_eq!(spread_presents_with_robot("^v^v^v^v^v"), 11);
    assert_eq!(spread_presents_with_robot("<><><><>"), 9);
}

#[test]
fn next_pos_moves_one_house() {
    assert_eq!(next_pos('^', (0, 0)), (0, 1));
    assert_eq!(next_pos('>', (0, 0)), (1, 0));
    assert_eq!(next_pos('v', (3, -2)), (3, -3));
    assert_eq!(next_pos('<', (3, -2)), (2, -2));
    assert_eq!(next_pos('x', (3, -2)), (3, -2));
}

#[test]
fn robot_with_nothing_to_do() {
    assert_eq!(spread_presents_with_robot(""), 0);
    assert_eq!(spread_presents_with_robot(">"), 2);
    assert_eq!(spread_presents_with_robot("x"), 1);
    assert_eq!(spread_presents("x"), 1);
}

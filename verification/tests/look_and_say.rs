use code_2015::look_and_say::{do_look_and_say, look_and_say};

#[test]
fn test_do_look_and_say() {
    assert_eq!(do_look_and_say("".into()), "");
    assert_eq!(do_look_and_say("1".into()), "11");
    assert_eq!(do_look_and_say("11".into()), "21");
    assert_eq!(do_look_and_say("21".into()), "1211");
    assert_eq!(do_look_and_say("1211".into()), "111221");
    assert_eq!(do_look_and_say("111221".into()), "312211");
}

#[test]
fn test_look_and_say() {
    assert_eq!(look_and_say("1", 5), "312211");
    assert_eq!(look_and_say("1321131112", 1), "11131221133112");
}

#[test]
fn long_runs_are_counted_in_base_ten() {
    assert_eq!(do_look_and_say("aaaaaaaaaaaa".into()), "12a");
    assert_eq!(do_look_and_say("xxxxxxxxxxy".into()), "10x1y");
    assert_eq!(look_and_say("abc", 0), "abc");
    assert_eq!(look_and_say("1", 40).len(), 82350);
}

use code_2015::circuit::{split_words, Circuit, Operator, Sentence};

#[test]
fn test_circuit() {
    let ses = vec![
        "x AND y -> d",
        "x OR y -> e",
        "123 -> x",
        "x LSHIFT 2 -> f",
        "y RSHIFT 2 -> g",
        "456 -> y",
        "NOT x -> h",
        "NOT y -> i",
    ]
    .into_iter()
    .map(|s| Sentence::from_str(s).unwrap())
    .collect::<Vec<Sentence>>();
    let mut c = Circuit::new();
    c.execute(ses);

    assert_eq!(c.get_value(&"x".into()).unwrap(), 123);
    assert_eq!(c.get_value(&"y".into()).unwrap(), 456);
    assert_eq!(c.get_value(&"d".into()).unwrap(), 72);
    assert_eq!(c.get_value(&"e".into()).unwrap(), 507);
    assert_eq!(c.get_value(&"f".into()).unwrap(), 492);
    assert_eq!(c.get_value(&"g".into()).unwrap(), 114);
    assert_eq!(c.get_value(&"h".into()).unwrap(), 65412);
    assert_eq!(c.get_value(&"i".into()).unwrap(), 65079);
}

#[test]
fn sentences_are_carried_out_as_their_inputs_come() {
    let ses = vec!["a AND b -> c", "1 -> a", "c OR z -> d", "3 -> b"]
        .into_iter()
        .map(|s| Sentence::from_str(s).unwrap())
        .collect::<Vec<Sentence>>();
    let mut c = Circuit::new();
    let left = c.execute(ses);
    assert_eq!(left, vec![Sentence::from_str("c OR z -> d").unwrap()]);
    assert_eq!(c.get_value(&"c".into()), Some(1));
    assert_eq!(c.get_value(&"d".into()), None);
    let order: Vec<String> = c.into_sorted().into_iter().map(|s| s.assign_to).collect();
    assert_eq!(order, vec!["a", "b", "c"]);
}

#[test]
fn the_first_value_of_a_wire_stays() {
    let mut c = Circuit::new();
    c.put_value(&"b".into(), 7);
    c.put_value(&"b".into(), 9);
    assert_eq!(c.get_value(&"b".into()), Some(7));
    let left = c.execute(vec![Sentence::from_str("5 -> b").unwrap()]);
    assert!(left.is_empty());
    assert_eq!(c.get_value(&"b".into()), Some(7));
}

#[test]
fn gates() {
    let mut c = Circuit::new();
    c.put_value(&"x".into(), 0xf0f0);
    let op = Operator::from_str("x RSHIFT 4").unwrap();
    assert_eq!(op, Operator::RSHIFT { x: "x".into(), y: "4".into() });
    assert_eq!(op.execute(&c), Some(0x0f0f));
    assert_eq!(Operator::from_str("x LSHIFT 4").unwrap().execute(&c), Some(0x0f00));
    assert_eq!(Operator::from_str("x LSHIFT 16").unwrap().execute(&c), None);
    assert_eq!(Operator::from_str("NOT x").unwrap().execute(&c), Some(0x0f0f));
    assert_eq!(Operator::from_str("x AND 255").unwrap().execute(&c), Some(0xf0));
    assert_eq!(Operator::from_str("x OR 255").unwrap().execute(&c), Some(0xf0ff));
    assert_eq!(Operator::from_str("65535").unwrap().execute(&c), Some(65535));
    assert_eq!(Operator::from_str("65536").unwrap().execute(&c), None);
    assert_eq!(Operator::from_str("y").unwrap().execute(&c), None);
    assert_eq!(op.get_or_parse_operand(&c, &"x".into()), Some(0xf0f0));
    assert_eq!(op.get_or_parse_operand(&c, &"12".into()), Some(12));
}

#[test]
fn lines_that_are_no_sentence() {
    let e = Sentence::from_str("x AND y").unwrap_err();
    assert_eq!(e.message, "sentence: \"x AND y\" is not in valid format");
    let e = Sentence::from_str("x NAND y -> z").unwrap_err();
    assert_eq!(e.message, "sentence: \"x NAND y -> z\" is not in valid format");
    let e = Operator::from_str("x NAND y").unwrap_err();
    assert_eq!(e.message, "can't parse operator form sentence: \"x NAND y\"");
    assert!(Operator::from_str("").is_err());
    assert!(Operator::from_str("NO x").is_err());
    assert!(Operator::from_str("a b c d").is_err());
}

#[test]
fn words_are_cut_at_any_white_space() {
    assert_eq!(split_words("  x \t AND\u{a0}y\n"), vec!["x", "AND", "y"]);
    assert_eq!(split_words(""), Vec::<String>::new());
    assert_eq!(split_words(" \t "), Vec::<String>::new());
}

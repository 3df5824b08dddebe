use code_2015::optimizer::EngineError;
use code_2015::seating::{add_me_to_survey_map, Puzzle, Survey};
use code_2015::table::WeightTable;

fn surveys_of(lines: &[&str]) -> Vec<Survey> {
    lines.iter().map(|s| Survey::from_str(s).unwrap()).collect()
}

fn four_guests() -> Vec<Survey> {
    surveys_of(&[
        "Alice would gain 54 happiness units by sitting next to Bob.",
        "Alice would lose 79 happiness units by sitting next to Carol.",
        "Alice would lose 2 happiness units by sitting next to David.",
        "Bob would gain 83 happiness units by sitting next to Alice.",
        "Bob would lose 7 happiness units by sitting next to Carol.",
        "Bob would lose 63 happiness units by sitting next to David.",
        "Carol would lose 62 happiness units by sitting next to Alice.",
        "Carol would gain 60 happiness units by sitting next to Bob.",
        "Carol would gain 55 happiness units by sitting next to David.",
        "David would gain 46 happiness units by sitting next to Alice.",
        "David would lose 7 happiness units by sitting next to Bob.",
        "David would gain 41 happiness units by sitting next to Carol.",
    ])
}

#[test]
fn test_optimal_plan() {
    let p = Puzzle::new(four_guests());
    let (plan, happiness) = p.optimal_plan().unwrap();
    println!("plan {:?} {}", plan, happiness);
    assert_eq!(happiness, 330);
}

#[test]
fn the_first_best_plan_is_the_witness() {
    let p = Puzzle::new(four_guests());
    let (plan, happiness) = p.optimal_plan().unwrap();
    assert_eq!(happiness, 330);
    assert_eq!(plan, vec!["Alice", "Bob", "Carol", "David"]);
    let again = p.optimal_plan().unwrap();
    assert_eq!(again, (plan, happiness));
}

#[test]
fn seating_with_me() {
    let p = Puzzle::new(four_guests());
    let (plan, happiness) = p.optimal_plan_with_me().unwrap();
    assert_eq!(happiness, 286);
    assert_eq!(plan.len(), 5);
    assert!(plan.contains(&String::from("Me")));
}

#[test]
fn happiness_of_a_plan() {
    let p = Puzzle::new(four_guests());
    let alice = p.handle("Alice").unwrap();
    let bob = p.handle("Bob").unwrap();
    let carol = p.handle("Carol").unwrap();
    let david = p.handle("David").unwrap();
    let me = p.handle("Me").unwrap();
    assert_eq!(
        p.get_happiness(&vec![alice, bob, carol, david]).unwrap(),
        54 + 83 - 7 + 60 + 55 + 41 + 46 - 2
    );
    assert_eq!(p.get_happiness(&vec![alice, bob]).unwrap(), 2 * (54 + 83));
    assert_eq!(p.get_happiness(&vec![alice, me]).unwrap(), 0);
    assert_eq!(p.get_happiness(&vec![alice]).unwrap(), 0);
    assert_eq!(p.get_happiness(&Vec::new()).unwrap(), 0);
    assert_eq!(
        p.get_happiness(&vec![alice, alice]),
        Err(EngineError::MissingWeight { from: alice, to: alice })
    );
}

#[test]
fn no_guest_no_plan() {
    let p = Puzzle::new(Vec::new());
    assert_eq!(p.optimal_plan(), Err(EngineError::EmptyUniverse));
    assert_eq!(p.optimal_plan_with_me().unwrap(), (vec![String::from("Me")], 0));
}

#[test]
fn a_silent_neighbour_is_missing() {
    let p = Puzzle::new(surveys_of(&[
        "Alice would gain 1 happiness units by sitting next to Bob.",
        "Bob would gain 2 happiness units by sitting next to Carol.",
    ]));
    assert_eq!(p.optimal_plan(), Err(EngineError::MissingWeight { from: 1, to: 0 }));
}

#[test]
fn survey_lines() {
    let s = Survey::from_str("Alice would lose 79 happiness units by sitting next to Carol.")
        .unwrap();
    assert_eq!(
        s,
        Survey { from: String::from("Alice"), to: String::from("Carol"), happiness: -79 }
    );
    let e = Survey::from_str("Alice likes Carol").unwrap_err();
    assert_eq!(e.message, "puzzle input: \"Alice likes Carol\" is not in valid format");
    assert!(Survey::from_str(
        "Alice would gain 2147483648 happiness units by sitting next to Carol."
    )
    .is_err());
}

#[test]
fn names_have_handles_by_first_mention() {
    let p = Puzzle::new(four_guests());
    assert_eq!(p.guest_count(), 4);
    assert_eq!(p.guest_count_with_me(), 5);
    assert_eq!(p.handle("Alice"), Some(0));
    assert_eq!(p.handle("Bob"), Some(1));
    assert_eq!(p.handle("Carol"), Some(2));
    assert_eq!(p.handle("David"), Some(3));
    assert_eq!(p.handle("Me"), Some(4));
    assert_eq!(p.handle("Eve"), None);
    assert_eq!(p.handle("alice"), None);
}

#[test]
fn me_joins_every_row_of_the_table() {
    // 0 states something about 1; nobody is a guest
    let mut table = WeightTable::new(3);
    table.set(0, 1, 5);
    let table = add_me_to_survey_map(table, &Vec::new(), 2);
    assert_eq!(table.get(0, 1), Some(5));
    assert_eq!(table.get(0, 2), Some(0));
    assert_eq!(table.get(1, 2), None);
    assert_eq!(table.get(2, 0), None);
    assert_eq!(table.get(2, 1), None);
    assert_eq!(table.get(2, 2), None);
}

#[test]
fn a_guest_without_a_row_gets_none() {
    let mut table = WeightTable::new(4);
    table.set(0, 1, 5);
    table.set(3, 0, 7);
    table.set(3, 3, 9);
    // 1 is a guest and has stated nothing; 3 is `Me` and had a row
    let table = add_me_to_survey_map(table, &vec![1, 0], 3);
    assert_eq!(table.get(0, 1), Some(5));
    assert_eq!(table.get(0, 3), Some(0));
    assert_eq!(table.get(1, 3), None);
    assert_eq!(table.get(2, 3), None);
    assert_eq!(table.get(3, 0), Some(0));
    assert_eq!(table.get(3, 1), Some(0));
    assert_eq!(table.get(3, 2), None);
    assert_eq!(table.get(3, 3), None);
}

#[test]
fn a_guest_comes_once_however_often_it_speaks() {
    let p = Puzzle::new(surveys_of(&[
        "Alice would gain 1 happiness units by sitting next to Bob.",
        "Bob would gain 2 happiness units by sitting next to Alice.",
        "Alice would gain 3 happiness units by sitting next to Bob.",
    ]));
    // two guests have two seatings, each worth 2 * (3 + 2)
    let (plan, happiness) = p.optimal_plan().unwrap();
    assert_eq!(plan, vec!["Alice", "Bob"]);
    assert_eq!(happiness, 10);
    let (plan, happiness) = p.optimal_plan_with_me().unwrap();
    assert_eq!(plan.len(), 3);
    assert_eq!(happiness, 5);
}

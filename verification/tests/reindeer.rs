use code_2015::optimizer::EngineError;
use code_2015::reindeer::{PointsCounter, ReindeerPerformance, ReindeerRace};

fn two_reindeer() -> ReindeerRace {
    let performances = vec![
        "Comet can fly 14 km/s for 10 seconds, but then must rest for 127 seconds.",
        "Dancer can fly 16 km/s for 11 seconds, but then must rest for 162 seconds.",
    ]
    .iter()
    .map(|p| ReindeerPerformance::from_str(p).unwrap())
    .collect::<Vec<ReindeerPerformance>>();
    ReindeerRace { performances }
}

#[test]
fn day14_test_race() {
    let race = two_reindeer();
    let ret = race.race(1000).unwrap();
    assert_eq!(1120, ret.1);
    assert_eq!("Comet", ret.0);
}

#[test]
fn test_race_mode_2() {
    let race = two_reindeer();
    let ret = race.race_mode_two(1000).unwrap();
    assert_eq!(689, ret.1);
    assert_eq!("Dancer", ret.0);
}

#[test]
fn ties_are_all_reported_in_order() {
    let race = two_reindeer();
    assert_eq!(race.race_with_tie(1).unwrap(), vec![(String::from("Dancer"), 16)]);
    let twins = ReindeerRace {
        performances: vec![
            ReindeerPerformance { name: String::from("A"), speed: 3, stamina: 2, full_cycle: 5 },
            ReindeerPerformance { name: String::from("B"), speed: 1, stamina: 1, full_cycle: 2 },
            ReindeerPerformance { name: String::from("C"), speed: 2, stamina: 3, full_cycle: 5 },
        ],
    };
    assert_eq!(
        twins.race_with_tie(5).unwrap(),
        vec![(String::from("A"), 6), (String::from("C"), 6)]
    );
    assert_eq!(twins.race(5).unwrap(), (String::from("A"), 6));
    assert_eq!(twins.race_with_tie(3).unwrap(), vec![(String::from("A"), 6), (String::from("C"), 6)]);
    assert_eq!(twins.race_with_tie(1).unwrap(), vec![(String::from("A"), 3)]);
}

#[test]
fn no_reindeer_no_race() {
    let race = ReindeerRace { performances: Vec::new() };
    assert_eq!(race.race(10), Err(EngineError::EmptyUniverse));
    assert_eq!(race.race_with_tie(10), Err(EngineError::EmptyUniverse));
    assert_eq!(race.race_mode_two(10), Err(EngineError::EmptyUniverse));
}

#[test]
fn points_counter_counts() {
    let mut c = PointsCounter::new();
    assert_eq!(c.get(), 0);
    c.increase();
    c.increase();
    assert_eq!(c.get(), 2);
}

#[test]
fn points_before_the_first_second() {
    let race = two_reindeer();
    assert_eq!(race.race_mode_two(0).unwrap(), (String::from("Comet"), 0));
    assert_eq!(race.race_mode_two(1).unwrap(), (String::from("Comet"), 0));
    assert_eq!(race.race_mode_two(2).unwrap(), (String::from("Dancer"), 1));
}

#[test]
fn reindeer_lines() {
    let p = ReindeerPerformance::from_str(
        "Comet can fly 14 km/s for 10 seconds, but then must rest for 127 seconds.",
    )
    .unwrap();
    assert_eq!(
        p,
        ReindeerPerformance { name: String::from("Comet"), speed: 14, stamina: 10, full_cycle: 137 }
    );
    let e = ReindeerPerformance::from_str("Comet rests").unwrap_err();
    assert_eq!(
        e.message,
        "Reindeer performance input: \"Comet rests\" is not in valid format"
    );
    assert!(ReindeerPerformance::from_str(
        "Comet can fly 14 km/s for 4294967295 seconds, but then must rest for 1 seconds."
    )
    .is_err());
}

#[test]
fn who_can_race() {
    let race = two_reindeer();
    assert!(race.all_may_race(1000));
    assert!(race.all_may_race_before(1000));
    // 140 km every 137 seconds outruns a `u32` shortly before the seconds do
    assert!(race.performances[0].may_race(4_000_000_000));
    assert!(!race.performances[0].may_race(u32::MAX));
    let resting = ReindeerRace {
        performances: vec![ReindeerPerformance {
            name: String::from("R"),
            speed: 1,
            stamina: 1,
            full_cycle: 0,
        }],
    };
    assert!(!resting.all_may_race(1));
    assert!(resting.all_may_race_before(1));
    assert!(!resting.all_may_race_before(2));
    let fast = ReindeerPerformance {
        name: String::from("F"),
        speed: u32::MAX,
        stamina: 2,
        full_cycle: 3,
    };
    assert!(fast.may_race(1));
    assert!(!fast.may_race(2));
    let race = ReindeerRace { performances: vec![fast] };
    assert!(race.all_may_race_before(2));
    assert!(!race.all_may_race_before(3));
    assert!(ReindeerRace { performances: Vec::new() }.all_may_race(7));
}

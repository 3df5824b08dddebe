use code_2015::optimizer::EngineError;
use code_2015::recipes::{checked_score, find_optimal, get_score, mixtures_fit, Ingredients};

fn two_ingredients() -> Vec<Ingredients> {
    vec![
        "Butterscotch: capacity -1, durability -2, flavor 6, texture 3, calories 8",
        "Cinnamon: capacity 2, durability 3, flavor -2, texture -1, calories 3",
    ]
    .iter()
    .map(|p| Ingredients::from_str(p).unwrap())
    .collect::<Vec<Ingredients>>()
}

#[test]
fn day15_test_race() {
    let performances = two_ingredients();
    assert_eq!(find_optimal(&performances, false).unwrap(), 62842880);
}

#[test]
fn best_score_with_the_calorie_target() {
    assert_eq!(find_optimal(&two_ingredients(), true).unwrap(), 57600000);
}

#[test]
fn score_of_one_mixture() {
    let ingredients = two_ingredients();
    assert_eq!(get_score(&ingredients, &vec![44, 56], false), 68 * 80 * 152 * 76);
    assert_eq!(get_score(&ingredients, &vec![44, 56], true), 0);
    assert_eq!(get_score(&ingredients, &vec![40, 60], true), 57600000);
}

#[test]
fn a_negative_property_scores_zero() {
    let ingredients = two_ingredients();
    // capacity -100, durability -200, flavor 600, texture 300
    assert_eq!(get_score(&ingredients, &vec![100, 0], false), 0);
    // flavor -200 and texture -100, capacity 200 and durability 300
    assert_eq!(get_score(&ingredients, &vec![0, 100], false), 0);
    // an ingredient that the mixture does not list has no share
    assert_eq!(get_score(&ingredients, &vec![100], false), 0);
    assert_eq!(get_score(&ingredients, &Vec::new(), false), 0);
}

#[test]
fn no_ingredient_no_mixture() {
    assert_eq!(find_optimal(&Vec::new(), false), Err(EngineError::EmptyUniverse));
}

#[test]
fn ingredient_lines() {
    let i = Ingredients::from_str(
        "Butterscotch: capacity -1, durability -2, flavor 6, texture 3, calories 8",
    )
    .unwrap();
    assert_eq!(
        i,
        Ingredients {
            name: String::from("Butterscotch"),
            capacity: -1,
            durability: -2,
            flavor: 6,
            texture: 3,
            calories: 8
        }
    );
    assert_eq!(Ingredients::from_str("Butter").unwrap_err().message, "invalid input format");
    assert!(Ingredients::from_str(
        "B: capacity 1-1, durability -2, flavor 6, texture 3, calories 8"
    )
    .is_err());
}

fn ingredient(name: &str, each: i64) -> Ingredients {
    Ingredients {
        name: String::from(name),
        capacity: each,
        durability: each,
        flavor: each,
        texture: each,
        calories: each,
    }
}

#[test]
fn scores_that_fit_and_scores_that_do_not() {
    let ingredients = two_ingredients();
    assert_eq!(checked_score(&ingredients, &vec![44, 56], false), Some(62842880));
    assert_eq!(checked_score(&ingredients, &vec![44, 56], true), Some(0));
    assert_eq!(checked_score(&ingredients, &vec![100, 0], false), Some(0));
    assert!(mixtures_fit(&ingredients, false));
    assert!(mixtures_fit(&ingredients, true));
    assert!(mixtures_fit(&Vec::new(), false));
    // 100 spoonfuls of 550 make 55000 of each property, and 55000 to the
    // fourth is 9150625 followed by twelve zeros, just below what fits
    let rich = vec![ingredient("rich", 550)];
    assert_eq!(checked_score(&rich, &vec![100], false), Some(9_150_625_000_000_000_000));
    assert!(mixtures_fit(&rich, false));
    assert_eq!(find_optimal(&rich, false), Ok(9_150_625_000_000_000_000));
    // 56000 to the fourth does not fit
    let richer = vec![ingredient("richer", 560)];
    assert_eq!(checked_score(&richer, &vec![100], false), None);
    assert!(!mixtures_fit(&richer, false));
    // with the calorie gate the score is 0 before anything is multiplied
    assert_eq!(checked_score(&richer, &vec![100], true), Some(0));
    assert!(mixtures_fit(&richer, true));
    // a share that is no i64
    let huge = vec![ingredient("huge", i64::MAX)];
    assert_eq!(checked_score(&huge, &vec![2], false), None);
    assert_eq!(checked_score(&huge, &vec![1], false), None);
    assert_eq!(checked_score(&huge, &vec![0], false), Some(0));
}

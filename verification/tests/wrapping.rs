use code_2015::text::split;
use code_2015::wrapping::{
    calculate_total_ribbons, calculate_total_wrappers, ribbons_fit, wrappers_fit, CalculateError,
    Rectangular,
};

#[test]
fn test_invalid_input() {
    let mut input = "";
    assert_eq!(
        calculate_total_wrappers(&vec![input]).unwrap_err(),
        CalculateError::InputFormatError(String::from(input))
    );
    input = "1x";
    assert_eq!(
        calculate_total_wrappers(&vec![input]).unwrap_err(),
        CalculateError::InputFormatError(String::from(input))
    );
    input = "1x1x1x1";
    assert_eq!(
        calculate_total_wrappers(&vec![input]).unwrap_err(),
        CalculateError::InputFormatError(String::from(input))
    );
}

#[test]
fn test_calculate_wrappers() {
    assert_eq!(calculate_total_wrappers(&vec!["2x3x4"]).unwrap(), 58);
    assert_eq!(calculate_total_wrappers(&vec!["1x1x10"]).unwrap(), 43);
}

#[test]
fn test_calculate_ribbon() {
    assert_eq!(calculate_total_ribbons(&vec!["2x3x4"]).unwrap(), 34);
    assert_eq!(calculate_total_ribbons(&vec!["1x1x10"]).unwrap(), 14);
}

#[test]
fn totals_add_up_over_lines() {
    assert_eq!(calculate_total_wrappers(&vec!["2x3x4", "1x1x10"]).unwrap(), 101);
    assert_eq!(calculate_total_ribbons(&vec!["2x3x4", "1x1x10"]).unwrap(), 48);
    assert_eq!(calculate_total_wrappers(&Vec::new()).unwrap(), 0);
    assert_eq!(calculate_total_ribbons(&Vec::new()).unwrap(), 0);
}

#[test]
fn a_piece_that_is_no_number() {
    assert_eq!(
        calculate_total_wrappers(&vec!["2x3x4", "1xax3"]).unwrap_err(),
        CalculateError::ParseStringError(String::from("1xax3"))
    );
    assert_eq!(
        calculate_total_ribbons(&vec!["1xx3"]).unwrap_err(),
        CalculateError::ParseStringError(String::from("1xx3"))
    );
    assert_eq!(
        Rectangular::from_str("1x-2x3").unwrap_err(),
        CalculateError::ParseStringError(String::from("1x-2x3"))
    );
    assert_eq!(
        Rectangular::from_str("+1x2x03").unwrap(),
        Rectangular { length: 1, width: 2, height: 3 }
    );
}

#[test]
fn box_measures() {
    let b = Rectangular { length: 2, width: 3, height: 4 };
    assert_eq!(b.calculate_wrapping_paper(), 58);
    assert_eq!(b.calculate_ribbon(), 34);
    let flat = Rectangular { length: 5, width: 0, height: 7 };
    assert_eq!(flat.calculate_wrapping_paper(), 70);
    assert_eq!(flat.calculate_ribbon(), 10);
}

#[test]
fn split_keeps_empty_pieces() {
    assert_eq!(split("", 'x'), vec![String::new()]);
    assert_eq!(split("1x", 'x'), vec![String::from("1"), String::new()]);
    assert_eq!(split("xaxx", 'x'), vec!["", "a", "", ""]);
}

#[test]
fn measures_that_do_not_fit() {
    let b = Rectangular { length: 2, width: 3, height: 4 };
    assert_eq!(b.checked_wrapping_paper(), Some(58));
    assert_eq!(b.checked_ribbon(), Some(34));
    let wide = Rectangular { length: usize::MAX, width: 1, height: 0 };
    // surface 2 * MAX does not fit; the bow is 0 and the way round is 2
    assert_eq!(wide.checked_wrapping_paper(), None);
    assert_eq!(wide.checked_ribbon(), Some(2));
    let flat = Rectangular { length: usize::MAX, width: 0, height: 2 };
    // the paper is 0; the bow is 0, but length times height does not fit
    assert_eq!(flat.checked_wrapping_paper(), None);
    assert_eq!(flat.checked_ribbon(), None);
    let line = Rectangular { length: usize::MAX / 2, width: 0, height: 1 };
    assert_eq!(line.checked_wrapping_paper(), Some(usize::MAX - 1));
    assert_eq!(line.checked_ribbon(), Some(2));
    let thin = Rectangular { length: usize::MAX - 1, width: 0, height: 1 };
    assert_eq!(thin.checked_wrapping_paper(), None);
    assert_eq!(thin.checked_ribbon(), Some(2));
}

#[test]
fn totals_that_fit_and_totals_that_do_not() {
    assert!(wrappers_fit(&vec!["2x3x4", "1x1x10"]));
    assert!(ribbons_fit(&vec!["2x3x4", "1x1x10"]));
    assert!(wrappers_fit(&Vec::new()));
    assert!(ribbons_fit(&Vec::new()));
    let big = "4294967296x4294967296x1";
    assert!(!wrappers_fit(&vec!["2x3x4", big]));
    assert!(!ribbons_fit(&vec!["2x3x4", big]));
    // a line that says no box ends the adding up, so what comes after it counts for nothing
    assert!(wrappers_fit(&vec!["2x3x4", "oops", big]));
    assert!(ribbons_fit(&vec!["2x3x4", "oops", big]));
    // each box fits, the total does not
    let half = "2147483648x2147483648x0";
    assert!(wrappers_fit(&vec![half]));
    assert!(!wrappers_fit(&vec![half, half]));
    assert!(ribbons_fit(&vec![half, half]));
}

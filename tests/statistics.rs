use variant_forest::statistics::{floor_div, get_cutoff, isqrt, mean, std_deviation, z_score};

#[test]
fn mean_rounds_down() {
    assert_eq!(mean(&vec![1, 2, 3, 4]), 2);
    assert_eq!(mean(&vec![-1, -2]), -2);
    assert_eq!(mean(&vec![]), 0);
}

#[test]
fn std_deviation_of_known_values() {
    assert_eq!(std_deviation(&vec![2, 4, 4, 4, 5, 5, 7, 9]), 2);
    assert_eq!(std_deviation(&vec![7]), 0);
    assert_eq!(std_deviation(&vec![]), 0);
    assert_eq!(std_deviation(&vec![0, 0, 10, 10]), 5);
}

#[test]
fn integer_square_root() {
    assert_eq!(isqrt(0), 0);
    assert_eq!(isqrt(15), 3);
    assert_eq!(isqrt(16), 4);
    assert_eq!(isqrt(u128::MAX), u64::MAX);
}

#[test]
fn floor_division_rounds_toward_negative_infinity() {
    assert_eq!(floor_div(7, 2), 3);
    assert_eq!(floor_div(-7, 2), -4);
    assert_eq!(floor_div(-8, 2), -4);
    assert_eq!(floor_div(0, 5), 0);
}

#[test]
fn z_table_lookup() {
    assert_eq!(z_score(50), Some(1645));
    assert_eq!(z_score(450), Some(126));
    assert_eq!(z_score(7), None);
}

#[test]
fn cutoff_from_one_half_keeps_all_non_negative() {
    assert_eq!(get_cutoff(100, 50, 600), 0);
    assert_eq!(get_cutoff(428, 257, 500), 0);
    assert_eq!(get_cutoff(428, 257, 501), 0);
}

#[test]
fn cutoff_from_table() {
    assert_eq!(get_cutoff(100, 50, 450), 62);
    assert_eq!(get_cutoff(100, 50, 50), 214);
    assert_eq!(get_cutoff(100, -50, 1), 259);
}

#[test]
fn cutoff_untabulated_is_out_of_reach() {
    assert_eq!(get_cutoff(100, 50, 7), 450);
}

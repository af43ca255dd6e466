use variant_forest::utils::{first_max_index, first_min_index, get_max_index, get_min_index, input_file_type, sum_bool_vec};

#[test]
fn counts_true_flags() {
    assert_eq!(sum_bool_vec(&vec![true, false, true]), 2);
    assert_eq!(sum_bool_vec(&vec![]), 0);
}

#[test]
fn smallest_magnitude_first_wins() {
    assert_eq!(get_min_index(&vec![-5, 1]), 1);
    assert_eq!(get_min_index(&vec![3, -1, 1, 2]), 1);
    assert_eq!(get_min_index(&vec![i64::MIN, 4]), 1);
    assert_eq!(get_min_index(&vec![]), 0);
}

#[test]
fn largest_magnitude_first_wins() {
    assert_eq!(get_max_index(&vec![-5, 1]), 0);
    assert_eq!(get_max_index(&vec![3, 5, -5, 1]), 1);
    assert_eq!(get_max_index(&vec![i64::MAX, i64::MIN]), 1);
    assert_eq!(get_max_index(&vec![]), 0);
}

#[test]
fn first_signed_minimum_wins_ties() {
    assert_eq!(first_min_index(&vec![3, 1, 1, 2]), 1);
    assert_eq!(first_min_index(&vec![-5, 1]), 0);
    assert_eq!(first_min_index(&vec![]), 0);
}

#[test]
fn first_signed_maximum_wins_ties() {
    assert_eq!(first_max_index(&vec![3, 5, 5, 1]), 1);
    assert_eq!(first_max_index(&vec![-5, 1]), 1);
    assert_eq!(first_max_index(&vec![]), 0);
}

#[test]
fn file_type_from_suffix() {
    assert_eq!(input_file_type("data.csv"), 1);
    assert_eq!(input_file_type("a.b.tsv"), 2);
    assert_eq!(input_file_type("archive.csv.gz"), 9);
    assert_eq!(input_file_type("notes.txt"), 0);
    assert_eq!(input_file_type("csv"), 1);
    assert_eq!(input_file_type("trailing."), 0);
}

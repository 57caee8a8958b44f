use soco::universe::build_configs;
use soco::values::{
    build_all_exact_values, build_base, build_exact_values, build_values_via_exp,
    build_values_via_log, collect_dimension_range, collect_ranges, insert_value,
};

#[test]
fn insert_keeps_order_and_skips_what_is_there() {
    let mut vs = vec![];
    for v in [5, 1, 9, 5, 0, 9, 3] {
        insert_value(&mut vs, v);
    }
    assert_eq!(vs, vec![0, 1, 3, 5, 9]);
}

#[test]
fn dimension_range_is_sorted_and_unique() {
    let configs = vec![vec![2, 7], vec![0, 7], vec![2, 1], vec![1, 1]];
    assert_eq!(collect_dimension_range(&configs, 0), vec![0, 1, 2]);
    assert_eq!(collect_dimension_range(&configs, 1), vec![1, 7]);
    assert_eq!(collect_ranges(&configs, 2), vec![vec![0, 1, 2], vec![1, 7]]);
    assert_eq!(collect_dimension_range(&vec![], 0), Vec::<i32>::new());
}

#[test]
fn base_holds_zero_and_one_within_the_bound() {
    assert_eq!(build_base(0), vec![0]);
    assert_eq!(build_base(1), vec![0, 1]);
    assert_eq!(build_base(7), vec![0, 1]);
}

#[test]
fn exponential_levels_end_at_the_bound() {
    // floor and ceiling of the powers of 1.5: 1.5, 2.25, 3.375, 5.06, 7.59, 11.39
    let levels = vec![1, 2, 2, 3, 3, 4, 5, 6, 7, 8, 11, 12];
    assert_eq!(build_values_via_exp(10, &levels), vec![0, 1, 2, 3, 4, 5, 6, 7, 8, 10]);
    assert_eq!(build_values_via_exp(8, &levels), vec![0, 1, 2, 3, 4, 5, 6, 7, 8]);
    assert_eq!(build_values_via_exp(6, &levels), vec![0, 1, 2, 3, 4, 5, 6]);
    assert_eq!(build_values_via_exp(0, &levels), vec![0]);
    assert_eq!(build_values_via_exp(1, &levels), vec![0, 1]);
    assert_eq!(build_values_via_exp(3, &vec![]), vec![0, 1, 3]);
}

#[test]
fn exponential_levels_stop_at_the_first_beyond_the_bound() {
    assert_eq!(build_values_via_exp(9, &vec![2, 3, 12, 5, 6]), vec![0, 1, 2, 3, 9]);
    assert_eq!(build_values_via_exp(9, &vec![2, -1, 5]), vec![0, 1, 2, 9]);
}

#[test]
fn logarithmic_levels_are_where_the_bucket_changes() {
    // logarithms to base 2 of 0..=10, rounded down and rounded up
    let logs = vec![
        (0, 0),
        (0, 0),
        (1, 1),
        (1, 2),
        (2, 2),
        (2, 3),
        (2, 3),
        (2, 3),
        (3, 3),
        (3, 4),
        (3, 4),
    ];
    // 2: logs of 1 and 3 differ; 3: of 2 and 4; 4: of 3 and 5; 5: of 4 and 6;
    // 6: of 5 and 7 agree; 7: of 6 and 8 differ; 8: of 7 and 9; 9: of 8 and 10
    assert_eq!(build_values_via_log(9, &logs), vec![0, 1, 2, 3, 4, 5, 7, 8, 9]);
    assert_eq!(build_values_via_log(6, &logs), vec![0, 1, 2, 3, 4, 5, 6]);
    assert_eq!(build_values_via_log(0, &logs), vec![0]);
    assert_eq!(build_values_via_log(1, &logs), vec![0, 1]);
    assert_eq!(build_values_via_log(12, &logs), vec![0, 1, 2, 3, 4, 5, 7, 8, 9, 12]);
    assert_eq!(build_values_via_log(4, &vec![]), vec![0, 1, 4]);
}

#[test]
fn exact_levels_are_all_levels() {
    assert_eq!(build_exact_values(0), vec![0]);
    assert_eq!(build_exact_values(3), vec![0, 1, 2, 3]);
    assert_eq!(build_all_exact_values(&vec![1, 0, 2]), vec![vec![0, 1], vec![0], vec![0, 1, 2]]);
}

#[test]
fn configurations_are_all_combinations() {
    assert_eq!(
        build_configs(&vec![vec![0, 2], vec![0, 1, 5]]),
        vec![vec![0, 0], vec![0, 1], vec![0, 5], vec![2, 0], vec![2, 1], vec![2, 5]]
    );
    assert_eq!(build_configs(&vec![]), vec![Vec::<i32>::new()]);
    assert_eq!(build_configs(&vec![vec![0, 1], vec![]]), Vec::<Vec<i32>>::new());
}

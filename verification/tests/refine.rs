use soco::hom::DiscreteHomProblem;
use soco::refine::{
    alg1, build_cost, build_neighbors, find_schedule, is_end, select_initial_neighbors,
    select_next_neighbors,
};

fn near(targets: &[i32], m: i32, beta: u64) -> DiscreteHomProblem {
    DiscreteHomProblem {
        m,
        t_end: targets.len() as i32,
        beta,
        f: targets
            .iter()
            .map(|&c| (0..=m).map(|x| Some((100 * (x - c) * (x - c) + x) as u64)).collect())
            .collect(),
    }
}

#[test]
fn step_costs_powering_up_and_running() {
    let p = near(&[2, 0], 4, 7);
    assert_eq!(build_cost(&p, 1, 1, 3), 2 * 7 + 103);
    assert_eq!(build_cost(&p, 2, 3, 1), 101);
    assert_eq!(build_cost(&p, 1, 2, 2), 2);
}

#[test]
fn neighbours_are_the_allowed_levels_of_the_next_step() {
    let p = near(&[2, 0], 4, 7);
    let allowed = vec![vec![0, 2], vec![1]];
    assert_eq!(build_neighbors(&p, &allowed, &(0, 0)), vec![((1, 0), 400), ((1, 2), 14 + 2)]);
    assert_eq!(build_neighbors(&p, &allowed, &(1, 2)), vec![((2, 1), 101)]);
    assert_eq!(build_neighbors(&p, &allowed, &(2, 1)), vec![]);
    assert_eq!(build_neighbors(&p, &allowed, &(0, 5)), vec![]);
    assert!(is_end(&p, &(2, 1)));
    assert!(!is_end(&p, &(1, 1)));
}

#[test]
fn grids_stay_within_the_servers() {
    let p = near(&[5, 1], 5, 0);
    assert_eq!(select_initial_neighbors(&p, 8), vec![vec![0, 2, 4], vec![0, 2, 4]]);
    assert_eq!(select_next_neighbors(&p, &vec![4, 0], 1), vec![vec![2, 3, 4, 5], vec![0, 1]]);
    assert_eq!(select_next_neighbors(&p, &vec![5, 1], 2), vec![vec![1, 3, 5], vec![1, 3]]);
}

#[test]
fn shortest_path_over_the_allowed_levels() {
    let p = near(&[1, 3, 2], 4, 1);
    let allowed = vec![vec![0, 1, 2, 3], vec![0, 1, 2, 3], vec![0, 1, 2, 3]];
    assert_eq!(find_schedule(&p, &allowed), vec![1, 3, 2]);
    assert_eq!(find_schedule(&p, &vec![vec![4], vec![0], vec![3, 0]]), vec![4, 0, 3]);
}

#[test]
fn refinement_finds_the_levels_between_the_grid() {
    assert_eq!(alg1(&near(&[3, 13, 9], 16, 0)), vec![3, 13, 9]);
    assert_eq!(alg1(&near(&[1, 3, 2], 4, 1)), vec![1, 3, 2]);
}

#[test]
fn refinement_on_a_number_of_servers_that_is_no_power_of_two() {
    assert_eq!(alg1(&near(&[5, 1], 5, 0)), vec![5, 1]);
    assert_eq!(alg1(&near(&[0], 0, 3)), vec![0]);
}

use soco::hom::DiscreteHomProblem;
use soco::lanes::{
    active_lanes, build_lanes, collect_config, deterministic, find_optimal_lanes,
    next_time_horizon, Memory,
};
use soco::online::memoryless;
use soco::problem::Problem;
use soco::result::Failure;
use soco::verifiers::{config_in_bounds, verify_configs, verify_values};

#[test]
fn objective_adds_hitting_and_raising() {
    let p = Problem {
        d: 2,
        t_end: 3,
        bounds: vec![2, 2],
        switching_cost: vec![10, 100],
        hitting_cost: (1..=3)
            .map(|t| vec![(vec![1, 0], t as u64), (vec![2, 1], 2 * t as u64), (vec![0, 2], 7)])
            .collect(),
    };
    // 10 + 1, then 10 + 100 + 4, then 100 + 7
    assert_eq!(p.objective_function(&vec![vec![1, 0], vec![2, 1], vec![0, 2]]), Some(232));
    assert_eq!(p.objective_function(&vec![]), Some(0));
    assert_eq!(p.objective_function(&vec![vec![1, 0], vec![0, 0]]), None);
    assert_eq!(p.hit_cost(2, &vec![2, 1]), Some(4));
    assert_eq!(p.hit_cost(0, &vec![2, 1]), None);
    assert_eq!(p.hit_cost(4, &vec![2, 1]), None);
    assert_eq!(p.hit_cost(1, &vec![2, 2]), None);
}

fn servers() -> DiscreteHomProblem {
    DiscreteHomProblem {
        m: 3,
        t_end: 4,
        beta: 10,
        f: (1..=4).map(|t| (0..=3).map(|x| Some((t * (3 - x)) as u64)).collect()).collect(),
    }
}

#[test]
fn homogeneous_objective_charges_powering_up() {
    let p = servers();
    // hitting: 1 * 2 + 2 * 0 + 3 * 3 + 4 * 1 = 15; up: 1 + 2 + 0 + 2 = 5
    assert_eq!(p.objective_function(&vec![1, 3, 0, 2]), 15 + 50);
}

#[test]
fn inverted_objective_charges_powering_down() {
    let p = servers();
    // down: 0 + 0 + 3 + 0 = 3
    assert_eq!(p.inverted_objective_function(&vec![1, 3, 0, 2]), 15 + 30);
    // the two differ by the cost of powering up the last number of servers
    assert_eq!(
        p.objective_function(&vec![1, 3, 0, 2]),
        p.inverted_objective_function(&vec![1, 3, 0, 2]) + 10 * 2
    );
    let dear = DiscreteHomProblem { beta: u64::MAX, ..servers() };
    assert_eq!(dear.objective_function(&vec![1, 3, 0, 2]), 15 + 5 * u64::MAX as u128);
}

#[test]
fn costs_outside_the_table_are_undefined() {
    let p = servers();
    assert_eq!(p.cost(1, 3), Some(0));
    assert_eq!(p.cost(4, 0), Some(12));
    assert_eq!(p.cost(0, 0), None);
    assert_eq!(p.cost(5, 0), None);
    assert_eq!(p.cost(1, 4), None);
    assert_eq!(p.cost(1, -1), None);
}

#[test]
fn memoryless_needs_one_dimension_and_no_window() {
    assert_eq!(memoryless(0, 1, 0), Ok(1));
    assert_eq!(memoryless(0, 1, 41), Ok(42));
    assert_eq!(memoryless(2, 1, 0), Err(Failure::UnsupportedPredictionWindow(2)));
    assert_eq!(memoryless(0, 3, 0), Err(Failure::UnsupportedProblemDimension(3)));
    assert_eq!(memoryless(2, 3, 0), Err(Failure::UnsupportedPredictionWindow(2)));
}

#[test]
fn lanes_are_counted_per_entry() {
    assert_eq!(collect_config(3, &vec![0, 2, 2, 1, 2]), vec![1, 1, 3]);
    assert_eq!(collect_config(2, &vec![]), vec![0, 0]);
}

#[test]
fn active_lanes_add_up() {
    assert_eq!(active_lanes(&vec![9, 2, 0, 3], 1, 3), 5);
    assert_eq!(active_lanes(&vec![9, 2, 0, 3], 2, 3), 3);
    assert_eq!(active_lanes(&vec![9, 2, 0, 3], 3, 2), 0);
}

#[test]
fn lanes_go_to_the_largest_dimension_that_reaches_them() {
    // levels 2, 0, 3 of the dimensions 1, 2, 3: from 1 on five, from 2 and from 3 on three
    assert_eq!(build_lanes(&vec![9, 2, 0, 3], 3, 7), vec![3, 3, 3, 3, 1, 1, 0]);
    assert_eq!(build_lanes(&vec![9, 0, 0], 2, 2), vec![2, 0]);
}

#[test]
fn problems_are_checked() {
    let p = Problem {
        d: 2,
        t_end: 1,
        bounds: vec![2, 0],
        switching_cost: vec![10, 100],
        hitting_cost: vec![vec![(vec![0, 0], 5)]],
    };
    assert!(p.verify());
    assert!(!Problem { d: 0, bounds: vec![], switching_cost: vec![], ..copy(&p) }.verify());
    assert!(!Problem { t_end: 0, ..copy(&p) }.verify());
    assert!(!Problem { t_end: i32::MAX, ..copy(&p) }.verify());
    assert!(!Problem { bounds: vec![2], ..copy(&p) }.verify());
    assert!(!Problem { bounds: vec![2, -1], ..copy(&p) }.verify());
    assert!(!Problem { switching_cost: vec![10], ..copy(&p) }.verify());
    assert!(!Problem { switching_cost: vec![1 << 60, 0], ..copy(&p) }.verify());
    assert!(Problem { switching_cost: vec![1 << 59, u64::MAX], ..copy(&p) }.verify());
    assert!(!Problem { hitting_cost: vec![vec![(vec![0, 0], (1 << 60) + 1)]], ..copy(&p) }.verify());
    assert!(Problem { hitting_cost: vec![vec![(vec![0, 0], 1 << 60)]], ..copy(&p) }.verify());
}

fn copy(p: &Problem) -> Problem {
    Problem {
        d: p.d,
        t_end: p.t_end,
        bounds: p.bounds.clone(),
        switching_cost: p.switching_cost.clone(),
        hitting_cost: p.hitting_cost.clone(),
    }
}

#[test]
fn homogeneous_problems_are_checked() {
    assert!(servers().verify());
    assert!(!DiscreteHomProblem { m: -1, ..servers() }.verify());
    assert!(!DiscreteHomProblem { m: 2, ..servers() }.verify());
    assert!(!DiscreteHomProblem { t_end: 3, ..servers() }.verify());
    let mut p = servers();
    p.f[2][1] = None;
    assert!(!p.verify());
    let mut q = servers();
    q.f[0][0] = Some(u64::MAX);
    assert!(q.verify());
}

#[test]
fn candidates_are_checked() {
    assert!(config_in_bounds(&vec![0, 3], &vec![1, 3]));
    assert!(!config_in_bounds(&vec![2, 3], &vec![1, 3]));
    assert!(verify_configs(&vec![vec![0, 3], vec![1, 0]], &vec![1, 3]));
    assert!(!verify_configs(&vec![vec![0, 3], vec![1, 4]], &vec![1, 3]));
    assert!(verify_configs(&vec![], &vec![1, 3]));
    assert!(verify_values(&vec![vec![0, 1], vec![0, 2, 3]], &vec![1, 3]));
    assert!(verify_values(&vec![vec![], vec![3]], &vec![1, 3]));
    assert!(!verify_values(&vec![vec![0, 1], vec![0, 2, 2]], &vec![1, 3]));
    assert!(!verify_values(&vec![vec![0, 1], vec![2, 0]], &vec![1, 3]));
    assert!(!verify_values(&vec![vec![0, 1], vec![0, 4]], &vec![1, 3]));
    assert!(!verify_values(&vec![vec![0, 1], vec![-1, 2]], &vec![1, 3]));
    assert!(!verify_values(&vec![vec![0, 1]], &vec![1, 3]));
}

#[test]
fn time_horizon_is_switching_over_hitting_cost() {
    assert_eq!(next_time_horizon(&vec![2, 5], &vec![7, 5], 0), 0);
    assert_eq!(next_time_horizon(&vec![2, 5], &vec![7, 5], 1), 3);
    assert_eq!(next_time_horizon(&vec![2, 5], &vec![7, 4], 2), 0);
}

#[test]
fn lanes_move_up_at_once_and_down_at_their_horizon() {
    let hitting_cost = vec![2, 5];
    let switching_cost = vec![7, 20];
    // no memory: every lane takes its optimal dimension
    let (config, memory) =
        deterministic(0, 3, 1, &vec![2, 1, 0], &vec![], &hitting_cost, &switching_cost).unwrap();
    assert_eq!(memory.lanes, vec![2, 1, 0]);
    assert_eq!(memory.horizons, vec![1 + 4, 1 + 3, 1]);
    assert_eq!(config, vec![1, 1, 1]);
    // the first lane stays for its horizon, the second moves up, the third stays
    let ms = vec![memory];
    let (config, memory) =
        deterministic(0, 3, 2, &vec![1, 2, 0], &ms, &hitting_cost, &switching_cost).unwrap();
    assert_eq!(memory.lanes, vec![2, 2, 0]);
    assert_eq!(memory.horizons, vec![2 + 4, 2 + 4, 2]);
    assert_eq!(config, vec![1, 0, 2]);
    // at its horizon the first lane moves down
    let ms = vec![Memory { lanes: vec![2, 2, 0], horizons: vec![6, 9, 2] }];
    let (config, memory) =
        deterministic(0, 3, 6, &vec![1, 1, 1], &ms, &hitting_cost, &switching_cost).unwrap();
    assert_eq!(memory.lanes, vec![1, 2, 1]);
    assert_eq!(memory.horizons, vec![6 + 3, 6 + 4, 6 + 3]);
    assert_eq!(config, vec![0, 2, 1]);
}

#[test]
fn deterministic_needs_no_window() {
    assert_eq!(
        deterministic(3, 1, 1, &vec![], &vec![], &vec![], &vec![]).err(),
        Some(Failure::UnsupportedPredictionWindow(3))
    );
}

#[test]
fn optimal_lanes_are_those_of_the_last_configuration() {
    // the first dimension stands for no dimension of lanes
    let configs: Vec<Vec<i32>> =
        vec![vec![0, 0, 0], vec![0, 0, 1], vec![0, 1, 0], vec![0, 1, 1], vec![0, 2, 0], vec![0, 2, 1]];
    let cost = |x: &Vec<i32>| if x[1] == 2 && x[2] == 1 { 1 } else { 50 };
    let p = Problem {
        d: 3,
        t_end: 2,
        bounds: vec![0, 2, 1],
        switching_cost: vec![0, 3, 4],
        hitting_cost: (1..=2).map(|_| configs.iter().map(|x| (x.clone(), cost(x))).collect()).collect(),
    };
    // levels 2 and 1: from dimension 1 on three, from dimension 2 on one
    assert_eq!(find_optimal_lanes(&p, 5), Ok(vec![2, 2, 1, 1, 0]));
    let q = Problem { hitting_cost: vec![], ..copy(&p) };
    assert_eq!(find_optimal_lanes(&q, 5), Err(Failure::CostFunctionNotTotal));
}

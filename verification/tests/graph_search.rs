use soco::config::Config;
use soco::graph_search::{approx_graph_search, graph_search, optimal_graph_search};
use soco::problem::Problem;
use soco::result::Failure;
use soco::universe::build_configs;
use soco::values::build_values_via_exp;
use soco::verifiers::verify_schedule;

fn table(t_end: i32, configs: &Vec<Config>, f: &dyn Fn(i32, &Config) -> u64) -> Vec<Vec<(Config, u64)>> {
    (1..=t_end)
        .map(|t| configs.iter().map(|x| (x.clone(), f(t, x))).collect())
        .collect()
}

fn line(bound: i32) -> Vec<Config> {
    (0..=bound).map(|x| vec![x]).collect()
}

fn penalize_zero(_t: i32, x: &Config) -> u64 {
    if x[0] == 0 {
        1_000_000
    } else {
        3
    }
}

fn pseudo_random(t: i32, x: &Config) -> u64 {
    let mut s: u64 = 0x9e37_79b9_7f4a_7c15 ^ (t as u64).wrapping_mul(0x0100_0000_01b3);
    for v in x {
        s = (s ^ (*v as u64 + 1)).wrapping_mul(0x5851_f42d_4c95_7f2d).rotate_left(17);
    }
    s % 1000
}

/// The least objective over all schedules of the candidate configurations,
/// by dynamic programming over the last configuration.
fn least_cost(p: &Problem, configs: &Vec<Config>) -> u128 {
    let raise = |from: &Config, to: &Config| -> u128 {
        (0..p.d)
            .map(|k| p.switching_cost[k] as u128 * (to[k] - from[k]).max(0) as u128)
            .sum()
    };
    let zero: Config = vec![0; p.d];
    let mut best: Vec<u128> = configs
        .iter()
        .map(|x| raise(&zero, x) + p.hit_cost(1, x).unwrap() as u128)
        .collect();
    for t in 2..=p.t_end {
        best = configs
            .iter()
            .map(|x| {
                configs
                    .iter()
                    .zip(best.iter())
                    .map(|(y, c)| c + raise(y, x))
                    .min()
                    .unwrap()
                    + p.hit_cost(t, x).unwrap() as u128
            })
            .collect();
    }
    best.into_iter().min().unwrap()
}

#[test]
fn penalized_zero_is_left_at_once() {
    let configs = line(2);
    let p = Problem {
        d: 1,
        t_end: 2,
        bounds: vec![2],
        switching_cost: vec![1],
        hitting_cost: table(2, &configs, &penalize_zero),
    };
    let path = graph_search(&p, &configs).unwrap();
    assert_eq!(path.schedule, vec![vec![1], vec![1]]);
    assert_eq!(path.cost, 1 + 3 + 3);
    assert_eq!(p.objective_function(&path.schedule), Some(path.cost));
}

#[test]
fn cost_is_the_objective_of_the_schedule() {
    let configs = line(8);
    let p = Problem {
        d: 1,
        t_end: 100,
        bounds: vec![8],
        switching_cost: vec![40],
        hitting_cost: table(100, &configs, &pseudo_random),
    };
    let path = graph_search(&p, &configs).unwrap();
    assert!(verify_schedule(&path.schedule, 100, &p.bounds));
    assert_eq!(p.objective_function(&path.schedule), Some(path.cost));
}

#[test]
fn one_dimension_agrees_with_dynamic_programming() {
    let configs = line(5);
    let p = Problem {
        d: 1,
        t_end: 12,
        bounds: vec![5],
        switching_cost: vec![150],
        hitting_cost: table(12, &configs, &pseudo_random),
    };
    let path = graph_search(&p, &configs).unwrap();
    assert_eq!(path.cost, least_cost(&p, &configs));
}

#[test]
fn two_dimensions_agree_with_dynamic_programming() {
    let configs = build_configs(&vec![vec![0, 1, 2], vec![0, 1, 3]]);
    assert_eq!(configs.len(), 9);
    let p = Problem {
        d: 2,
        t_end: 6,
        bounds: vec![2, 3],
        switching_cost: vec![120, 70],
        hitting_cost: table(6, &configs, &pseudo_random),
    };
    let path = graph_search(&p, &configs).unwrap();
    assert!(verify_schedule(&path.schedule, 6, &p.bounds));
    assert_eq!(path.cost, least_cost(&p, &configs));
    assert_eq!(p.objective_function(&path.schedule), Some(path.cost));
}

#[test]
fn searching_twice_gives_the_same() {
    let configs = line(4);
    let p = Problem {
        d: 1,
        t_end: 20,
        bounds: vec![4],
        switching_cost: vec![90],
        hitting_cost: table(20, &configs, &pseudo_random),
    };
    let first = graph_search(&p, &configs).unwrap();
    let second = graph_search(&p, &configs).unwrap();
    assert_eq!(first.schedule, second.schedule);
    assert_eq!(first.cost, second.cost);
}

#[test]
fn zero_bound_stays_at_zero() {
    let configs = build_configs(&vec![vec![0], vec![0, 1, 2]]);
    let p = Problem {
        d: 2,
        t_end: 5,
        bounds: vec![0, 2],
        switching_cost: vec![10, 10],
        hitting_cost: table(5, &configs, &pseudo_random),
    };
    let path = optimal_graph_search(&p).unwrap();
    assert_eq!(path.schedule.len(), 5);
    for x in &path.schedule {
        assert_eq!(x[0], 0);
        assert!(0 <= x[1] && x[1] <= 2);
    }
    assert_eq!(path.cost, least_cost(&p, &configs));
}

#[test]
fn single_step_horizon() {
    let configs = line(2);
    let p = Problem {
        d: 1,
        t_end: 1,
        bounds: vec![2],
        switching_cost: vec![1],
        hitting_cost: table(1, &configs, &penalize_zero),
    };
    let path = graph_search(&p, &configs).unwrap();
    assert_eq!(path.schedule, vec![vec![1]]);
    assert_eq!(path.cost, 4);
}

#[test]
fn finer_levels_cost_no_more() {
    let all = line(16);
    let p = Problem {
        d: 1,
        t_end: 10,
        bounds: vec![16],
        switching_cost: vec![25],
        hitting_cost: table(10, &all, &pseudo_random),
    };
    let coarse = vec![build_values_via_exp(16, &vec![2, 2, 4, 4, 8, 8, 16, 16, 32, 32])];
    let fine = vec![build_values_via_exp(16, &vec![1, 2, 2, 3, 3, 4, 5, 6, 8, 9, 12, 13, 17])];
    assert_eq!(coarse[0], vec![0, 1, 2, 4, 8, 16]);
    assert_eq!(fine[0], vec![0, 1, 2, 3, 4, 5, 6, 8, 9, 12, 13, 16]);
    let rough = approx_graph_search(&p, &coarse).unwrap();
    let close = approx_graph_search(&p, &fine).unwrap();
    let exact = optimal_graph_search(&p).unwrap();
    assert!(exact.cost <= close.cost);
    assert!(close.cost <= rough.cost);
    assert_eq!(exact.cost, least_cost(&p, &all));
    assert_eq!(rough.cost, least_cost(&p, &build_configs(&coarse)));
}

#[test]
fn undefined_hitting_cost_fails() {
    let configs = line(2);
    let mut hitting_cost = table(3, &configs, &penalize_zero);
    hitting_cost[1].remove(2);
    let p = Problem { d: 1, t_end: 3, bounds: vec![2], switching_cost: vec![1], hitting_cost };
    assert_eq!(graph_search(&p, &configs).err(), Some(Failure::CostFunctionNotTotal));
}

#[test]
fn short_table_fails() {
    let configs = line(2);
    let p = Problem {
        d: 1,
        t_end: 3,
        bounds: vec![2],
        switching_cost: vec![1],
        hitting_cost: table(2, &configs, &penalize_zero),
    };
    assert_eq!(graph_search(&p, &configs).err(), Some(Failure::CostFunctionNotTotal));
}

#[test]
fn no_candidates_leave_the_terminal_uncached() {
    let p = Problem {
        d: 1,
        t_end: 2,
        bounds: vec![2],
        switching_cost: vec![1],
        hitting_cost: table(2, &line(2), &penalize_zero),
    };
    assert_eq!(graph_search(&p, &vec![]).err(), Some(Failure::PathsShouldBeCached));
}

#[test]
fn candidates_without_the_start_leave_the_terminal_uncached() {
    let configs: Vec<Config> = vec![vec![1], vec![2]];
    let p = Problem {
        d: 1,
        t_end: 2,
        bounds: vec![2],
        switching_cost: vec![1],
        hitting_cost: table(2, &line(2), &penalize_zero),
    };
    assert_eq!(graph_search(&p, &configs).err(), Some(Failure::PathsShouldBeCached));
}

#[test]
fn failures_have_their_codes() {
    assert_eq!(Failure::CostFunctionNotTotal.code(), 1);
    assert_eq!(Failure::SubpathShouldBePresent.code(), 2);
    assert_eq!(Failure::PathsShouldBeCached.code(), 3);
    assert_eq!(Failure::UnsupportedPredictionWindow(2).code(), 4);
    assert_eq!(Failure::UnsupportedProblemDimension(3).code(), 5);
}

#[test]
fn mirrored_hitting_costs_cost_the_same() {
    let configs = build_configs(&vec![vec![0, 1, 2], vec![0, 2]]);
    let hitting_cost = table(7, &configs, &pseudo_random);
    let mut mirrored = hitting_cost.clone();
    mirrored.reverse();
    let p = Problem { d: 2, t_end: 7, bounds: vec![2, 2], switching_cost: vec![60, 35], hitting_cost };
    let q = Problem {
        d: 2,
        t_end: 7,
        bounds: vec![2, 2],
        switching_cost: vec![60, 35],
        hitting_cost: mirrored,
    };
    let path = graph_search(&p, &configs).unwrap();
    let back = graph_search(&q, &configs).unwrap();
    assert_eq!(path.cost, back.cost);
    let mut reversed = path.schedule.clone();
    reversed.reverse();
    assert_eq!(q.objective_function(&reversed), Some(path.cost));
}

#[test]
fn approximate_search_needs_all_combinations() {
    let configs = build_configs(&vec![vec![0, 2], vec![0, 1]]);
    let mut hitting_cost = table(2, &configs, &pseudo_random);
    let p = Problem {
        d: 2,
        t_end: 2,
        bounds: vec![2, 1],
        switching_cost: vec![1, 1],
        hitting_cost: hitting_cost.clone(),
    };
    let path = approx_graph_search(&p, &vec![vec![0, 2], vec![0, 1]]).unwrap();
    assert_eq!(p.objective_function(&path.schedule), Some(path.cost));
    assert_eq!(path.cost, least_cost(&p, &configs));
    assert_eq!(optimal_graph_search(&p).err(), Some(Failure::CostFunctionNotTotal));
    hitting_cost[1].pop();
    let q = Problem { d: 2, t_end: 2, bounds: vec![2, 1], switching_cost: vec![1, 1], hitting_cost };
    assert_eq!(
        approx_graph_search(&q, &vec![vec![0, 2], vec![0, 1]]).err(),
        Some(Failure::CostFunctionNotTotal)
    );
}

#[test]
fn levels_without_zero_leave_the_terminal_uncached() {
    let p = Problem {
        d: 1,
        t_end: 3,
        bounds: vec![2],
        switching_cost: vec![1],
        hitting_cost: table(3, &line(2), &penalize_zero),
    };
    assert_eq!(
        approx_graph_search(&p, &vec![vec![1, 2]]).err(),
        Some(Failure::PathsShouldBeCached)
    );
    assert_eq!(approx_graph_search(&p, &vec![vec![]]).err(), Some(Failure::PathsShouldBeCached));
    assert!(approx_graph_search(&p, &vec![vec![0, 2]]).is_ok());
}

#[test]
fn without_a_hitting_cost_on_a_join_a_subpath_is_missing() {
    let configs: Vec<Config> = vec![vec![0, 0, 0], vec![0, 1, 0], vec![0, 0, 1]];
    let p = Problem {
        d: 3,
        t_end: 3,
        bounds: vec![0, 1, 1],
        switching_cost: vec![1, 1, 1],
        hitting_cost: table(3, &configs, &pseudo_random),
    };
    assert_eq!(graph_search(&p, &configs).err(), Some(Failure::SubpathShouldBePresent));
    let short = Problem { t_end: 2, ..p };
    assert!(graph_search(&short, &configs).is_ok());
}

#[test]
fn one_dimension_is_exact_on_any_levels() {
    let configs: Vec<Config> = vec![vec![3], vec![0], vec![7], vec![4]];
    let p = Problem {
        d: 1,
        t_end: 9,
        bounds: vec![8],
        switching_cost: vec![45],
        hitting_cost: table(9, &configs, &pseudo_random),
    };
    let path = graph_search(&p, &configs).unwrap();
    assert_eq!(path.cost, least_cost(&p, &configs));
    assert_eq!(p.objective_function(&path.schedule), Some(path.cost));
    let mut mirrored = p.hitting_cost.clone();
    mirrored.reverse();
    let q = Problem { hitting_cost: mirrored, ..p };
    assert_eq!(graph_search(&q, &configs).unwrap().cost, path.cost);
}

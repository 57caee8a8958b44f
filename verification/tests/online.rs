use soco::config::Config;
use soco::graph_search::graph_search;
use soco::hom::DiscreteHomProblem;
use soco::online::{project, Online};
use soco::problem::Problem;
use soco::verifiers::verify_schedule;

fn int_parabola(t: i32, x: i32) -> u64 {
    let d = (x - t) as i64;
    (d * d) as u64 + 1
}

fn parabola_problem(t_end: i32) -> Problem {
    Problem {
        d: 1,
        t_end,
        bounds: vec![2],
        switching_cost: vec![1],
        hitting_cost: (1..=t_end)
            .map(|t| (0..=2).map(|x| (vec![x], int_parabola(t, x))).collect())
            .collect(),
    }
}

fn parabola_online(t_end: i32) -> Online {
    let f = (1..=t_end)
        .map(|t| (0..=2).map(|x| Some(int_parabola(t, x))).collect())
        .collect();
    Online { p: DiscreteHomProblem { m: 2, t_end, beta: 1, f }, w: 0 }
}

fn stream(o: &Online, t_end: i32) -> Vec<Config> {
    let mut xs: Vec<i32> = vec![];
    let mut ms: Vec<(i32, i32)> = vec![];
    for _ in 1..=t_end {
        let (x, m) = o.lcp(&xs, &ms);
        xs.push(x);
        ms.push(m);
    }
    xs.into_iter().map(|x| vec![x]).collect()
}

#[test]
fn randomized__1() {
    let p = parabola_problem(1);
    let o = parabola_online(1);

    let result = stream(&o, o.p.t_end);
    assert!(verify_schedule(&result, o.p.t_end, &p.bounds));

    let configs: Vec<Config> = vec![vec![0], vec![1], vec![2]];
    let path = graph_search(&p, &configs).unwrap();
    assert!(verify_schedule(&path.schedule, p.t_end, &p.bounds));
}

#[test]
fn randomized__2() {
    let o = parabola_online(1);

    let t_end = 2;
    let result = stream(&o, t_end);
    assert!(verify_schedule(&result, t_end, &vec![2]));

    let p = parabola_problem(t_end);
    let configs: Vec<Config> = vec![vec![0], vec![1], vec![2]];
    let path = graph_search(&p, &configs).unwrap();
    assert!(verify_schedule(&path.schedule, t_end, &p.bounds));
}

#[test]
fn lazy_provisioning_stays_within_its_bounds() {
    let o = parabola_online(3);
    assert_eq!(o.lcp(&vec![], &vec![]), (1, (1, 1)));
    assert_eq!(o.lcp(&vec![2], &vec![(1, 1)]), (1, (1, 1)));
    assert_eq!(o.lower_bound(), 1);
    assert_eq!(o.upper_bound(), 1);
}

#[test]
fn project_clamps() {
    assert_eq!(project(5, 1, 3), 3);
    assert_eq!(project(0, 1, 3), 1);
    assert_eq!(project(2, 1, 3), 2);
}

#[test]
fn schedules_are_checked_against_horizon_and_bounds() {
    assert!(verify_schedule(&vec![vec![0, 1], vec![2, 0]], 2, &vec![2, 1]));
    assert!(!verify_schedule(&vec![vec![0, 1]], 2, &vec![2, 1]));
    assert!(!verify_schedule(&vec![vec![0, 2], vec![2, 0]], 2, &vec![2, 1]));
    assert!(!verify_schedule(&vec![vec![-1, 0], vec![2, 0]], 2, &vec![2, 1]));
    assert!(!verify_schedule(&vec![vec![0], vec![2, 0]], 2, &vec![2, 1]));
}

use soco::config::Config;
use soco::problem::Problem;
use soco::result::Failure;
use soco::vertice::{find_position, raise, Estimate, Phase, Vertice};

fn problem() -> Problem {
    let configs: Vec<Config> =
        vec![vec![0, 0], vec![0, 2], vec![0, 5], vec![1, 0], vec![1, 2], vec![1, 5], vec![3, 0], vec![3, 2], vec![3, 5]];
    Problem {
        d: 2,
        t_end: 3,
        bounds: vec![3, 5],
        switching_cost: vec![10, 7],
        hitting_cost: (1..=3)
            .map(|t| {
                configs
                    .iter()
                    .filter(|x| !(t == 2 && x[0] == 3))
                    .map(|x| (x.clone(), (100 * t + 10 * x[0] + x[1]) as u64))
                    .collect()
            })
            .collect(),
    }
}

fn values() -> Vec<Vec<i32>> {
    vec![vec![0, 1, 3], vec![0, 2, 5]]
}

fn plain(es: Vec<(Vertice, u64)>) -> Vec<(i32, Config, Phase, u64)> {
    es.into_iter().map(|(v, c)| (v.t(), v.config().clone(), v.phase(), c)).collect()
}

#[test]
fn powering_up_pays_hitting_or_switching_cost() {
    let v = Vertice::new(1, vec![1, 2], Phase::PoweringUp);
    let es = plain(v.successors(&problem(), &values()).unwrap());
    assert_eq!(
        es,
        vec![
            (1, vec![1, 2], Phase::PoweringDown, 112),
            (1, vec![3, 2], Phase::PoweringUp, 20),
            (1, vec![1, 5], Phase::PoweringUp, 21),
        ]
    );
}

#[test]
fn largest_level_is_not_raised() {
    let v = Vertice::new(1, vec![3, 2], Phase::PoweringUp);
    let es = plain(v.successors(&problem(), &values()).unwrap());
    assert_eq!(
        es,
        vec![(1, vec![3, 2], Phase::PoweringDown, 132), (1, vec![3, 5], Phase::PoweringUp, 21)]
    );
}

#[test]
fn powering_down_is_free() {
    let v = Vertice::new(1, vec![1, 5], Phase::PoweringDown);
    let es = plain(v.successors(&problem(), &values()).unwrap());
    assert_eq!(
        es,
        vec![
            (1, vec![0, 5], Phase::PoweringDown, 0),
            (1, vec![1, 2], Phase::PoweringDown, 0),
            (2, vec![1, 5], Phase::PoweringUp, 0),
        ]
    );
}

#[test]
fn last_layer_has_no_next() {
    let v = Vertice::new(3, vec![0, 2], Phase::PoweringDown);
    let es = plain(v.successors(&problem(), &values()).unwrap());
    assert_eq!(es, vec![(3, vec![0, 0], Phase::PoweringDown, 0)]);
}

#[test]
fn undefined_hitting_cost_is_an_error() {
    let v = Vertice::new(2, vec![3, 0], Phase::PoweringUp);
    assert_eq!(v.successors(&problem(), &values()).err(), Some(Failure::CostFunctionNotTotal));
    let es = plain(v.edges_of(&problem(), &values()));
    assert_eq!(es, vec![(2, vec![3, 2], Phase::PoweringUp, 14)]);
}

#[test]
fn search_leaves_blocked_vertices_out() {
    let to = Vertice::new(2, vec![1, 2], Phase::PoweringUp);
    let v = Vertice::new(1, vec![1, 2], Phase::PoweringDown);
    let es = plain(v.search_successors(&problem(), &values(), &to));
    assert_eq!(es, vec![(2, vec![1, 2], Phase::PoweringUp, 0)]);
    let w = Vertice::new(1, vec![1, 5], Phase::PoweringDown);
    let es = plain(w.search_successors(&problem(), &values(), &to));
    assert_eq!(es, vec![(1, vec![1, 2], Phase::PoweringDown, 0)]);
}

#[test]
fn heuristic_sums_the_raises() {
    let p = problem();
    let to = Vertice::new(2, vec![3, 2], Phase::PoweringUp);
    let v = Vertice::new(1, vec![1, 5], Phase::PoweringUp);
    assert_eq!(v.heuristic(&to, &p), Estimate::Finite(20));
    let w = Vertice::new(1, vec![0, 0], Phase::PoweringUp);
    assert_eq!(w.heuristic(&to, &p), Estimate::Finite(30 + 14));
    assert_eq!(to.heuristic(&to, &p), Estimate::Finite(0));
}

#[test]
fn heuristic_is_infinite_beside_the_goal() {
    let p = problem();
    let to = Vertice::new(2, vec![3, 2], Phase::PoweringUp);
    let v = Vertice::new(2, vec![3, 5], Phase::PoweringUp);
    assert_eq!(v.heuristic(&to, &p), Estimate::Infinite);
    let w = Vertice::new(2, vec![3, 2], Phase::PoweringDown);
    assert_eq!(w.heuristic(&to, &p), Estimate::Infinite);
}

#[test]
fn heuristic_is_infinite_below_the_goal_when_powering_down() {
    let p = problem();
    let to = Vertice::new(2, vec![3, 2], Phase::PoweringUp);
    let v = Vertice::new(1, vec![1, 5], Phase::PoweringDown);
    assert_eq!(v.heuristic(&to, &p), Estimate::Infinite);
    let w = Vertice::new(1, vec![3, 5], Phase::PoweringDown);
    assert_eq!(w.heuristic(&to, &p), Estimate::Finite(0));
}

#[test]
fn vertices_compare_by_all_fields() {
    let v = Vertice::new(1, vec![1, 5], Phase::PoweringDown);
    assert!(v.same(&v.duplicate()));
    assert!(!v.same(&Vertice::new(2, vec![1, 5], Phase::PoweringDown)));
    assert!(!v.same(&Vertice::new(1, vec![1, 2], Phase::PoweringDown)));
    assert!(!v.same(&Vertice::new(1, vec![1, 5], Phase::PoweringUp)));
    assert!(v == v.duplicate());
}

#[test]
fn raise_charges_increases_only() {
    let p = problem();
    assert_eq!(raise(&p, &vec![3, 0], &vec![1, 5]), 35);
    assert_eq!(raise(&p, &vec![1, 5], &vec![3, 0]), 20);
    assert_eq!(raise(&p, &vec![1, 5], &vec![1, 5]), 0);
}

#[test]
fn positions_are_first_positions() {
    assert_eq!(find_position(&vec![4, 7, 7, 9], 7), Some(1));
    assert_eq!(find_position(&vec![4, 7, 7, 9], 5), None);
    assert_eq!(find_position(&vec![], 5), None);
}

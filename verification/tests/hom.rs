use soco::hom::{next_pow2, DiscreteHomProblem};

/// One, in cost units of a millionth.
const ONE: u64 = 1_000_000;

fn constant(t_end: i32, m: i32) -> Vec<Vec<Option<u64>>> {
    (1..=t_end).map(|_| (0..=m).map(|_| Some(ONE)).collect()).collect()
}

#[test]
fn optimal_graph_search__1() {
    let p = DiscreteHomProblem { m: 103, t_end: 1_000, beta: ONE, f: constant(1_000, 103) };
    assert!(p.verify());
    let transformed_p = p.transform();
    assert!(transformed_p.verify());

    assert_eq!(transformed_p.t_end, p.t_end);
    assert_eq!(transformed_p.m, 128);
    assert_eq!(transformed_p.beta, p.beta);

    for t in 1..=transformed_p.t_end {
        for j in 0..=transformed_p.m {
            assert_eq!(
                transformed_p.cost(t, j),
                Some(if j <= p.m { ONE } else { j as u64 * (ONE + 1) })
            );
        }
    }
}

#[test]
fn powers_of_two_stay() {
    assert_eq!(next_pow2(0), 1);
    assert_eq!(next_pow2(1), 1);
    assert_eq!(next_pow2(2), 2);
    assert_eq!(next_pow2(3), 4);
    assert_eq!(next_pow2(128), 128);
    assert_eq!(next_pow2(129), 256);
    assert_eq!(next_pow2(0x4000_0000), 0x4000_0000);
}

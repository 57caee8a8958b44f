//! The universe of candidate configurations: every combination of the
//! candidate levels of the dimensions.

use vstd::prelude::*;
use vstd::arithmetic::div_mod::lemma_fundamental_div_mod_converse;
use crate::config::{copy_config, rows, Config};
use crate::vertice::{in_bounds, in_universe, lemma_universe_in_bounds, values_wf};

verus! {

/// Each of the prefixes extended by each of the levels: the extensions of
/// the first prefix first, in the order of the levels.
pub open spec fn extend_all(prefixes: Seq<Seq<i32>>, vs: Seq<i32>) -> Seq<Seq<i32>> {
    Seq::new(
        (prefixes.len() * vs.len()) as nat,
        |i: int| prefixes[i / (vs.len() as int)].push(vs[i % (vs.len() as int)]),
    )
}

/// Every combination of the candidate levels of the first `n` dimensions.
pub open spec fn product(values: Seq<Seq<i32>>, n: int) -> Seq<Seq<i32>>
    decreases n,
{
    if n <= 0 {
        seq![Seq::<i32>::empty()]
    } else {
        extend_all(product(values, n - 1), values[n - 1])
    }
}

/// Each combination takes one candidate level of each dimension.
pub proof fn lemma_product_in_universe(values: Seq<Seq<i32>>, n: int, i: int)
    requires
        0 <= n <= values.len(),
        0 <= i < product(values, n).len(),
    ensures
        in_universe(product(values, n)[i], values.take(n)),
    decreases n,
{
    if n > 0 {
        let prefixes = product(values, n - 1);
        let vs = values[n - 1];
        let l = vs.len() as int;
        assert(l > 0) by (nonlinear_arith)
            requires
                0 <= i < prefixes.len() * l,
                prefixes.len() >= 0,
                l >= 0,
        ;
        let a = i / l;
        let b = i % l;
        assert(0 <= a < prefixes.len() && 0 <= b < l) by (nonlinear_arith)
            requires
                0 <= i < prefixes.len() * l,
                l > 0,
                a == i / l,
                b == i % l,
        ;
        lemma_product_in_universe(values, n - 1, a);
        let c = product(values, n)[i];
        assert(c == prefixes[a].push(vs[b]));
        assert forall|k: int| 0 <= k < c.len() implies (#[trigger] values.take(n)[k]).contains(
            c[k],
        ) by {
            if k < n - 1 {
                assert(values.take(n - 1)[k] == values.take(n)[k]);
                assert(c[k] == prefixes[a][k]);
            } else {
                assert(vs[b] == c[k]);
            }
        }
    } else {
        assert(product(values, n)[i].len() == 0);
    }
}

/// Each configuration that takes one candidate level of each dimension is
/// one of the combinations.
pub proof fn lemma_product_complete(values: Seq<Seq<i32>>, n: int, c: Seq<i32>)
    requires
        0 <= n <= values.len(),
        in_universe(c, values.take(n)),
    ensures
        exists|i: int| 0 <= i < product(values, n).len() && #[trigger] product(values, n)[i] == c,
    decreases n,
{
    if n > 0 {
        let prefixes = product(values, n - 1);
        let vs = values[n - 1];
        let l = vs.len() as int;
        let front = c.drop_last();
        assert forall|k: int| 0 <= k < front.len() implies (#[trigger] values.take(n - 1)[k]).contains(
            front[k],
        ) by {
            assert(values.take(n)[k].contains(c[k]));
        }
        lemma_product_complete(values, n - 1, front);
        let a = choose|a: int| 0 <= a < prefixes.len() && #[trigger] prefixes[a] == front;
        assert(values.take(n)[n - 1].contains(c[n - 1]));
        let b = choose|b: int| 0 <= b < vs.len() && vs[b] == c[n - 1];
        let i = a * l + b;
        lemma_fundamental_div_mod_converse(i, l, a, b);
        assert(0 <= i < prefixes.len() * l) by (nonlinear_arith)
            requires
                0 <= a < prefixes.len(),
                0 <= b < l,
                i == a * l + b,
        ;
        assert(product(values, n)[i] =~= c);
    } else {
        assert(product(values, n)[0] =~= c);
    }
}

/// Builds every combination of the candidate levels of the dimensions.
pub fn build_configs(values: &Vec<Vec<i32>>) -> (configs: Vec<Config>)
    ensures
        rows(configs@) == product(rows(values@), values.len() as int),
        forall|i: int|
            0 <= i < configs.len() ==> in_universe(#[trigger] rows(configs@)[i], rows(values@)),
{
    let mut configs: Vec<Config> = Vec::new();
    configs.push(Vec::new());
    assert(rows(configs@) =~= product(rows(values@), 0));
    let mut n: usize = 0;
    while n < values.len()
        invariant
            n <= values.len(),
            rows(configs@) == product(rows(values@), n as int),
        decreases values.len() - n,
    {
        let vs = &values[n];
        assert(rows(values@)[n as int] == vs@);
        let ghost prefixes = rows(configs@);
        let ghost l = vs.len() as int;
        let mut next: Vec<Config> = Vec::new();
        let mut a: usize = 0;
        while a < configs.len()
            invariant
                a <= configs.len(),
                prefixes == rows(configs@),
                l == vs.len(),
                next.len() == a * l,
                forall|i: int|
                    0 <= i < next.len() ==> (#[trigger] next@[i])@ == prefixes[i / l].push(
                        vs@[i % l],
                    ),
            decreases configs.len() - a,
        {
            let mut b: usize = 0;
            while b < vs.len()
                invariant
                    b <= vs.len(),
                    a < configs.len(),
                    prefixes == rows(configs@),
                    l == vs.len(),
                    next.len() == a * l + b,
                    forall|i: int|
                        0 <= i < next.len() ==> (#[trigger] next@[i])@ == prefixes[i / l].push(
                            vs@[i % l],
                        ),
                decreases vs.len() - b,
            {
                let mut c = copy_config(&configs[a]);
                c.push(vs[b]);
                proof {
                    lemma_fundamental_div_mod_converse(a * l + b, l, a as int, b as int);
                }
                next.push(c);
                b = b + 1;
            }
            assert((a + 1) * l == a * l + l) by (nonlinear_arith);
            a = a + 1;
        }
        configs = next;
        n = n + 1;
        assert(rows(configs@) =~= product(rows(values@), n as int));
    }
    proof {
        assert(rows(values@).take(values.len() as int) =~= rows(values@));
        assert forall|i: int| 0 <= i < configs.len() implies in_universe(
            #[trigger] rows(configs@)[i],
            rows(values@),
        ) by {
            lemma_product_in_universe(rows(values@), values.len() as int, i);
        }
    }
    configs
}

/// Every combination of candidate levels within the bounds lies within the
/// bounds.
pub proof fn lemma_product_in_bounds(values: Seq<Seq<i32>>, bounds: Seq<i32>, i: int)
    requires
        values_wf(values, bounds),
        0 <= i < product(values, values.len() as int).len(),
    ensures
        in_bounds(product(values, values.len() as int)[i], bounds),
{
    lemma_product_in_universe(values, values.len() as int, i);
    assert(values.take(values.len() as int) =~= values);
    lemma_universe_in_bounds(product(values, values.len() as int)[i], values, bounds);
}

} // verus!

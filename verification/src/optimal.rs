//! Why no schedule over the candidate configurations costs less than the
//! cached paths.

use vstd::prelude::*;
use crate::cache::{cache_get, cheaper, CacheView};
use crate::objective::{before, objective};
use crate::problem::ProblemView;
use crate::subpath::passes;
use crate::vertice::{in_universe, pos, raise_cost, Phase, VerticeView};
use crate::walk::below;

verus! {

/// The configuration is one of the configurations.
pub open spec fn listed(configs: Seq<Seq<i32>>, x: Seq<i32>) -> bool {
    exists|i: int| 0 <= i < configs.len() && #[trigger] configs[i] == x
}

/// Each configuration of the schedule is one of the configurations.
pub open spec fn schedule_in(xs: Seq<Seq<i32>>, configs: Seq<Seq<i32>>) -> bool {
    forall|t: int| 0 <= t < xs.len() ==> listed(configs, #[trigger] xs[t])
}

/// The smaller of the two levels in each dimension.
pub open spec fn meet(a: Seq<i32>, b: Seq<i32>) -> Seq<i32> {
    Seq::new(
        a.len(),
        |k: int|
            if a[k] <= b[k] {
                a[k]
            } else {
                b[k]
            },
    )
}

/// The meet of any two of the configurations is one of them.
pub open spec fn meet_closed(configs: Seq<Seq<i32>>) -> bool {
    forall|i: int, j: int|
        0 <= i < configs.len() && 0 <= j < configs.len() ==> listed(
            configs,
            #[trigger] meet(configs[i], configs[j]),
        )
}

/// A schedule of `n` steps over the configurations that ends above `x`.
pub open spec fn fits(xs: Seq<Seq<i32>>, configs: Seq<Seq<i32>>, x: Seq<i32>, n: int, d: nat) -> bool {
    xs.len() == n && schedule_in(xs, configs) && below(x, before(xs, n + 1, d))
}

/// A path is cached for `v` that costs no more than the first `n` steps of
/// the schedule.
pub open spec fn beats(c: CacheView, p: ProblemView, v: VerticeView, xs: Seq<Seq<i32>>, n: int) -> bool {
    match cache_get(c, v) {
        Some(path) => match objective(p, xs, n) {
            Some(o) => path.cost <= o,
            None => true,
        },
        None => false,
    }
}

/// The path cached for `v` costs no more than any schedule of `n` steps
/// over the configurations that ends above `v`.
pub open spec fn best_at(
    c: CacheView,
    p: ProblemView,
    configs: Seq<Seq<i32>>,
    v: VerticeView,
    n: int,
) -> bool {
    forall|xs: Seq<Seq<i32>>| #[trigger] fits(xs, configs, v.config, n, p.d) ==> beats(c, p, v, xs, n)
}

/// In a cheaper cache the paths still beat what they beat.
pub proof fn lemma_best_cheaper(
    c: CacheView,
    after: CacheView,
    p: ProblemView,
    configs: Seq<Seq<i32>>,
    v: VerticeView,
    n: int,
)
    requires
        best_at(c, p, configs, v, n),
        cheaper(after, c),
    ensures
        best_at(after, p, configs, v, n),
{
    assert forall|xs: Seq<Seq<i32>>| #[trigger] fits(xs, configs, v.config, n, p.d) implies beats(
        after,
        p,
        v,
        xs,
        n,
    ) by {
        assert(beats(c, p, v, xs, n));
        assert(cache_get(c, v).is_some());
    }
}

/// The objective of the first steps does not depend on later steps.
pub proof fn lemma_objective_take(p: ProblemView, xs: Seq<Seq<i32>>, n: int, k: int)
    requires
        0 <= n <= k <= xs.len(),
    ensures
        objective(p, xs.take(k), n) == objective(p, xs, n),
    decreases n,
{
    if n > 0 {
        lemma_objective_take(p, xs, n - 1, k);
        assert(xs.take(k)[n - 1] == xs[n - 1]);
        if n >= 2 {
            assert(xs.take(k)[n - 2] == xs[n - 2]);
        }
    }
}

/// Raising from the meet with `m` to `m` costs what raising to `m` costs.
pub proof fn lemma_raise_cost_meet(s: Seq<u64>, b: Seq<i32>, m: Seq<i32>, n: int)
    requires
        b.len() == m.len(),
        0 <= n <= b.len(),
    ensures
        raise_cost(s, meet(b, m), m, n) == raise_cost(s, b, m, n),
    decreases n,
{
    if n > 0 {
        lemma_raise_cost_meet(s, b, m, n - 1);
        assert(pos(m[n - 1] - meet(b, m)[n - 1]) == pos(m[n - 1] - b[n - 1]));
    }
}

/// Where the path to the start of a subpath beats the schedules that end
/// above it, and the subpath is as cheap as passing over the last
/// configuration of a schedule, the path to its end beats that schedule.
pub proof fn lemma_step_best(
    cb: CacheView,
    ca: CacheView,
    p: ProblemView,
    configs: Seq<Seq<i32>>,
    values: Seq<Seq<i32>>,
    from: VerticeView,
    to: VerticeView,
    xs: Seq<Seq<i32>>,
    t: int,
)
    requires
        p.bounds.len() == p.d,
        values.len() == p.d,
        1 <= t <= p.t_end,
        forall|i: int| 0 <= i < configs.len() ==> in_universe(#[trigger] configs[i], values),
        forall|s: int, i: int|
            1 <= s <= p.t_end && 0 <= i < configs.len() ==> (#[trigger] p.hitting(
                s,
                configs[i],
            )).is_some(),
        fits(xs, configs, to.config, t, p.d),
        from == (VerticeView {
            t,
            config: meet(before(xs, t, p.d), xs[t - 1]),
            phase: Phase::PoweringUp,
        }),
        best_at(cb, p, configs, from, t - 1),
        in_universe(to.config, values),
        to.phase == Phase::PoweringUp ==> t < p.t_end,
        passes(xs[t - 1], from, to, p, values) && cache_get(cb, from).is_some() ==> match cache_get(
            ca,
            to,
        ) {
            Some(b) => b.cost <= cache_get(cb, from).unwrap().cost + raise_cost(
                p.switching_cost,
                from.config,
                xs[t - 1],
                p.d as int,
            ) + p.hitting(t, xs[t - 1]).unwrap(),
            None => false,
        },
    ensures
        beats(ca, p, to, xs, t),
{
    let d = p.d as int;
    let m = xs[t - 1];
    let b = before(xs, t, p.d);
    let y = from.config;
    assert(listed(configs, m));
    let mi = choose|i: int| 0 <= i < configs.len() && #[trigger] configs[i] == m;
    assert(in_universe(configs[mi], values));
    assert(p.hitting(t, configs[mi]).is_some());
    if t >= 2 {
        assert(listed(configs, xs[t - 2]));
        let bi = choose|i: int| 0 <= i < configs.len() && #[trigger] configs[i] == xs[t - 2];
        assert(in_universe(configs[bi], values));
    }
    assert(b.len() == p.d);
    assert(below(y, m));
    assert(below(y, b));
    assert(below(to.config, m));
    assert(passes(m, from, to, p, values));
    let prefix = xs.take(t - 1);
    assert(fits(prefix, configs, y, t - 1, p.d)) by {
        assert forall|s: int| 0 <= s < prefix.len() implies listed(
            configs,
            #[trigger] prefix[s],
        ) by {
            assert(prefix[s] == xs[s]);
        }
        if t >= 2 {
            assert(prefix[t - 2] == xs[t - 2]);
        }
    }
    assert(beats(cb, p, from, prefix, t - 1));
    lemma_objective_take(p, xs, t - 1, t - 1);
    lemma_raise_cost_meet(p.switching_cost, b, m, d);
}

/// The vertice of layer `t` and configuration `config` that is powering up.
pub open spec fn up(t: int, config: Seq<i32>) -> VerticeView {
    VerticeView { t, config, phase: Phase::PoweringUp }
}

/// The path cached for each configuration in layer `t` costs no more than
/// any schedule of the steps before that ends above the configuration.
pub open spec fn layer_best(c: CacheView, p: ProblemView, configs: Seq<Seq<i32>>, t: int) -> bool {
    forall|i: int|
        0 <= i < configs.len() ==> best_at(c, p, configs, #[trigger] up(t, configs[i]), t - 1)
}

/// In a cheaper cache a layer still beats what it beat.
pub proof fn lemma_layer_cheaper(
    c: CacheView,
    after: CacheView,
    p: ProblemView,
    configs: Seq<Seq<i32>>,
    t: int,
)
    requires
        layer_best(c, p, configs, t),
        cheaper(after, c),
    ensures
        layer_best(after, p, configs, t),
{
    assert forall|i: int| 0 <= i < configs.len() implies best_at(
        after,
        p,
        configs,
        #[trigger] up(t, configs[i]),
        t - 1,
    ) by {
        lemma_best_cheaper(c, after, p, configs, up(t, configs[i]), t - 1);
    }
}

/// The schedule passes, at step `t`, over the start `configs[i]`: the meet
/// of its configurations before and at the step.
pub open spec fn starts_at(xs: Seq<Seq<i32>>, configs: Seq<Seq<i32>>, t: int, d: nat, i: int) -> bool {
    configs[i] == meet(before(xs, t, d), xs[t - 1])
}

/// Every schedule that fits passes over one of the configurations, where
/// these hold all zeros and the meet of any two of them.
pub proof fn lemma_via_listed(xs: Seq<Seq<i32>>, configs: Seq<Seq<i32>>, x: Seq<i32>, t: int, d: nat)
    requires
        t >= 1,
        fits(xs, configs, x, t, d),
        meet_closed(configs),
        listed(configs, Seq::new(d, |i: int| 0i32)),
        forall|i: int, k: int|
            0 <= i < configs.len() && 0 <= k < d ==> (#[trigger] configs[i]).len() == d && 0
                <= #[trigger] configs[i][k],
    ensures
        exists|i: int| 0 <= i < configs.len() && #[trigger] starts_at(xs, configs, t, d, i),
{
    let m = xs[t - 1];
    assert(listed(configs, m));
    let mi = choose|i: int| 0 <= i < configs.len() && #[trigger] configs[i] == m;
    let zero = Seq::new(d, |i: int| 0i32);
    if t >= 2 {
        assert(listed(configs, xs[t - 2]));
        let bi = choose|i: int| 0 <= i < configs.len() && #[trigger] configs[i] == xs[t - 2];
        assert(listed(configs, meet(configs[bi], configs[mi])));
        let yi = choose|i: int|
            0 <= i < configs.len() && #[trigger] configs[i] == meet(configs[bi], configs[mi]);
        assert(starts_at(xs, configs, t, d, yi));
    } else {
        let zi = choose|i: int| 0 <= i < configs.len() && #[trigger] configs[i] == zero;
        assert(meet(zero, m) =~= zero) by {
            assert forall|k: int| 0 <= k < d implies meet(zero, m)[k] == 0 by {
                assert(0 <= configs[mi][k]);
            }
        }
        assert(starts_at(xs, configs, t, d, zi));
    }
}

/// No schedule over the configurations for the first `n` steps has an
/// objective of less than `cost`.
pub open spec fn least_over(cost: int, p: ProblemView, configs: Seq<Seq<i32>>, n: int) -> bool {
    forall|xs: Seq<Seq<i32>>|
        xs.len() == n && #[trigger] schedule_in(xs, configs) ==> match objective(p, xs, n) {
            Some(o) => cost <= o,
            None => true,
        }
}

/// `cost` is the objective of a schedule over the configurations for the
/// first `n` steps, and of none is the objective less.
pub open spec fn exact_over(
    cost: int,
    xs: Seq<Seq<i32>>,
    p: ProblemView,
    configs: Seq<Seq<i32>>,
    n: int,
) -> bool {
    xs.len() == n && schedule_in(xs, configs) && objective(p, xs, n) == Some(cost) && least_over(
        cost,
        p,
        configs,
        n,
    )
}

/// Two exact searches over the same configurations agree in their cost,
/// however each of them finds its schedule: the search of this library on
/// a problem of one dimension agrees with any exact search that is made
/// for one dimension.
pub proof fn lemma_exact_costs_agree(
    p: ProblemView,
    configs: Seq<Seq<i32>>,
    n: int,
    first: int,
    first_xs: Seq<Seq<i32>>,
    second: int,
    second_xs: Seq<Seq<i32>>,
)
    requires
        exact_over(first, first_xs, p, configs, n),
        exact_over(second, second_xs, p, configs, n),
    ensures
        first == second,
{
}

/// A search over finer configurations costs no more: where every
/// configuration of `coarse` is one of `fine`, the least cost over `fine`
/// is at most the objective of any schedule over `coarse`.
pub proof fn lemma_finer_costs_no_more(
    p: ProblemView,
    coarse: Seq<Seq<i32>>,
    fine: Seq<Seq<i32>>,
    n: int,
    coarse_cost: int,
    coarse_xs: Seq<Seq<i32>>,
    fine_cost: int,
)
    requires
        forall|i: int| 0 <= i < coarse.len() ==> listed(fine, #[trigger] coarse[i]),
        coarse_xs.len() == n,
        schedule_in(coarse_xs, coarse),
        objective(p, coarse_xs, n) == Some(coarse_cost),
        least_over(fine_cost, p, fine, n),
    ensures
        fine_cost <= coarse_cost,
{
    assert forall|t: int| 0 <= t < coarse_xs.len() implies listed(fine, #[trigger] coarse_xs[t]) by {
        assert(listed(coarse, coarse_xs[t]));
        let i = choose|i: int| 0 <= i < coarse.len() && #[trigger] coarse[i] == coarse_xs[t];
        assert(listed(fine, coarse[i]));
    }
    assert(schedule_in(coarse_xs, fine));
}

} // verus!

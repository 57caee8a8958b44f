//! Mirrored problems: the hitting costs of the time steps in reverse
//! order. A schedule costs under a problem what its reverse costs under the
//! mirrored problem, since between all zeros at both ends a schedule
//! raises each dimension by as much as it lowers it.

use vstd::prelude::*;
use crate::config::zeros;
use crate::objective::objective;
use crate::optimal::{exact_over, listed, schedule_in};
use crate::problem::ProblemView;
use crate::vertice::{in_bounds, pos, raise_cost};

verus! {

/// The problem with the hitting costs of its time steps in reverse order.
pub open spec fn mirror(p: ProblemView) -> ProblemView {
    ProblemView {
        d: p.d,
        t_end: p.t_end,
        bounds: p.bounds,
        switching_cost: p.switching_cost,
        hitting_cost: Seq::new(
            p.t_end as nat,
            |i: int| p.hitting_cost[p.t_end - 1 - i],
        ),
    }
}

/// `q` is `p` with the hitting costs of the time steps of the horizon in
/// reverse order: the same dimensions, horizon, bounds and switching costs,
/// and at
/// each time step the hitting cost that `p` has at the step as far from
/// the end.
pub open spec fn mirrored(p: ProblemView, q: ProblemView) -> bool {
    &&& q.d == p.d
    &&& q.t_end == p.t_end
    &&& q.bounds == p.bounds
    &&& q.switching_cost == p.switching_cost
    &&& forall|t: int, x: Seq<i32>|
        1 <= t <= p.t_end ==> #[trigger] q.hitting(t, x) == p.hitting(p.t_end + 1 - t, x)
}

/// The mirror of a problem with a table for each time step of the horizon
/// is mirrored.
pub proof fn lemma_mirror_mirrored(p: ProblemView)
    requires
        p.hitting_cost.len() == p.t_end,
    ensures
        mirrored(p, mirror(p)),
{
    let q = mirror(p);
    assert forall|t: int, x: Seq<i32>| 1 <= t <= p.t_end implies #[trigger] q.hitting(t, x)
        == p.hitting(p.t_end + 1 - t, x) by {
        assert(q.hitting_cost[t - 1] == p.hitting_cost[p.t_end - t]);
    }
}

/// The hitting cost of `x` at time step `t`, zero where it is undefined.
pub open spec fn hit_or_zero(p: ProblemView, t: int, x: Seq<i32>) -> int {
    match p.hitting(t, x) {
        Some(h) => h as int,
        None => 0,
    }
}

/// The hitting costs of the first `n` steps, added up.
pub open spec fn hits(p: ProblemView, xs: Seq<Seq<i32>>, n: int) -> int
    decreases n,
{
    if n <= 0 {
        0
    } else {
        hits(p, xs, n - 1) + hit_or_zero(p, n, xs[n - 1])
    }
}

/// The hitting cost is defined at each of the first `n` steps.
pub open spec fn all_defined(p: ProblemView, xs: Seq<Seq<i32>>, n: int) -> bool {
    forall|t: int| 1 <= t <= n ==> (#[trigger] p.hitting(t, xs[t - 1])).is_some()
}

/// The cost of raising from each of the first `n + 1` configurations to
/// the next, added up.
pub open spec fn raises(s: Seq<u64>, xs: Seq<Seq<i32>>, d: int, n: int) -> int
    decreases n,
{
    if n <= 0 {
        0
    } else {
        raises(s, xs, d, n - 1) + raise_cost(s, xs[n - 1], xs[n], d)
    }
}

/// The cost of raising to each of the first `n + 1` configurations from
/// the next, added up: what lowering along the schedule would cost.
pub open spec fn lowers(s: Seq<u64>, xs: Seq<Seq<i32>>, d: int, n: int) -> int
    decreases n,
{
    if n <= 0 {
        0
    } else {
        lowers(s, xs, d, n - 1) + raise_cost(s, xs[n], xs[n - 1], d)
    }
}

/// The levels of a configuration, each weighted by its switching cost.
pub open spec fn weight(s: Seq<u64>, x: Seq<i32>, n: int) -> int
    decreases n,
{
    if n <= 0 {
        0
    } else {
        weight(s, x, n - 1) + s[n - 1] * x[n - 1]
    }
}

/// Raising costs more than lowering by the difference of the weights.
pub proof fn lemma_raise_difference(s: Seq<u64>, a: Seq<i32>, b: Seq<i32>, n: int)
    ensures
        raise_cost(s, a, b, n) == raise_cost(s, b, a, n) + weight(s, b, n) - weight(s, a, n),
    decreases n,
{
    if n > 0 {
        lemma_raise_difference(s, a, b, n - 1);
        let c = s[n - 1] as int;
        let x = a[n - 1] as int;
        let y = b[n - 1] as int;
        assert(c * pos(y - x) == c * pos(x - y) + c * y - c * x) by (nonlinear_arith)
            requires
                pos(y - x) == pos(x - y) + y - x,
        ;
    }
}

/// Raising from all zeros costs the weight.
pub proof fn lemma_raise_from_zero(s: Seq<u64>, x: Seq<i32>, d: nat, n: int)
    requires
        0 <= n <= d,
        x.len() == d,
        forall|k: int| 0 <= k < d ==> 0 <= #[trigger] x[k],
    ensures
        raise_cost(s, zeros(d), x, n) == weight(s, x, n),
    decreases n,
{
    if n > 0 {
        lemma_raise_from_zero(s, x, d, n - 1);
        assert(0 <= x[n - 1]);
        assert(zeros(d)[n - 1] == 0);
    }
}

/// Along a schedule the raises cost more than the lowerings by the
/// difference of the weights of its ends.
pub proof fn lemma_raises_lowers(s: Seq<u64>, xs: Seq<Seq<i32>>, d: int, n: int)
    requires
        0 <= n,
    ensures
        raises(s, xs, d, n) == lowers(s, xs, d, n) + weight(s, xs[n], d) - weight(s, xs[0], d),
    decreases n,
{
    if n > 0 {
        lemma_raises_lowers(s, xs, d, n - 1);
        lemma_raise_difference(s, xs[n - 1], xs[n], d);
    }
}

/// The lowerings of the first `n` steps of the reverse are the raises of
/// the last `n` steps.
pub proof fn lemma_lowers_reverse(s: Seq<u64>, xs: Seq<Seq<i32>>, d: int, n: int)
    requires
        0 <= n < xs.len(),
    ensures
        lowers(s, xs.reverse(), d, n) == raises(s, xs, d, xs.len() - 1) - raises(
            s,
            xs,
            d,
            xs.len() - 1 - n,
        ),
    decreases n,
{
    if n > 0 {
        lemma_lowers_reverse(s, xs, d, n - 1);
        let l = xs.len() as int;
        assert(xs.reverse()[n] == xs[l - 1 - n]);
        assert(xs.reverse()[n - 1] == xs[l - n]);
    }
}

/// The hitting costs of the first `n` steps of the reverse under the
/// mirrored problem are those of the last `n` steps.
pub proof fn lemma_hits_reverse(p: ProblemView, q: ProblemView, xs: Seq<Seq<i32>>, n: int)
    requires
        mirrored(p, q),
        xs.len() == p.t_end,
        0 <= n <= p.t_end,
    ensures
        hits(q, xs.reverse(), n) == hits(p, xs, p.t_end) - hits(p, xs, p.t_end - n),
    decreases n,
{
    if n > 0 {
        lemma_hits_reverse(p, q, xs, n - 1);
        assert(xs.reverse()[n - 1] == xs[p.t_end - n]);
        assert(q.hitting(n, xs.reverse()[n - 1]) == p.hitting(p.t_end + 1 - n, xs[p.t_end - n]));
    }
}

/// The objective is the hitting costs, the cost of raising all zeros to
/// the first configuration, and the raises along the schedule, where the
/// hitting costs are defined.
pub proof fn lemma_objective_split(p: ProblemView, xs: Seq<Seq<i32>>, n: int)
    requires
        1 <= n <= xs.len(),
    ensures
        objective(p, xs, n) == if all_defined(p, xs, n) {
            Some(
                hits(p, xs, n) + raise_cost(p.switching_cost, zeros(p.d), xs[0], p.d as int)
                    + raises(p.switching_cost, xs, p.d as int, n - 1),
            )
        } else {
            None
        },
    decreases n,
{
    if n > 1 {
        lemma_objective_split(p, xs, n - 1);
        if all_defined(p, xs, n) {
            assert(p.hitting(n, xs[n - 1]).is_some());
            assert(all_defined(p, xs, n - 1));
        } else if all_defined(p, xs, n - 1) {
            assert(p.hitting(n, xs[n - 1]).is_none());
        }
    } else {
        assert(objective(p, xs, 0) == Some(0int));
        if all_defined(p, xs, 1) {
            assert(p.hitting(1, xs[1 - 1]).is_some());
        }
        assert(hits(p, xs, 0) == 0);
    }
}

/// A schedule for the whole horizon, within the bounds, costs under a
/// problem what its reverse costs under the mirrored problem.
pub proof fn lemma_mirror_objective(p: ProblemView, q: ProblemView, xs: Seq<Seq<i32>>)
    requires
        p.t_end >= 1,
        mirrored(p, q),
        p.bounds.len() == p.d,
        xs.len() == p.t_end,
        forall|t: int| 0 <= t < xs.len() ==> in_bounds(#[trigger] xs[t], p.bounds),
    ensures
        objective(q, xs.reverse(), p.t_end) == objective(p, xs, p.t_end),
{
    let n = p.t_end;
    let d = p.d as int;
    let s = p.switching_cost;
    let ys = xs.reverse();
    lemma_objective_split(p, xs, n);
    lemma_objective_split(q, ys, n);
    lemma_hits_reverse(p, q, xs, n);
    assert(hits(p, xs, 0) == 0);
    assert(all_defined(q, ys, n) == all_defined(p, xs, n)) by {
        if all_defined(p, xs, n) {
            assert forall|t: int| 1 <= t <= n implies (#[trigger] q.hitting(
                t,
                ys[t - 1],
            )).is_some() by {
                assert(ys[t - 1] == xs[n - t]);
                assert(q.hitting(t, ys[t - 1]) == p.hitting(n + 1 - t, xs[n - t]));
                assert(p.hitting(n - t + 1, xs[n - t + 1 - 1]).is_some());
            }
        }
        if all_defined(q, ys, n) {
            assert forall|t: int| 1 <= t <= n implies (#[trigger] p.hitting(
                t,
                xs[t - 1],
            )).is_some() by {
                assert(ys[n - t] == xs[t - 1]);
                assert(q.hitting(n - t + 1, ys[n - t]) == p.hitting(n + 1 - (n - t + 1), xs[t - 1]));
                assert(q.hitting(n - t + 1, ys[n - t + 1 - 1]).is_some());
            }
        }
    }
    assert(ys[0] == xs[n - 1]);
    assert(ys[n - 1] == xs[0]);
    assert(in_bounds(xs[0], p.bounds));
    assert(in_bounds(xs[n - 1], p.bounds));
    lemma_raise_from_zero(s, xs[0], p.d, d);
    lemma_raise_from_zero(s, ys[0], p.d, d);
    lemma_raises_lowers(s, ys, d, n - 1);
    lemma_lowers_reverse(s, xs, d, n - 1);
    assert(raises(s, xs, d, 0) == 0);
}

/// The reverse of a schedule over the configurations is one.
pub proof fn lemma_reverse_in(xs: Seq<Seq<i32>>, configs: Seq<Seq<i32>>)
    requires
        schedule_in(xs, configs),
    ensures
        schedule_in(xs.reverse(), configs),
{
    assert forall|t: int| 0 <= t < xs.reverse().len() implies listed(
        configs,
        #[trigger] xs.reverse()[t],
    ) by {
        assert(xs.reverse()[t] == xs[xs.len() - 1 - t]);
        assert(listed(configs, xs[xs.len() - 1 - t]));
    }
}

/// An exact search on a problem and an exact search on a mirrored
/// problem, over the same configurations within the bounds, agree in their
/// cost: so do the searches of this library over the combinations of
/// candidate levels, and over any configurations of one dimension that
/// hold zero.
pub proof fn lemma_mirror_costs_agree(
    p: ProblemView,
    q: ProblemView,
    configs: Seq<Seq<i32>>,
    cost: int,
    xs: Seq<Seq<i32>>,
    mirrored_cost: int,
    mirrored_xs: Seq<Seq<i32>>,
)
    requires
        p.t_end >= 1,
        mirrored(p, q),
        p.bounds.len() == p.d,
        forall|i: int| 0 <= i < configs.len() ==> in_bounds(#[trigger] configs[i], p.bounds),
        exact_over(cost, xs, p, configs, p.t_end),
        exact_over(mirrored_cost, mirrored_xs, q, configs, p.t_end),
    ensures
        cost == mirrored_cost,
{
    assert forall|t: int| 0 <= t < xs.len() implies in_bounds(#[trigger] xs[t], p.bounds) by {
        assert(listed(configs, xs[t]));
        let i = choose|i: int| 0 <= i < configs.len() && #[trigger] configs[i] == xs[t];
        assert(in_bounds(configs[i], p.bounds));
    }
    assert forall|t: int| 0 <= t < mirrored_xs.len() implies in_bounds(
        #[trigger] mirrored_xs[t],
        p.bounds,
    ) by {
        assert(listed(configs, mirrored_xs[t]));
        let i = choose|i: int| 0 <= i < configs.len() && #[trigger] configs[i] == mirrored_xs[t];
        assert(in_bounds(configs[i], p.bounds));
    }
    lemma_mirror_objective(p, q, xs);
    lemma_reverse_in(xs, configs);
    assert(schedule_in(xs.reverse(), configs));
    let back = mirrored_xs.reverse();
    lemma_mirror_objective(p, q, back);
    assert(back.reverse() =~= mirrored_xs);
    lemma_reverse_in(mirrored_xs, configs);
    assert(schedule_in(back, configs));
}

} // verus!

//! Which vertices a search can reach: between two layers there is always
//! the path that raises every dimension as far as needed, pays the hitting
//! cost, and lowers every dimension again.

use vstd::prelude::*;
use crate::problem::ProblemView;
use crate::subpath::{follows, linked};
use crate::values::increasing;
use crate::vertice::{
    blocked, edges, hit_edge, in_universe, lemma_position_of, lemma_step_in_universe, next_edge,
    open_edges, optional, position_of, raise_cost, search_edges, step_edge, step_edges, values_wf,
    Edge, Phase, VerticeView,
};
use crate::walk::{
    below, lemma_estimate_consistent, lemma_least_edge_least, lemma_raise_cost_adds,
    lemma_raise_cost_none, lemma_step_edge_shape, lemma_walk_cost_prefix, walk_cost,
};

verus! {

/// The path leads from `v` to `w` along edges that are open toward
/// `target`.
pub open spec fn is_route(
    path: Seq<VerticeView>,
    v: VerticeView,
    w: VerticeView,
    p: ProblemView,
    values: Seq<Seq<i32>>,
    target: VerticeView,
) -> bool {
    path.len() >= 1 && path[0] == v && path.last() == w && linked(path, p, values, target)
}

/// Some path leads from `v` to `w` along edges that are open toward
/// `target`.
pub open spec fn connected(
    v: VerticeView,
    w: VerticeView,
    p: ProblemView,
    values: Seq<Seq<i32>>,
    target: VerticeView,
) -> bool {
    exists|path: Seq<VerticeView>| is_route(path, v, w, p, values, target)
}

/// Some path leads from `v` to `w` along edges that are open toward
/// `target` and cost no more than `budget` together.
pub open spec fn connected_within(
    v: VerticeView,
    w: VerticeView,
    budget: int,
    p: ProblemView,
    values: Seq<Seq<i32>>,
    target: VerticeView,
) -> bool {
    exists|path: Seq<VerticeView>|
        #[trigger] is_route(path, v, w, p, values, target) && walk_cost(
            path,
            p,
            values,
            target,
            path.len() - 1,
        ) <= budget
}

/// A connection within a budget is a connection.
pub proof fn lemma_within_connected(
    v: VerticeView,
    w: VerticeView,
    budget: int,
    p: ProblemView,
    values: Seq<Seq<i32>>,
    target: VerticeView,
)
    requires
        connected_within(v, w, budget, p, values, target),
    ensures
        connected(v, w, p, values, target),
{
    let path = choose|path: Seq<VerticeView>|
        #[trigger] is_route(path, v, w, p, values, target) && walk_cost(
            path,
            p,
            values,
            target,
            path.len() - 1,
        ) <= budget;
    assert(is_route(path, v, w, p, values, target));
}

/// Every vertice is connected to itself at no cost.
pub proof fn lemma_connected_self(
    v: VerticeView,
    p: ProblemView,
    values: Seq<Seq<i32>>,
    target: VerticeView,
)
    ensures
        connected_within(v, v, 0, p, values, target),
{
    let path = seq![v];
    assert(is_route(path, v, v, p, values, target));
}

/// A connection goes on along an open edge, at the cost of the edge.
pub proof fn lemma_connected_on(
    v: VerticeView,
    w: VerticeView,
    e: Edge,
    budget: int,
    p: ProblemView,
    values: Seq<Seq<i32>>,
    target: VerticeView,
)
    requires
        connected_within(v, w, budget, p, values, target),
        holds(search_edges(w, p, values, target), e),
    ensures
        connected_within(v, e.0, budget + e.1, p, values, target),
{
    let path = choose|path: Seq<VerticeView>|
        #[trigger] is_route(path, v, w, p, values, target) && walk_cost(
            path,
            p,
            values,
            target,
            path.len() - 1,
        ) <= budget;
    let u = e.0;
    let es = search_edges(w, p, values, target);
    let at = choose|at: int| 0 <= at < es.len() && #[trigger] es[at] == e;
    lemma_least_edge_least(es, at);
    lemma_walk_cost_prefix(path, u, p, values, target, path.len() - 1);
    let longer = path.push(u);
    assert(longer[path.len() - 1] == w);
    assert(longer[path.len() as int] == u);
    assert(walk_cost(longer, p, values, target, longer.len() - 1) <= budget + e.1);
    assert forall|i: int| 0 <= i < longer.len() - 1 implies follows(
        search_edges(#[trigger] longer[i], p, values, target),
        longer[i + 1],
    ) by {
        if i < path.len() - 1 {
            assert(longer[i] == path[i]);
            assert(longer[i + 1] == path[i + 1]);
        } else {
            assert(longer[i] == w);
            assert(es[at].0 == u);
        }
    }
    assert(is_route(longer, v, u, p, values, target));
}

/// The edge is one of the edges.
pub open spec fn holds(es: Seq<Edge>, e: Edge) -> bool {
    exists|i: int| 0 <= i < es.len() && #[trigger] es[i] == e
}

/// An edge that is not blocked is among the open edges.
pub proof fn lemma_open_edges_hold(es: Seq<Edge>, to: VerticeView, j: int)
    requires
        0 <= j < es.len(),
        !blocked(es[j].0, to),
    ensures
        holds(open_edges(es, to), es[j]),
    decreases es.len(),
{
    let open = open_edges(es, to);
    if j == es.len() - 1 {
        assert(open.last() == es[j]);
        assert(open[open.len() - 1] == es[j]);
    } else {
        lemma_open_edges_hold(es.drop_last(), to, j);
        let front = open_edges(es.drop_last(), to);
        assert(es.drop_last()[j] == es[j]);
        let i = choose|i: int| 0 <= i < front.len() && #[trigger] front[i] == es[j];
        if !blocked(es.last().0, to) {
            assert(open[i] == front[i]);
        }
    }
}

/// The edge that changes dimension `k` is among the edges that change one
/// of the first `n` dimensions.
pub proof fn lemma_step_edges_hold(
    v: VerticeView,
    p: ProblemView,
    values: Seq<Seq<i32>>,
    k: int,
    n: int,
)
    requires
        0 <= k < n,
        step_edge(v, p, values, k).is_some(),
    ensures
        exists|j: int|
            0 <= j < step_edges(v, p, values, n).len() && #[trigger] step_edges(v, p, values, n)[j]
                == step_edge(v, p, values, k).unwrap(),
    decreases n,
{
    let es = step_edges(v, p, values, n);
    let rest = step_edges(v, p, values, n - 1);
    if k == n - 1 {
        assert(es[es.len() - 1] == step_edge(v, p, values, k).unwrap());
    } else {
        lemma_step_edges_hold(v, p, values, k, n - 1);
        let j = choose|j: int|
            0 <= j < rest.len() && #[trigger] rest[j] == step_edge(v, p, values, k).unwrap();
        assert(es[j] == rest[j]);
    }
}

/// The end of an edge that changes one dimension follows in a search,
/// unless it is blocked.
pub proof fn lemma_step_follows(
    v: VerticeView,
    p: ProblemView,
    values: Seq<Seq<i32>>,
    target: VerticeView,
    k: int,
)
    requires
        0 <= k < p.d,
        step_edge(v, p, values, k).is_some(),
        !blocked(step_edge(v, p, values, k).unwrap().0, target),
    ensures
        holds(search_edges(v, p, values, target), step_edge(v, p, values, k).unwrap()),
{
    let e = step_edge(v, p, values, k).unwrap();
    let steps = step_edges(v, p, values, p.d as int);
    lemma_step_edges_hold(v, p, values, k, p.d as int);
    let j = choose|j: int| 0 <= j < steps.len() && #[trigger] steps[j] == e;
    let es = edges(v, p, values);
    match v.phase {
        Phase::PoweringUp => {
            let hit = optional(hit_edge(v, p));
            assert(es[hit.len() + j] == steps[j]);
            lemma_open_edges_hold(es, target, hit.len() + j);
        },
        Phase::PoweringDown => {
            assert(es[j] == steps[j]);
            lemma_open_edges_hold(es, target, j);
        },
    }
}

/// The levels of `c`, each taken from the level of `m`, added up over the
/// first `n` dimensions.
pub open spec fn gap(c: Seq<i32>, m: Seq<i32>, n: int) -> int
    decreases n,
{
    if n <= 0 {
        0
    } else {
        gap(c, m, n - 1) + (m[n - 1] - c[n - 1])
    }
}

/// Below `m` the gap is not negative, and zero only at `m`.
pub proof fn lemma_gap_bounds(c: Seq<i32>, m: Seq<i32>, n: int)
    requires
        below(c, m),
        0 <= n <= c.len(),
    ensures
        gap(c, m, n) >= 0,
        gap(c, m, n) == 0 ==> forall|k: int| 0 <= k < n ==> c[k] == m[k],
    decreases n,
{
    if n > 0 {
        lemma_gap_bounds(c, m, n - 1);
        assert(c[n - 1] <= m[n - 1]);
    }
}

/// Changing one level changes the gap by as much.
pub proof fn lemma_gap_update(c: Seq<i32>, m: Seq<i32>, k: int, a: i32, n: int)
    requires
        0 <= k < c.len(),
        0 <= n <= c.len(),
    ensures
        gap(c.update(k, a), m, n) == gap(c, m, n) - if k < n {
            a - c[k]
        } else {
            0
        },
        gap(m, c.update(k, a), n) == gap(m, c, n) + if k < n {
            a - c[k]
        } else {
            0
        },
    decreases n,
{
    if n > 0 {
        lemma_gap_update(c, m, k, a, n - 1);
    }
}

/// In a sorted list a larger element stands later.
pub proof fn lemma_position_order(vs: Seq<i32>, i: int, j: int)
    requires
        increasing(vs),
        0 <= i < vs.len(),
        0 <= j < vs.len(),
        vs[i] < vs[j],
    ensures
        i < j,
{
    if j < i {
        assert(vs[j] < vs[i]);
    }
}

/// From a vertice that is powering up a search reaches every
/// configuration of the universe above it, in its layer.
pub proof fn lemma_raise_reach(
    from: VerticeView,
    v: VerticeView,
    m: Seq<i32>,
    budget: int,
    p: ProblemView,
    values: Seq<Seq<i32>>,
    target: VerticeView,
)
    requires
        p.wf(),
        values_wf(values, p.bounds),
        connected_within(from, v, budget, p, values, target),
        v.phase == Phase::PoweringUp,
        v.t != target.t,
        in_universe(v.config, values),
        in_universe(m, values),
        below(v.config, m),
    ensures
        connected_within(
            from,
            VerticeView { t: v.t, config: m, phase: Phase::PoweringUp },
            budget + raise_cost(p.switching_cost, v.config, m, p.d as int),
            p,
            values,
            target,
        ),
    decreases gap(v.config, m, p.d as int),
{
    let d = p.d as int;
    lemma_gap_bounds(v.config, m, d);
    if gap(v.config, m, d) == 0 {
        assert(v.config =~= m);
        lemma_raise_cost_none(p.switching_cost, m, d);
    } else {
        let c = v.config;
        if forall|k: int| 0 <= k < d ==> c[k] == m[k] {
            lemma_gap_zero(c, m, d);
        }
        let k = choose|k: int| 0 <= k < d && c[k] != m[k];
        assert(c[k] <= m[k]);
        let vs = values[k];
        lemma_position_of(vs, c[k]);
        assert(vs.contains(c[k]));
        assert(vs.contains(m[k]));
        let i = position_of(vs, c[k]).unwrap();
        let i2 = choose|i2: int| 0 <= i2 < vs.len() && vs[i2] == m[k];
        assert(increasing(vs));
        lemma_position_order(vs, i, i2);
        let a = vs[i + 1];
        assert(a <= m[k]) by {
            if i + 1 < i2 {
                assert(vs[i + 1] < vs[i2]);
            }
        }
        assert(vs[i] < vs[i + 1]);
        let e = step_edge(v, p, values, k).unwrap();
        assert(e.0.config == c.update(k, a));
        lemma_step_follows(v, p, values, target, k);
        lemma_connected_on(from, v, e, budget, p, values, target);
        assert(vs.contains(a));
        lemma_step_in_universe(c, values, k, a);
        lemma_gap_update(c, m, k, a, d);
        assert forall|j: int| 0 <= j < d implies #[trigger] e.0.config[j] <= m[j] by {
            if j != k {
                assert(c[j] <= m[j]);
            }
        }
        assert(c[k] == vs[i]);
        assert(gap(e.0.config, m, d) == gap(c, m, d) - (a - c[k]));
        lemma_gap_bounds(e.0.config, m, d);
        lemma_step_edge_shape(v, p, values, k);
        lemma_raise_cost_adds(p.switching_cost, c, e.0.config, m, d);
        lemma_raise_reach(from, e.0, m, budget + e.1, p, values, target);
    }
}

/// Where all levels agree the gap is zero.
pub proof fn lemma_gap_zero(c: Seq<i32>, m: Seq<i32>, n: int)
    requires
        0 <= n <= c.len(),
        forall|k: int| 0 <= k < n ==> c[k] == m[k],
    ensures
        gap(c, m, n) == 0,
    decreases n,
{
    if n > 0 {
        lemma_gap_zero(c, m, n - 1);
    }
}

/// From a vertice that is powering down above the target's configuration
/// a search reaches the target's configuration, in its layer.
pub proof fn lemma_lower_reach(
    from: VerticeView,
    v: VerticeView,
    budget: int,
    p: ProblemView,
    values: Seq<Seq<i32>>,
    target: VerticeView,
)
    requires
        p.wf(),
        values_wf(values, p.bounds),
        connected_within(from, v, budget, p, values, target),
        v.phase == Phase::PoweringDown,
        v.t != target.t,
        in_universe(v.config, values),
        in_universe(target.config, values),
        below(target.config, v.config),
    ensures
        connected_within(
            from,
            VerticeView { t: v.t, config: target.config, phase: Phase::PoweringDown },
            budget,
            p,
            values,
            target,
        ),
    decreases gap(target.config, v.config, p.d as int),
{
    let d = p.d as int;
    let x = target.config;
    let c = v.config;
    lemma_gap_bounds(x, c, d);
    if gap(x, c, d) == 0 {
        assert(c =~= x);
    } else {
        if forall|k: int| 0 <= k < d ==> x[k] == c[k] {
            lemma_gap_zero(x, c, d);
        }
        let k = choose|k: int| 0 <= k < d && x[k] != c[k];
        assert(x[k] <= c[k]);
        let vs = values[k];
        lemma_position_of(vs, c[k]);
        assert(vs.contains(c[k]));
        assert(vs.contains(x[k]));
        let i = position_of(vs, c[k]).unwrap();
        let i2 = choose|i2: int| 0 <= i2 < vs.len() && vs[i2] == x[k];
        assert(increasing(vs));
        lemma_position_order(vs, i2, i);
        let a = vs[i - 1];
        assert(x[k] <= a) by {
            if i2 < i - 1 {
                assert(vs[i2] < vs[i - 1]);
            }
        }
        assert(vs[i - 1] < vs[i]);
        let e = step_edge(v, p, values, k).unwrap();
        assert(e.0.config == c.update(k, a));
        assert forall|j: int| 0 <= j < d implies x[j] <= #[trigger] e.0.config[j] by {
            if j != k {
                assert(x[j] <= c[j]);
            }
        }
        assert(!blocked(e.0, target));
        lemma_step_follows(v, p, values, target, k);
        lemma_connected_on(from, v, e, budget, p, values, target);
        lemma_step_edge_shape(v, p, values, k);
        assert(vs.contains(a));
        lemma_step_in_universe(c, values, k, a);
        lemma_gap_update(c, x, k, a, d);
        assert(c[k] == vs[i]);
        assert(gap(x, e.0.config, d) == gap(x, c, d) + (a - c[k]));
        lemma_gap_bounds(x, e.0.config, d);
        lemma_lower_reach(from, e.0, budget, p, values, target);
    }
}

/// The larger of the two levels in each dimension.
pub open spec fn join(a: Seq<i32>, b: Seq<i32>) -> Seq<i32> {
    Seq::new(
        a.len(),
        |k: int|
            if a[k] >= b[k] {
                a[k]
            } else {
                b[k]
            },
    )
}

/// A search toward the next layer finds a way over every configuration
/// `m` of the universe that lies above the start and the target and has a
/// hitting cost: to the vertice that powers down on the target's
/// configuration in the layer of the start and, where the horizon goes on,
/// to the target, at the cost of raising the start to `m` and of the
/// hitting cost of `m`.
pub proof fn lemma_subpath_within(
    from: VerticeView,
    m: Seq<i32>,
    p: ProblemView,
    values: Seq<Seq<i32>>,
    target: VerticeView,
)
    requires
        p.wf(),
        values_wf(values, p.bounds),
        from.phase == Phase::PoweringUp,
        target.phase == Phase::PoweringUp,
        target.t == from.t + 1,
        in_universe(from.config, values),
        in_universe(target.config, values),
        in_universe(m, values),
        below(from.config, m),
        below(target.config, m),
        p.hitting(from.t, m).is_some(),
    ensures
        connected_within(
            from,
            VerticeView { t: from.t, config: target.config, phase: Phase::PoweringDown },
            raise_cost(p.switching_cost, from.config, m, p.d as int) + p.hitting(from.t, m).unwrap(),
            p,
            values,
            target,
        ),
        from.t < p.t_end ==> connected_within(
            from,
            target,
            raise_cost(p.switching_cost, from.config, m, p.d as int) + p.hitting(from.t, m).unwrap(),
            p,
            values,
            target,
        ),
{
    let raised = raise_cost(p.switching_cost, from.config, m, p.d as int);
    lemma_connected_self(from, p, values, target);
    lemma_raise_reach(from, from, m, 0, p, values, target);
    let top = VerticeView { t: from.t, config: m, phase: Phase::PoweringUp };
    let hit = hit_edge(top, p).unwrap();
    let es = edges(top, p, values);
    assert(es[0] == hit);
    assert(!blocked(hit.0, target));
    lemma_open_edges_hold(es, target, 0);
    lemma_connected_on(from, top, hit, raised, p, values, target);
    lemma_lower_reach(from, hit.0, raised + hit.1, p, values, target);
    let low = VerticeView { t: from.t, config: target.config, phase: Phase::PoweringDown };
    if from.t < p.t_end {
        let next = next_edge(low, p).unwrap();
        let les = edges(low, p, values);
        let steps = step_edges(low, p, values, p.d as int);
        assert(les[steps.len() as int] == next);
        assert(next.0 == target);
        lemma_open_edges_hold(les, target, steps.len() as int);
        lemma_connected_on(from, low, next, raised + hit.1, p, values, target);
    }
}

/// A search toward the next layer finds a way where the hitting cost is
/// defined on the join of the configurations of the start and the target.
pub proof fn lemma_subpath_exists(
    from: VerticeView,
    p: ProblemView,
    values: Seq<Seq<i32>>,
    target: VerticeView,
)
    requires
        p.wf(),
        values_wf(values, p.bounds),
        from.phase == Phase::PoweringUp,
        target.phase == Phase::PoweringUp,
        target.t == from.t + 1,
        in_universe(from.config, values),
        in_universe(target.config, values),
        p.hitting(from.t, join(from.config, target.config)).is_some(),
    ensures
        connected(
            from,
            VerticeView { t: from.t, config: target.config, phase: Phase::PoweringDown },
            p,
            values,
            target,
        ),
        from.t < p.t_end ==> connected(from, target, p, values, target),
{
    let m = join(from.config, target.config);
    assert(in_universe(m, values)) by {
        assert forall|k: int| 0 <= k < m.len() implies (#[trigger] values[k]).contains(m[k]) by {
            assert(values[k].contains(from.config[k]));
            assert(values[k].contains(target.config[k]));
        }
    }
    lemma_subpath_within(from, m, p, values, target);
    let budget = raise_cost(p.switching_cost, from.config, m, p.d as int) + p.hitting(
        from.t,
        m,
    ).unwrap();
    lemma_within_connected(
        from,
        VerticeView { t: from.t, config: target.config, phase: Phase::PoweringDown },
        budget,
        p,
        values,
        target,
    );
    if from.t < p.t_end {
        lemma_within_connected(from, target, budget, p, values, target);
    }
}

/// No path to `goal` costs less than what is left to raise at its start:
/// the estimate that guides a search never exceeds the cost that remains.
pub open spec fn admissible(
    p: ProblemView,
    values: Seq<Seq<i32>>,
    goal: VerticeView,
    target: VerticeView,
) -> bool {
    forall|q: Seq<VerticeView>|
        (#[trigger] is_route(q, q[0], goal, p, values, target)) && in_universe(q[0].config, values)
            && 1 <= q[0].t <= p.t_end ==> raise_cost(
            p.switching_cost,
            q[0].config,
            target.config,
            p.d as int,
        ) <= walk_cost(q, p, values, target, q.len() - 1)
}

/// The estimate toward a goal with the target's configuration never
/// exceeds the cost that remains.
pub proof fn lemma_admissible(
    p: ProblemView,
    values: Seq<Seq<i32>>,
    goal: VerticeView,
    target: VerticeView,
)
    requires
        p.wf(),
        values_wf(values, p.bounds),
        target.config.len() == p.d,
        goal.config == target.config,
    ensures
        admissible(p, values, goal, target),
{
    assert forall|q: Seq<VerticeView>|
        (#[trigger] is_route(q, q[0], goal, p, values, target)) && in_universe(q[0].config, values)
            && 1 <= q[0].t <= p.t_end implies raise_cost(
        p.switching_cost,
        q[0].config,
        target.config,
        p.d as int,
    ) <= walk_cost(q, p, values, target, q.len() - 1) by {
        lemma_estimate_consistent(q, p, values, target, q.len() - 1);
        lemma_raise_cost_none(p.switching_cost, target.config, p.d as int);
    }
}

/// No path from `from` to `goal` costs less than `c`.
pub open spec fn cheapest(
    c: int,
    from: VerticeView,
    goal: VerticeView,
    p: ProblemView,
    values: Seq<Seq<i32>>,
    target: VerticeView,
) -> bool {
    forall|q: Seq<VerticeView>| #[trigger]
        is_route(q, from, goal, p, values, target) ==> c <= walk_cost(
            q,
            p,
            values,
            target,
            q.len() - 1,
        )
}

/// What is cheapest costs no more than a budget within which the goal is
/// connected.
pub proof fn lemma_cheapest_within(
    c: int,
    budget: int,
    from: VerticeView,
    goal: VerticeView,
    p: ProblemView,
    values: Seq<Seq<i32>>,
    target: VerticeView,
)
    requires
        cheapest(c, from, goal, p, values, target),
        connected_within(from, goal, budget, p, values, target),
    ensures
        c <= budget,
{
    let q = choose|q: Seq<VerticeView>|
        #[trigger] is_route(q, from, goal, p, values, target) && walk_cost(
            q,
            p,
            values,
            target,
            q.len() - 1,
        ) <= budget;
    assert(is_route(q, from, goal, p, values, target));
}

} // verus!

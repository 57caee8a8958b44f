//! What the edges of a path cost together, and what a path between two
//! layers has to cost at least.

use vstd::prelude::*;
use crate::problem::{lemma_switching_term, ProblemView};
use crate::subpath::{first_down, follows, lemma_path_in_universe, linked};
use crate::values::increasing;
use crate::vertice::{
    blocked, edges, hit_edge, in_universe, lemma_position_of, next_edge, open_edges, optional,
    pos, position_of, raise_cost, search_edges, step_edge, step_edges, values_wf, Edge, Phase,
    VerticeView,
};

verus! {

/// Each level of `a` is at most the level of `b`.
pub open spec fn below(a: Seq<i32>, b: Seq<i32>) -> bool {
    &&& a.len() == b.len()
    &&& forall|k: int| 0 <= k < a.len() ==> #[trigger] a[k] <= b[k]
}

/// Raising first to `a` and from there to `b` costs what raising to `b`
/// costs, where `a` lies between.
pub proof fn lemma_raise_cost_adds(s: Seq<u64>, y: Seq<i32>, a: Seq<i32>, b: Seq<i32>, n: int)
    requires
        below(y, a),
        below(a, b),
        0 <= n <= y.len(),
    ensures
        raise_cost(s, y, a, n) + raise_cost(s, a, b, n) == raise_cost(s, y, b, n),
    decreases n,
{
    if n > 0 {
        lemma_raise_cost_adds(s, y, a, b, n - 1);
        assert(y[n - 1] <= a[n - 1] <= b[n - 1]);
        let c = s[n - 1] as int;
        let p1 = pos(a[n - 1] - y[n - 1]);
        let p2 = pos(b[n - 1] - a[n - 1]);
        let p3 = pos(b[n - 1] - y[n - 1]);
        assert(c * p1 + c * p2 == c * p3) by (nonlinear_arith)
            requires
                p1 + p2 == p3,
        ;
    }
}

/// Raising from higher levels costs no more.
pub proof fn lemma_raise_cost_from_above(s: Seq<u64>, y: Seq<i32>, b: Seq<i32>, x: Seq<i32>, n: int)
    requires
        below(y, b),
        x.len() == y.len(),
        0 <= n <= y.len(),
    ensures
        0 <= raise_cost(s, b, x, n) <= raise_cost(s, y, x, n),
    decreases n,
{
    if n > 0 {
        lemma_raise_cost_from_above(s, y, b, x, n - 1);
        assert(y[n - 1] <= b[n - 1]);
        let c = s[n - 1] as int;
        let p1 = pos(x[n - 1] - b[n - 1]);
        let p2 = pos(x[n - 1] - y[n - 1]);
        assert(0 <= c * p1 <= c * p2) by (nonlinear_arith)
            requires
                0 <= c,
                0 <= p1 <= p2,
        ;
    }
}

/// Raising one dimension costs its switching cost for each unit.
pub proof fn lemma_raise_cost_single(s: Seq<u64>, c: Seq<i32>, k: int, a: i32, n: int)
    requires
        0 <= k < c.len(),
        0 <= n <= c.len(),
        c[k] <= a,
    ensures
        raise_cost(s, c, c.update(k, a), n) == if k < n {
            s[k] * (a - c[k])
        } else {
            0
        },
    decreases n,
{
    if n > 0 {
        lemma_raise_cost_single(s, c, k, a, n - 1);
        if n - 1 != k {
            assert(c.update(k, a)[n - 1] == c[n - 1]);
            assert(s[n - 1] * pos(0) == 0);
        }
    }
}

/// The least cost of an edge that ends in `w`.
pub open spec fn least_edge(es: Seq<Edge>, w: VerticeView) -> Option<u64>
    decreases es.len(),
{
    if es.len() == 0 {
        None
    } else {
        let rest = least_edge(es.drop_last(), w);
        if es.last().0 == w {
            match rest {
                Some(c) => Some(
                    if c <= es.last().1 {
                        c
                    } else {
                        es.last().1
                    },
                ),
                None => Some(es.last().1),
            }
        } else {
            rest
        }
    }
}

/// The least cost is the cost of one of the edges that end in `w`; there
/// is none only where no edge ends there.
pub proof fn lemma_least_edge(es: Seq<Edge>, w: VerticeView)
    ensures
        match least_edge(es, w) {
            Some(c) => exists|j: int| 0 <= j < es.len() && #[trigger] es[j] == (w, c),
            None => forall|j: int| 0 <= j < es.len() ==> (#[trigger] es[j]).0 != w,
        },
    decreases es.len(),
{
    if es.len() > 0 {
        let front = es.drop_last();
        lemma_least_edge(front, w);
        match least_edge(front, w) {
            Some(c) => {
                let j = choose|j: int| 0 <= j < front.len() && #[trigger] front[j] == (w, c);
                assert(es[j] == (w, c));
                assert(es[es.len() - 1] == es.last());
            },
            None => {
                assert forall|j: int| 0 <= j < es.len() - 1 implies (#[trigger] es[j]).0 != w by {
                    assert(front[j] == es[j]);
                }
                assert(es[es.len() - 1] == es.last());
            },
        }
    }
}

/// The least costs of the first `n` edges of the path, added up.
pub open spec fn walk_cost(
    path: Seq<VerticeView>,
    p: ProblemView,
    values: Seq<Seq<i32>>,
    target: VerticeView,
    n: int,
) -> int
    decreases n,
{
    if n <= 0 {
        0
    } else {
        walk_cost(path, p, values, target, n - 1) + match least_edge(
            search_edges(path[n - 1], p, values, target),
            path[n],
        ) {
            Some(c) => c as int,
            None => 0,
        }
    }
}

/// What an edge from `v` looks like. While powering up it pays the hitting
/// cost and powers down in place, or it raises levels within the layer at
/// their switching cost. While powering down it lowers levels within the
/// layer, or moves on to the next layer, for free.
pub open spec fn edge_shape(v: VerticeView, e: Edge, p: ProblemView) -> bool {
    match v.phase {
        Phase::PoweringUp => e.0.t == v.t && if e.0.phase == Phase::PoweringDown {
            e.0.config == v.config && p.hitting(v.t, v.config) == Some(e.1)
        } else {
            below(v.config, e.0.config) && e.0.config != v.config && e.1 == raise_cost(
                p.switching_cost,
                v.config,
                e.0.config,
                p.d as int,
            )
        },
        Phase::PoweringDown => e.1 == 0 && if e.0.phase == Phase::PoweringDown {
            e.0.t == v.t && below(e.0.config, v.config)
        } else {
            e.0.t == v.t + 1 && e.0.config == v.config
        },
    }
}

/// Every edge has the shape of an edge.
pub open spec fn edges_shaped(v: VerticeView, es: Seq<Edge>, p: ProblemView) -> bool {
    forall|j: int| 0 <= j < es.len() ==> edge_shape(v, #[trigger] es[j], p)
}

/// An edge that changes one dimension has the shape of an edge.
pub proof fn lemma_step_edge_shape(v: VerticeView, p: ProblemView, values: Seq<Seq<i32>>, k: int)
    requires
        p.wf(),
        values_wf(values, p.bounds),
        in_universe(v.config, values),
        0 <= k < p.d,
    ensures
        step_edge(v, p, values, k) matches Some(e) ==> edge_shape(v, e, p),
{
    let vs = values[k];
    lemma_position_of(vs, v.config[k]);
    assert(increasing(vs));
    match step_edge(v, p, values, k) {
        Some(e) => {
            let i = position_of(vs, v.config[k]).unwrap();
            if v.phase == Phase::PoweringUp {
                let a = vs[i + 1];
                assert(vs[i] < vs[i + 1]);
                assert(0 <= values[k][i] <= p.bounds[k]);
                assert(0 <= values[k][i + 1] <= p.bounds[k]);
                lemma_raise_cost_single(p.switching_cost, v.config, k, a, p.d as int);
                lemma_switching_term(p.switching_cost, p.bounds, k, p.d as int);
                let diff = a - vs[i];
                assert(0 <= p.switching_cost[k] * diff <= p.switching_cost[k] * p.bounds[k])
                    by (nonlinear_arith)
                    requires
                        0 <= p.switching_cost[k],
                        0 <= diff <= p.bounds[k],
                ;
                assert(e.0.config[k] != v.config[k]);
                assert forall|j: int| 0 <= j < v.config.len() implies #[trigger] v.config[j]
                    <= e.0.config[j] by {}
            } else {
                let a = vs[i - 1];
                assert(vs[i - 1] < vs[i]);
                assert forall|j: int| 0 <= j < v.config.len() implies #[trigger] e.0.config[j]
                    <= v.config[j] by {}
            }
        },
        None => {},
    }
}

/// The edges that change one dimension have the shape of an edge.
pub proof fn lemma_step_edges_shape(v: VerticeView, p: ProblemView, values: Seq<Seq<i32>>, n: int)
    requires
        p.wf(),
        values_wf(values, p.bounds),
        in_universe(v.config, values),
        0 <= n <= p.d,
    ensures
        edges_shaped(v, step_edges(v, p, values, n), p),
    decreases n,
{
    if n > 0 {
        lemma_step_edges_shape(v, p, values, n - 1);
        lemma_step_edge_shape(v, p, values, n - 1);
    }
}

/// The open edges of shaped edges are shaped, and none ends in a blocked
/// vertice.
pub proof fn lemma_open_edges_shape(v: VerticeView, es: Seq<Edge>, to: VerticeView, p: ProblemView)
    requires
        edges_shaped(v, es, p),
    ensures
        edges_shaped(v, open_edges(es, to), p),
        forall|j: int|
            0 <= j < open_edges(es, to).len() ==> !blocked((#[trigger] open_edges(es, to)[j]).0, to),
    decreases es.len(),
{
    if es.len() > 0 {
        assert forall|j: int| 0 <= j < es.drop_last().len() implies edge_shape(
            v,
            #[trigger] es.drop_last()[j],
            p,
        ) by {
            assert(es.drop_last()[j] == es[j]);
        }
        lemma_open_edges_shape(v, es.drop_last(), to, p);
        assert(es.last() == es[es.len() - 1]);
    }
}

/// The edges that a search follows from a vertice of the universe are
/// shaped, and none ends in a blocked vertice.
pub proof fn lemma_search_edges_shape(
    v: VerticeView,
    p: ProblemView,
    values: Seq<Seq<i32>>,
    to: VerticeView,
)
    requires
        p.wf(),
        values_wf(values, p.bounds),
        in_universe(v.config, values),
    ensures
        edges_shaped(v, search_edges(v, p, values, to), p),
        forall|j: int|
            0 <= j < search_edges(v, p, values, to).len() ==> !blocked(
                (#[trigger] search_edges(v, p, values, to)[j]).0,
                to,
            ),
{
    lemma_step_edges_shape(v, p, values, p.d as int);
    let steps = step_edges(v, p, values, p.d as int);
    let es = edges(v, p, values);
    match v.phase {
        Phase::PoweringUp => {
            let hit = optional(hit_edge(v, p));
            assert forall|j: int| 0 <= j < es.len() implies edge_shape(v, #[trigger] es[j], p) by {
                if j < hit.len() {
                    assert(es[j] == hit[j]);
                } else {
                    assert(es[j] == steps[j - hit.len()]);
                }
            }
        },
        Phase::PoweringDown => {
            let next = optional(next_edge(v, p));
            assert forall|j: int| 0 <= j < es.len() implies edge_shape(v, #[trigger] es[j], p) by {
                if j < steps.len() {
                    assert(es[j] == steps[j]);
                } else {
                    assert(es[j] == next[j - steps.len()]);
                    assert forall|k: int| 0 <= k < v.config.len() implies #[trigger] v.config[k]
                        <= v.config[k] by {}
                }
            }
        },
    }
    lemma_open_edges_shape(v, es, to, p);
}

/// Raising to the levels one is at costs nothing.
pub proof fn lemma_raise_cost_none(s: Seq<u64>, y: Seq<i32>, n: int)
    ensures
        raise_cost(s, y, y, n) == 0,
    decreases n,
{
    if n > 0 {
        lemma_raise_cost_none(s, y, n - 1);
        assert(s[n - 1] * pos(0) == 0);
    }
}

/// The choice of a path with one more vertice: the choice so far, or the
/// configuration of the new vertice where it is the first to power down.
pub proof fn lemma_first_down_push(path: Seq<VerticeView>, v: VerticeView)
    ensures
        first_down(path.push(v)) == match first_down(path) {
            Some(x) => Some(x),
            None => if v.phase == Phase::PoweringDown {
                Some(v.config)
            } else {
                None
            },
        },
    decreases path.len(),
{
    let longer = path.push(v);
    if path.len() == 0 {
        assert(longer[0] == v);
        assert(longer.drop_first().len() == 0);
        assert(first_down(longer.drop_first()).is_none());
        assert(first_down(path).is_none());
    } else {
        assert(longer[0] == path[0]);
        assert(longer.drop_first() =~= path.drop_first().push(v));
        lemma_first_down_push(path.drop_first(), v);
    }
}

/// What holds at vertice `i` of a path from a vertice that is powering up
/// toward the next layer. Before the path powers down it has raised the
/// levels of its start to those of the vertice, at that cost. From then on
/// the configuration chosen lies above the start and above the vertice,
/// the path has paid for raising the start to it and for its hitting cost,
/// and the vertice is powering down in the layer of the start or is the
/// target in the next layer.
pub open spec fn walk_state(
    path: Seq<VerticeView>,
    p: ProblemView,
    values: Seq<Seq<i32>>,
    target: VerticeView,
    i: int,
) -> bool {
    let from = path[0];
    let v = path[i];
    let walked = walk_cost(path, p, values, target, i);
    match first_down(path.take(i + 1)) {
        None => v.phase == Phase::PoweringUp && v.t == from.t && below(from.config, v.config)
            && walked == raise_cost(p.switching_cost, from.config, v.config, p.d as int),
        Some(x) => below(from.config, x) && below(v.config, x) && (match p.hitting(from.t, x) {
            Some(h) => raise_cost(p.switching_cost, from.config, x, p.d as int) + h <= walked,
            None => false,
        }) && ((v.phase == Phase::PoweringDown && v.t == from.t) || v == target),
    }
}

/// The state of a walk holds at every vertice of a linked path.
pub proof fn lemma_walk_state(
    path: Seq<VerticeView>,
    p: ProblemView,
    values: Seq<Seq<i32>>,
    target: VerticeView,
    i: int,
)
    requires
        p.wf(),
        values_wf(values, p.bounds),
        path.len() >= 1,
        path[0].phase == Phase::PoweringUp,
        in_universe(path[0].config, values),
        1 <= path[0].t <= p.t_end,
        target.t == path[0].t + 1,
        target.phase == Phase::PoweringUp,
        linked(path, p, values, target),
        0 <= i < path.len(),
    ensures
        walk_state(path, p, values, target, i),
    decreases i,
{
    let from = path[0];
    if i == 0 {
        assert(path.take(1) =~= Seq::<VerticeView>::empty().push(from));
        lemma_first_down_push(Seq::<VerticeView>::empty(), from);
        lemma_raise_cost_none(p.switching_cost, from.config, p.d as int);
        assert forall|k: int| 0 <= k < from.config.len() implies #[trigger] from.config[k]
            <= from.config[k] by {}
    } else {
        lemma_walk_state(path, p, values, target, i - 1);
        lemma_path_in_universe(path, p, values, target, i - 1);
        let v = path[i - 1];
        let w = path[i];
        let es = search_edges(v, p, values, target);
        lemma_search_edges_shape(v, p, values, target);
        assert(follows(es, path[i - 1 + 1]));
        lemma_least_edge(es, w);
        let c = least_edge(es, w).unwrap();
        let j = choose|j: int| 0 <= j < es.len() && #[trigger] es[j] == (w, c);
        assert(edge_shape(v, es[j], p));
        assert(!blocked(es[j].0, target));
        assert(path.take(i + 1) =~= path.take(i).push(w));
        lemma_first_down_push(path.take(i), w);
        let walked = walk_cost(path, p, values, target, i - 1);
        assert(walk_cost(path, p, values, target, i) == walked + c);
        match first_down(path.take(i)) {
            None => {
                if w.phase == Phase::PoweringDown {
                } else {
                    lemma_raise_cost_adds(
                        p.switching_cost,
                        from.config,
                        v.config,
                        w.config,
                        p.d as int,
                    );
                    assert forall|k: int| 0 <= k < from.config.len() implies #[trigger] from.config[k]
                        <= w.config[k] by {
                        assert(from.config[k] <= v.config[k]);
                        assert(v.config[k] <= w.config[k]);
                    }
                }
            },
            Some(x) => {
                if v.phase == Phase::PoweringDown && v.t == from.t {
                    assert forall|k: int| 0 <= k < w.config.len() implies #[trigger] w.config[k]
                        <= x[k] by {
                        assert(w.config[k] <= v.config[k]);
                        assert(v.config[k] <= x[k]);
                    }
                } else {
                    assert(v == target);
                    assert(blocked(w, target));
                }
            },
        }
    }
}

/// A linked path from a vertice that is powering up to the target in the
/// next layer, or to a vertice that is powering down in its own layer,
/// chooses a configuration above its start and its end, and its edges cost
/// at least what raising the start to that configuration costs together
/// with the hitting cost of the configuration.
pub proof fn lemma_subpath_cost(
    path: Seq<VerticeView>,
    p: ProblemView,
    values: Seq<Seq<i32>>,
    target: VerticeView,
)
    requires
        p.wf(),
        values_wf(values, p.bounds),
        path.len() >= 1,
        path[0].phase == Phase::PoweringUp,
        in_universe(path[0].config, values),
        1 <= path[0].t <= p.t_end,
        target.t == path[0].t + 1,
        target.phase == Phase::PoweringUp,
        linked(path, p, values, target),
        path.last() == target || (path.last().phase == Phase::PoweringDown && path.last().t
            == path[0].t),
    ensures
        match first_down(path) {
            Some(x) => below(path[0].config, x) && below(path.last().config, x) && (match p.hitting(
                path[0].t,
                x,
            ) {
                Some(h) => raise_cost(p.switching_cost, path[0].config, x, p.d as int) + h
                    <= walk_cost(path, p, values, target, path.len() - 1),
                None => false,
            }),
            None => false,
        },
{
    lemma_walk_state(path, p, values, target, path.len() - 1);
    assert(path.take(path.len() as int) =~= path);
}

/// The least cost of an edge that ends in `w` is at most the cost of each
/// edge that ends there.
pub proof fn lemma_least_edge_least(es: Seq<Edge>, j: int)
    requires
        0 <= j < es.len(),
    ensures
        match least_edge(es, es[j].0) {
            Some(c) => c <= es[j].1,
            None => false,
        },
    decreases es.len(),
{
    if j < es.len() - 1 {
        assert(es.drop_last()[j] == es[j]);
        lemma_least_edge_least(es.drop_last(), j);
    } else {
        assert(es.last() == es[j]);
    }
}

/// What the first edges of a path cost does not depend on a later vertice.
pub proof fn lemma_walk_cost_prefix(
    path: Seq<VerticeView>,
    u: VerticeView,
    p: ProblemView,
    values: Seq<Seq<i32>>,
    target: VerticeView,
    n: int,
)
    requires
        0 <= n < path.len(),
    ensures
        walk_cost(path.push(u), p, values, target, n) == walk_cost(path, p, values, target, n),
    decreases n,
{
    if n > 0 {
        lemma_walk_cost_prefix(path, u, p, values, target, n - 1);
        assert(path.push(u)[n - 1] == path[n - 1]);
        assert(path.push(u)[n] == path[n]);
    }
}

/// Raising to `x` costs at most raising to `w` and from there to `x`.
pub proof fn lemma_raise_cost_triangle(s: Seq<u64>, v: Seq<i32>, w: Seq<i32>, x: Seq<i32>, n: int)
    requires
        v.len() == w.len(),
        w.len() == x.len(),
        0 <= n <= v.len(),
    ensures
        0 <= raise_cost(s, v, x, n) <= raise_cost(s, v, w, n) + raise_cost(s, w, x, n),
    decreases n,
{
    if n > 0 {
        lemma_raise_cost_triangle(s, v, w, x, n - 1);
        let c = s[n - 1] as int;
        let p1 = pos(x[n - 1] - v[n - 1]);
        let p2 = pos(w[n - 1] - v[n - 1]);
        let p3 = pos(x[n - 1] - w[n - 1]);
        assert(0 <= c * p1 <= c * p2 + c * p3) by (nonlinear_arith)
            requires
                0 <= c,
                0 <= p1 <= p2 + p3,
        ;
    }
}

/// Along an edge the cost of raising to `x` falls by at most the cost of
/// the edge.
pub proof fn lemma_edge_consistent(v: VerticeView, e: Edge, p: ProblemView, x: Seq<i32>)
    requires
        edge_shape(v, e, p),
        v.config.len() == p.d,
        e.0.config.len() == p.d,
        x.len() == p.d,
    ensures
        raise_cost(p.switching_cost, v.config, x, p.d as int) <= e.1 + raise_cost(
            p.switching_cost,
            e.0.config,
            x,
            p.d as int,
        ),
{
    let d = p.d as int;
    lemma_raise_cost_triangle(p.switching_cost, v.config, e.0.config, x, d);
    if v.phase == Phase::PoweringDown && e.0.phase == Phase::PoweringDown {
        lemma_raise_cost_from_above(p.switching_cost, e.0.config, v.config, x, d);
    }
}

/// What is left to raise at the start of a linked path is at most what the
/// first `i` edges cost and what is left to raise after them.
pub proof fn lemma_estimate_consistent(
    path: Seq<VerticeView>,
    p: ProblemView,
    values: Seq<Seq<i32>>,
    target: VerticeView,
    i: int,
)
    requires
        p.wf(),
        values_wf(values, p.bounds),
        path.len() >= 1,
        in_universe(path[0].config, values),
        1 <= path[0].t <= p.t_end,
        target.config.len() == p.d,
        linked(path, p, values, target),
        0 <= i < path.len(),
    ensures
        raise_cost(p.switching_cost, path[0].config, target.config, p.d as int) <= walk_cost(
            path,
            p,
            values,
            target,
            i,
        ) + raise_cost(p.switching_cost, path[i].config, target.config, p.d as int),
    decreases i,
{
    if i > 0 {
        lemma_estimate_consistent(path, p, values, target, i - 1);
        lemma_path_in_universe(path, p, values, target, i - 1);
        lemma_path_in_universe(path, p, values, target, i);
        let v = path[i - 1];
        let w = path[i];
        let es = search_edges(v, p, values, target);
        lemma_search_edges_shape(v, p, values, target);
        assert(follows(es, path[i - 1 + 1]));
        lemma_least_edge(es, w);
        let c = least_edge(es, w).unwrap();
        let j = choose|j: int| 0 <= j < es.len() && #[trigger] es[j] == (w, c);
        assert(edge_shape(v, es[j], p));
        lemma_edge_consistent(v, es[j], p, target.config);
    }
}

} // verus!

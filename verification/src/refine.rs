//! Schedules for homogeneous problems by refinement: a shortest path over
//! a coarse grid of numbers of servers, and then shortest paths over ever
//! finer grids around the schedule found before.

use vstd::prelude::*;
use pathfinding::prelude::dijkstra;
use crate::config::rows;
use crate::hom::{next_pow2, DiscreteHomProblem, HomView};
use crate::objective::{hom_objective, servers_before};
use crate::vertice::pos;

verus! {

/// A vertice: a time step, zero for the start, and a number of servers.
pub type Node = (i32, i32);

/// The cost of moving from `i` to `j` servers for time step `t`: the
/// switching cost of each server powered up, and the cost of `j` servers
/// at `t`.
pub open spec fn step_cost(p: HomView, t: int, i: int, j: int) -> int {
    p.beta * pos(j - i) + p.cost(t, j).unwrap()
}

/// For each time step a list of numbers of servers within the problem's.
pub open spec fn levels_wf(allowed: Seq<Seq<i32>>, p: HomView) -> bool {
    &&& allowed.len() == p.t_end
    &&& forall|t: int, k: int|
        0 <= t < allowed.len() && 0 <= k < allowed[t].len() ==> 0 <= #[trigger] allowed[t][k]
            <= p.m
}

/// The edges of a vertice before the end of the horizon: to each allowed
/// number of servers of the next time step, at the cost of the step.
pub open spec fn hom_edges(p: HomView, allowed: Seq<Seq<i32>>, v: Node) -> Seq<(Node, u128)> {
    if 0 <= v.0 < p.t_end && 0 <= v.1 <= p.m {
        Seq::new(
            allowed[v.0 as int].len(),
            |k: int|
                (
                    ((v.0 + 1) as i32, allowed[v.0 as int][k]),
                    step_cost(p, v.0 + 1, v.1 as int, allowed[v.0 as int][k] as int) as u128,
                ),
        )
    } else {
        Seq::empty()
    }
}

/// Computes the cost of moving from `i` to `j` servers for time step `t`.
pub fn build_cost(p: &DiscreteHomProblem, t: i32, i: i32, j: i32) -> (r: u128)
    requires
        p@.wf(),
        1 <= t <= p@.t_end,
        0 <= i <= p@.m,
        0 <= j <= p@.m,
    ensures
        r == step_cost(p@, t as int, i as int, j as int),
{
    assert(p@.cost(t as int, j as int).is_some());
    let f: u64 = match p.cost(t, j) {
        Some(f) => f,
        None => 0,
    };
    let up: u64 = if j > i {
        (j - i) as u64
    } else {
        0
    };
    assert(0 <= p.beta * up <= 0xffff_ffff_ffff_ffff * 0x4000_0000) by (nonlinear_arith)
        requires
            0 <= p.beta <= 0xffff_ffff_ffff_ffff,
            0 <= up <= 0x4000_0000,
    ;
    p.beta as u128 * up as u128 + f as u128
}

/// A step costs less than two to the power of 95.
pub proof fn lemma_step_cost_bounded(p: HomView, t: int, i: int, j: int)
    requires
        p.wf(),
        1 <= t <= p.t_end,
        0 <= i <= p.m,
        0 <= j <= p.m,
    ensures
        0 <= step_cost(p, t, i, j) < 0x8000_0000_0000_0000_0000_0000,
{
    assert(p.cost(t, j).is_some());
    let up = pos(j - i);
    assert(0 <= p.beta * up <= 0xffff_ffff_ffff_ffff * 0x4000_0000) by (nonlinear_arith)
        requires
            0 <= p.beta <= 0xffff_ffff_ffff_ffff,
            0 <= up <= 0x4000_0000,
    ;
}

/// The neighbours of a vertice with the cost of each move.
pub fn build_neighbors(p: &DiscreteHomProblem, allowed: &Vec<Vec<i32>>, v: &Node) -> (r: Vec<
    (Node, u128),
>)
    requires
        p@.wf(),
        levels_wf(rows(allowed@), p@),
    ensures
        r@ == hom_edges(p@, rows(allowed@), *v),
{
    let mut out: Vec<(Node, u128)> = Vec::new();
    if v.0 < 0 || v.0 >= p.t_end || v.1 < 0 || v.1 > p.m {
        assert(out@ =~= hom_edges(p@, rows(allowed@), *v));
        return out;
    }
    let row = &allowed[v.0 as usize];
    assert(rows(allowed@)[v.0 as int] == row@);
    let mut k: usize = 0;
    while k < row.len()
        invariant
            k <= row.len(),
            p@.wf(),
            levels_wf(rows(allowed@), p@),
            0 <= v.0 < p.t_end,
            0 <= v.1 <= p.m,
            rows(allowed@)[v.0 as int] == row@,
            out.len() == k,
            forall|i: int| 0 <= i < k ==> #[trigger] out@[i] == hom_edges(p@, rows(allowed@), *v)[i],
        decreases row.len() - k,
    {
        assert(0 <= rows(allowed@)[v.0 as int][k as int] <= p.m);
        let j: i32 = row[k];
        proof {
            lemma_step_cost_bounded(p@, v.0 + 1, v.1 as int, j as int);
        }
        out.push(((v.0 + 1, j), build_cost(p, v.0 + 1, v.1, j)));
        k = k + 1;
    }
    assert(out@ =~= hom_edges(p@, rows(allowed@), *v));
    out
}

/// Tells whether the vertice lies at the end of the horizon.
pub fn is_end(p: &DiscreteHomProblem, v: &Node) -> (r: bool)
    ensures
        r == (v.0 == p@.t_end),
{
    v.0 == p.t_end
}

/// One of the edges ends in `w`.
pub open spec fn leads(es: Seq<(Node, u128)>, w: Node) -> bool {
    exists|k: int| 0 <= k < es.len() && (#[trigger] es[k]).0 == w
}

/// Each vertice of the path but the first is a neighbour of the vertice
/// before it.
pub open spec fn hom_linked(path: Seq<Node>, p: HomView, allowed: Seq<Seq<i32>>) -> bool {
    forall|i: int|
        0 <= i < path.len() - 1 ==> leads(hom_edges(p, allowed, #[trigger] path[i]), path[i + 1])
}

/// The path leads from `start` to the end of the horizon.
pub open spec fn hom_route(path: Seq<Node>, start: Node, p: HomView, allowed: Seq<Seq<i32>>) -> bool {
    path.len() >= 1 && path[0] == start && path.last().0 == p.t_end && hom_linked(path, p, allowed)
}

/// What the first `n` edges of the path cost together. All edges from one
/// vertice to another cost the same: the cost of the step.
pub open spec fn hom_walk(path: Seq<Node>, p: HomView, n: int) -> int
    decreases n,
{
    if n <= 0 {
        0
    } else {
        hom_walk(path, p, n - 1) + step_cost(
            p,
            path[n].0 as int,
            path[n - 1].1 as int,
            path[n].1 as int,
        )
    }
}

/// No path from `start` to the end of the horizon costs less than `c`.
pub open spec fn hom_cheapest(c: int, start: Node, p: HomView, allowed: Seq<Seq<i32>>) -> bool {
    forall|path: Seq<Node>| #[trigger]
        hom_route(path, start, p, allowed) ==> c <= hom_walk(path, p, path.len() - 1)
}

/// The outcome of the shortest-path search from `start` to the end of the
/// horizon over the allowed numbers of servers.
pub uninterp spec fn shortest_schedule(p: HomView, allowed: Seq<Seq<i32>>, start: (i32, i32)) -> Option<
    (Seq<(i32, i32)>, u128)
>;

/// The outcome of a search as plain values.
pub open spec fn search_view(r: Option<(Vec<Node>, u128)>) -> Option<(Seq<(i32, i32)>, u128)> {
    match r {
        Some(found) => Some((found.0@, found.1)),
        None => None,
    }
}

/// Runs `pathfinding::prelude::dijkstra` from `start`, with
/// [`build_neighbors`] as successors and [`is_end`] as success test.
///
/// Believed of `dijkstra`, not proved: its result is determined by its
/// arguments; a returned path starts at the start vertice, ends in a
/// vertice that passes the success test, and continues from each vertice
/// to one of the successors that were computed for it; the returned cost
/// is at least what the edges of the returned path cost together, and at
/// most what the edges of any such path to a vertice that passes the test
/// cost together; nothing is returned only where no such path leads from
/// the start to a vertice that passes the test. For the cost of the
/// returned path: the cost that `dijkstra` records for a vertice is the
/// cost recorded for its parent when the parent was expanded, plus the cost
/// of the edge; later the parent's cost can only fall, and the recorded
/// cost of the start is zero.
///
/// `dijkstra` adds the costs of the edges of one path. A path has at most
/// one edge for each time step, each at a cost of less than two to the
/// power of 95, so no sum overflows.
#[verifier::external_body]
fn dijkstra_path(p: &DiscreteHomProblem, allowed: &Vec<Vec<i32>>, start: &Node) -> (r: Option<
    (Vec<Node>, u128),
>)
    requires
        p@.wf(),
        levels_wf(rows(allowed@), p@),
    ensures
        search_view(r) == shortest_schedule(p@, rows(allowed@), *start),
        r matches Some(found) ==> hom_route(found.0@, *start, p@, rows(allowed@)),
        r matches Some(found) ==> hom_walk(found.0@, p@, found.0@.len() - 1) <= found.1
            && hom_cheapest(found.1 as int, *start, p@, rows(allowed@)),
        r.is_none() ==> forall|path: Seq<Node>| !#[trigger] hom_route(
            path,
            *start,
            p@,
            rows(allowed@),
        ),
{
    dijkstra(start, |v: &Node| build_neighbors(p, allowed, v), |v: &Node| is_end(p, v))
}

/// Each list of allowed numbers of servers holds one.
pub open spec fn levels_open(allowed: Seq<Seq<i32>>) -> bool {
    forall|t: int| 0 <= t < allowed.len() ==> (#[trigger] allowed[t]).len() >= 1
}

/// The path over the first allowed number of servers of each time step.
pub open spec fn first_path(allowed: Seq<Seq<i32>>) -> Seq<Node> {
    Seq::new(
        (allowed.len() + 1) as nat,
        |i: int|
            if i == 0 {
                (0i32, 0i32)
            } else {
                (i as i32, allowed[i - 1][0])
            },
    )
}

/// Where each time step allows a number of servers, a path leads from the
/// start to the end of the horizon.
pub proof fn lemma_first_path(p: HomView, allowed: Seq<Seq<i32>>)
    requires
        p.wf(),
        levels_wf(allowed, p),
        levels_open(allowed),
    ensures
        hom_route(first_path(allowed), (0i32, 0i32), p, allowed),
{
    let path = first_path(allowed);
    assert forall|i: int| 0 <= i < path.len() - 1 implies leads(
        hom_edges(p, allowed, #[trigger] path[i]),
        path[i + 1],
    ) by {
        if i > 0 {
            assert(0 <= allowed[i - 1][0] <= p.m);
        }
        assert(allowed[i].len() >= 1);
        assert(hom_edges(p, allowed, path[i])[0].0 == path[i + 1]);
    }
}

/// Vertice `i` of a path from the start lies at time step `i`, and from
/// the first time step on at an allowed number of servers.
pub proof fn lemma_route_steps(path: Seq<Node>, p: HomView, allowed: Seq<Seq<i32>>, i: int)
    requires
        p.wf(),
        levels_wf(allowed, p),
        path.len() >= 1,
        path[0] == (0i32, 0i32),
        hom_linked(path, p, allowed),
        0 <= i < path.len(),
    ensures
        path[i].0 == i,
        i <= p.t_end,
        i >= 1 ==> allowed[i - 1].contains(path[i].1),
        0 <= path[i].1 <= p.m,
    decreases i,
{
    if i > 0 {
        lemma_route_steps(path, p, allowed, i - 1);
        let v = path[i - 1];
        let es = hom_edges(p, allowed, v);
        assert(leads(es, path[i - 1 + 1]));
        let k = choose|k: int| 0 <= k < es.len() && (#[trigger] es[k]).0 == path[i];
        assert(0 <= allowed[i - 1][k] <= p.m);
        assert(allowed[i - 1][k] == path[i].1);
    }
}

/// The numbers of servers of a path after its start.
pub open spec fn schedule_of(path: Seq<Node>) -> Seq<i32> {
    Seq::new((path.len() - 1) as nat, |i: int| path[i + 1].1)
}

/// Each number of servers of the schedule is allowed at its time step.
pub open spec fn follows_levels(xs: Seq<i32>, allowed: Seq<Seq<i32>>) -> bool {
    &&& xs.len() == allowed.len()
    &&& forall|t: int| 0 <= t < xs.len() ==> allowed[t].contains(#[trigger] xs[t])
}

/// The edges of a path from the start cost what its schedule costs.
pub proof fn lemma_walk_is_objective(path: Seq<Node>, p: HomView, allowed: Seq<Seq<i32>>, n: int)
    requires
        p.wf(),
        levels_wf(allowed, p),
        path.len() >= 1,
        path[0] == (0i32, 0i32),
        hom_linked(path, p, allowed),
        0 <= n < path.len(),
    ensures
        hom_walk(path, p, n) == hom_objective(p, schedule_of(path), false, n),
    decreases n,
{
    if n > 0 {
        lemma_walk_is_objective(path, p, allowed, n - 1);
        lemma_route_steps(path, p, allowed, n);
        lemma_route_steps(path, p, allowed, n - 1);
        let xs = schedule_of(path);
        assert(xs[n - 1] == path[n].1);
        if n >= 2 {
            assert(xs[n - 2] == path[n - 1].1);
        }
        assert(servers_before(xs, n) == path[n - 1].1);
    }
}

/// The path from the start over a schedule.
pub open spec fn path_of(xs: Seq<i32>) -> Seq<Node> {
    Seq::new(
        (xs.len() + 1) as nat,
        |i: int|
            if i == 0 {
                (0i32, 0i32)
            } else {
                (i as i32, xs[i - 1])
            },
    )
}

/// A schedule over the allowed numbers of servers gives a path from the
/// start to the end of the horizon.
pub proof fn lemma_path_of(xs: Seq<i32>, p: HomView, allowed: Seq<Seq<i32>>)
    requires
        p.wf(),
        levels_wf(allowed, p),
        follows_levels(xs, allowed),
    ensures
        hom_route(path_of(xs), (0i32, 0i32), p, allowed),
        schedule_of(path_of(xs)) == xs,
{
    let path = path_of(xs);
    assert forall|i: int| 0 <= i < path.len() - 1 implies leads(
        hom_edges(p, allowed, #[trigger] path[i]),
        path[i + 1],
    ) by {
        if i > 0 {
            let before = allowed[i - 1];
            assert(before.contains(xs[i - 1]));
            let a = choose|a: int| 0 <= a < before.len() && before[a] == xs[i - 1];
            assert(0 <= allowed[i - 1][a] <= p.m);
        }
        let row = allowed[i];
        assert(row.contains(xs[i]));
        let k = choose|k: int| 0 <= k < row.len() && row[k] == xs[i];
        assert(hom_edges(p, allowed, path[i])[k].0 == path[i + 1]);
    }
    assert(schedule_of(path) =~= xs);
}

/// Finds the schedule of a shortest path from no servers before the first
/// time step to the end of the horizon over the allowed numbers of
/// servers: a schedule over these numbers of least objective.
pub fn find_schedule(p: &DiscreteHomProblem, allowed: &Vec<Vec<i32>>) -> (xs: Vec<i32>)
    requires
        p@.wf(),
        levels_wf(rows(allowed@), p@),
        levels_open(rows(allowed@)),
    ensures
        shortest_schedule(p@, rows(allowed@), (0i32, 0i32)) matches Some(found) && xs@
            == schedule_of(found.0),
        follows_levels(xs@, rows(allowed@)),
        xs.len() == p@.t_end,
        forall|t: int| 0 <= t < xs.len() ==> 0 <= #[trigger] xs[t] <= p@.m,
        forall|ys: Seq<i32>| #[trigger]
            follows_levels(ys, rows(allowed@)) ==> hom_objective(p@, xs@, false, p@.t_end)
                <= hom_objective(p@, ys, false, p@.t_end),
{
    let start: Node = (0, 0);
    let result = dijkstra_path(p, allowed, &start);
    proof {
        lemma_first_path(p@, rows(allowed@));
    }
    let mut xs: Vec<i32> = Vec::new();
    match result {
        Some(found) => {
            let path = found.0;
            proof {
                lemma_route_steps(path@, p@, rows(allowed@), path@.len() - 1);
            }
            let mut i: usize = 1;
            while i < path.len()
                invariant
                    1 <= i <= path.len(),
                    p@.wf(),
                    levels_wf(rows(allowed@), p@),
                    hom_route(path@, (0i32, 0i32), p@, rows(allowed@)),
                    path.len() == p@.t_end + 1,
                    xs.len() == i - 1,
                    forall|t: int| 0 <= t < i - 1 ==> #[trigger] xs@[t] == path@[t + 1].1,
                    forall|t: int|
                        0 <= t < i - 1 ==> 0 <= #[trigger] xs@[t] <= p@.m && rows(
                            allowed@,
                        )[t].contains(xs@[t]),
                decreases path.len() - i,
            {
                proof {
                    lemma_route_steps(path@, p@, rows(allowed@), i as int);
                }
                xs.push(path[i].1);
                i = i + 1;
            }
            assert(xs@ =~= schedule_of(path@));
            proof {
                lemma_walk_is_objective(path@, p@, rows(allowed@), path@.len() - 1);
                assert forall|ys: Seq<i32>| #[trigger]
                    follows_levels(ys, rows(allowed@)) implies hom_objective(
                    p@,
                    xs@,
                    false,
                    p@.t_end,
                ) <= hom_objective(p@, ys, false, p@.t_end) by {
                    lemma_path_of(ys, p@, rows(allowed@));
                    let q = path_of(ys);
                    lemma_walk_is_objective(q, p@, rows(allowed@), q.len() - 1);
                }
            }
        },
        None => {
            assert(hom_route(first_path(rows(allowed@)), (0i32, 0i32), p@, rows(allowed@)));
        },
    }
    xs
}

/// The number of servers `v` where it lies within the problem's.
pub open spec fn level_if(v: int, m: int) -> Seq<i32> {
    if 0 <= v <= m {
        seq![v as i32]
    } else {
        Seq::empty()
    }
}

/// The coarse grid: the quarters of `m2`, as far as they lie within `m`.
pub open spec fn grid(m2: int, m: int) -> Seq<i32> {
    level_if(0, m) + level_if(m2 / 4, m) + level_if(2 * m2 / 4, m) + level_if(3 * m2 / 4, m)
}

/// The numbers of servers around `center` at a distance of up to two
/// steps below and one step above, as far as they lie within `m`.
pub open spec fn around(center: int, step: int, m: int) -> Seq<i32> {
    level_if(center - 2 * step, m) + level_if(center - step, m) + level_if(center, m) + level_if(
        center + step,
        m,
    )
}

/// Adds the number of servers `v` to the row where it lies within `m`.
fn push_level(row: &mut Vec<i32>, v: i64, m: i32)
    ensures
        final(row)@ == old(row)@ + level_if(v as int, m as int),
{
    if 0 <= v && v <= m as i64 {
        row.push(v as i32);
        assert(row@ =~= old(row)@ + level_if(v as int, m as int));
    } else {
        assert(row@ =~= old(row)@ + level_if(v as int, m as int));
    }
}

/// Allows at each time step the quarters of `m2`: the coarse grid over a
/// number of servers that is a power of two.
pub fn select_initial_neighbors(p: &DiscreteHomProblem, m2: i32) -> (allowed: Vec<Vec<i32>>)
    requires
        p@.wf(),
        0 <= m2 <= crate::hom::SERVER_LIMIT,
    ensures
        rows(allowed@) == Seq::new(p@.t_end as nat, |t: int| grid(m2 as int, p@.m)),
        levels_wf(rows(allowed@), p@),
        levels_open(rows(allowed@)),
{
    let mut allowed: Vec<Vec<i32>> = Vec::new();
    let mut t: i32 = 0;
    while t < p.t_end
        invariant
            0 <= t <= p.t_end,
            p@.wf(),
            0 <= m2 <= crate::hom::SERVER_LIMIT,
            allowed.len() == t,
            forall|s: int| 0 <= s < t ==> (#[trigger] allowed@[s])@ == grid(m2 as int, p@.m),
        decreases p.t_end - t,
    {
        let mut row: Vec<i32> = Vec::new();
        push_level(&mut row, 0, p.m);
        push_level(&mut row, (m2 / 4) as i64, p.m);
        push_level(&mut row, 2 * (m2 as i64) / 4, p.m);
        push_level(&mut row, 3 * (m2 as i64) / 4, p.m);
        assert(row@ =~= grid(m2 as int, p@.m));
        allowed.push(row);
        t = t + 1;
    }
    assert(rows(allowed@) =~= Seq::new(p@.t_end as nat, |t: int| grid(m2 as int, p@.m)));
    assert forall|t: int, k: int|
        0 <= t < rows(allowed@).len() && 0 <= k < rows(allowed@)[t].len() implies 0
        <= #[trigger] rows(allowed@)[t][k] <= p@.m by {
        lemma_four_levels(0, m2 as int / 4, 2 * m2 as int / 4, 3 * m2 as int / 4, p@.m, k);
    }
    assert forall|t: int| 0 <= t < rows(allowed@).len() implies (#[trigger] rows(
        allowed@,
    )[t]).len() >= 1 by {
        assert(level_if(0, p@.m).len() == 1);
    }
    allowed
}

/// Each of up to four levels that lie within `m` lies within `m`.
pub proof fn lemma_four_levels(a: int, b: int, c: int, d: int, m: int, k: int)
    requires
        m <= i32::MAX,
        0 <= k < (level_if(a, m) + level_if(b, m) + level_if(c, m) + level_if(d, m)).len(),
    ensures
        0 <= (level_if(a, m) + level_if(b, m) + level_if(c, m) + level_if(d, m))[k] <= m,
{
    let la = level_if(a, m);
    let lb = level_if(b, m);
    let lc = level_if(c, m);
    let ld = level_if(d, m);
    let all = la + lb + lc + ld;
    if k < la.len() {
        assert(all[k] == la[k]);
        assert(la[0] == a as i32);
    } else if k < la.len() + lb.len() {
        assert(all[k] == lb[k - la.len()]);
        assert(lb[0] == b as i32);
    } else if k < la.len() + lb.len() + lc.len() {
        assert(all[k] == lc[k - la.len() - lb.len()]);
        assert(lc[0] == c as i32);
    } else {
        assert(all[k] == ld[k - la.len() - lb.len() - lc.len()]);
        assert(ld[0] == d as i32);
    }
}

/// The levels around each number of servers of a schedule.
pub open spec fn around_all(xs: Seq<i32>, step: int, m: int) -> Seq<Seq<i32>> {
    Seq::new(xs.len(), |t: int| around(xs[t] as int, step, m))
}

/// Allows at each time step the numbers of servers around that of the
/// schedule, at a distance of up to two steps below and one step above.
pub fn select_next_neighbors(p: &DiscreteHomProblem, xs: &Vec<i32>, step: i32) -> (allowed: Vec<
    Vec<i32>,
>)
    requires
        p@.wf(),
        xs.len() == p@.t_end,
        forall|t: int| 0 <= t < xs.len() ==> 0 <= #[trigger] xs[t] <= p@.m,
        1 <= step <= crate::hom::SERVER_LIMIT,
    ensures
        rows(allowed@) == around_all(xs@, step as int, p@.m),
        levels_wf(rows(allowed@), p@),
        levels_open(rows(allowed@)),
{
    let mut allowed: Vec<Vec<i32>> = Vec::new();
    let mut t: usize = 0;
    while t < xs.len()
        invariant
            t <= xs.len(),
            p@.wf(),
            xs.len() == p@.t_end,
            forall|s: int| 0 <= s < xs.len() ==> 0 <= #[trigger] xs[s] <= p@.m,
            1 <= step <= crate::hom::SERVER_LIMIT,
            allowed.len() == t,
            forall|s: int|
                0 <= s < t ==> (#[trigger] allowed@[s])@ == around(xs[s] as int, step as int, p@.m),
        decreases xs.len() - t,
    {
        assert(0 <= xs[t as int] <= p@.m);
        let center: i64 = xs[t] as i64;
        let mut row: Vec<i32> = Vec::new();
        push_level(&mut row, center - 2 * step as i64, p.m);
        push_level(&mut row, center - step as i64, p.m);
        push_level(&mut row, center, p.m);
        push_level(&mut row, center + step as i64, p.m);
        assert(row@ =~= around(xs[t as int] as int, step as int, p@.m));
        allowed.push(row);
        t = t + 1;
    }
    assert(rows(allowed@) =~= around_all(xs@, step as int, p@.m));
    assert forall|t: int, k: int|
        0 <= t < rows(allowed@).len() && 0 <= k < rows(allowed@)[t].len() implies 0
        <= #[trigger] rows(allowed@)[t][k] <= p@.m by {
        let c = xs[t] as int;
        lemma_four_levels(c - 2 * step, c - step, c, c + step, p@.m, k);
    }
    assert forall|t: int| 0 <= t < rows(allowed@).len() implies (#[trigger] rows(
        allowed@,
    )[t]).len() >= 1 by {
        assert(0 <= xs[t] <= p@.m);
        assert(level_if(xs[t] as int, p@.m).len() == 1);
    }
    allowed
}

/// The schedule of the shortest path over the allowed numbers of servers.
pub open spec fn round(p: HomView, allowed: Seq<Seq<i32>>) -> Seq<i32> {
    schedule_of(shortest_schedule(p, allowed, (0i32, 0i32)).unwrap().0)
}

/// The schedule after the rounds of refinement from `step` down to one,
/// the step halved from round to round.
pub open spec fn refined(p: HomView, xs: Seq<i32>, step: int) -> Seq<i32>
    decreases step,
{
    if step < 1 {
        xs
    } else {
        refined(p, round(p, around_all(xs, step, p.m)), step / 2)
    }
}

/// Finds a schedule by refinement. A shortest path over the quarters of
/// the next power of two of the number of servers gives the first
/// schedule; each further round searches a shortest path over the numbers
/// of servers around the schedule before, at half the distance, down to a
/// distance of one. Numbers of servers beyond that of the problem are not
/// taken.
pub fn alg1(p: &DiscreteHomProblem) -> (xs: Vec<i32>)
    requires
        p@.wf(),
        p@.t_end >= 1,
    ensures
        xs.len() == p@.t_end,
        forall|i: int| 0 <= i < xs.len() ==> 0 <= #[trigger] xs[i] <= p@.m,
        exists|m2: int|
            #[trigger] crate::hom::smallest_pow2(p@.m, m2) && xs@ == refined(
                p@,
                round(p@, Seq::new(p@.t_end as nat, |t: int| grid(m2, p@.m))),
                m2 / 8,
            ),
{
    let m2 = next_pow2(p.m);
    let initial = select_initial_neighbors(p, m2);
    let mut xs = find_schedule(p, &initial);
    let ghost first = xs@;
    let mut step: i32 = m2 / 8;
    while step >= 1
        invariant
            0 <= step <= crate::hom::SERVER_LIMIT,
            p@.wf(),
            xs.len() == p@.t_end,
            forall|i: int| 0 <= i < xs.len() ==> 0 <= #[trigger] xs[i] <= p@.m,
            refined(p@, xs@, step as int) == refined(p@, first, m2 as int / 8),
        decreases step,
    {
        let allowed = select_next_neighbors(p, &xs, step);
        xs = find_schedule(p, &allowed);
        step = step / 2;
    }
    assert(crate::hom::smallest_pow2(p@.m, m2 as int));
    xs
}

} // verus!

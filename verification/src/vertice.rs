//! Vertices of the time-expanded configuration graph, their successors, and
//! the estimate that guides a search toward a vertex of the next layer.

use vstd::prelude::*;
use crate::config::{copy_config, rows, same_config, Config};
use crate::problem::{
    lemma_lookup_bounded, lemma_switching_term, lemma_switching_total_monotone, switching_total,
    Problem, ProblemView, STEP_LIMIT,
};
use crate::result::Failure;
use crate::values::increasing;

verus! {

/// The two phases of a time step: levels are first raised, at switching
/// cost, and then, once the hitting cost is paid, lowered for free.
#[derive(Clone, Copy, Debug, PartialEq, Eq, Hash, Structural)]
pub enum Phase {
    PoweringUp,
    PoweringDown,
}

/// Mathematical value of a [`Vertice`].
pub struct VerticeView {
    pub t: int,
    pub config: Seq<i32>,
    pub phase: Phase,
}

/// A vertice of the graph: a time layer, a configuration and a phase.
#[derive(Clone, Debug, PartialEq, Eq, Hash)]
pub struct Vertice {
    t: i32,
    config: Config,
    phase: Phase,
}

/// An estimate of the cost that remains to a goal.
#[derive(Clone, Copy, Debug, PartialEq, Eq, Structural)]
pub enum Estimate {
    Finite(u64),
    /// The goal cannot be reached.
    Infinite,
}

/// A successor with the cost of moving to it.
pub type Edge = (VerticeView, u64);

/// The edges of a list, each vertice taken by its view.
pub open spec fn edge_rows(v: Seq<(Vertice, u64)>) -> Seq<Edge> {
    Seq::new(v.len(), |i: int| (v[i].0@, v[i].1))
}

/// One sorted list of levels for each dimension, each level within the
/// dimension's bound.
pub open spec fn values_wf(values: Seq<Seq<i32>>, bounds: Seq<i32>) -> bool {
    &&& values.len() == bounds.len()
    &&& forall|k: int| 0 <= k < values.len() ==> increasing(#[trigger] values[k])
    &&& forall|k: int, i: int|
        0 <= k < values.len() && 0 <= i < values[k].len() ==> 0 <= #[trigger] values[k][i]
            <= bounds[k]
}

/// Each level of the configuration is a candidate of its dimension.
pub open spec fn in_universe(config: Seq<i32>, values: Seq<Seq<i32>>) -> bool {
    &&& config.len() == values.len()
    &&& forall|k: int| 0 <= k < config.len() ==> (#[trigger] values[k]).contains(config[k])
}

/// The first position of `x` in `vs`.
pub open spec fn position_of(vs: Seq<i32>, x: i32) -> Option<int>
    decreases vs.len(),
{
    if vs.len() == 0 {
        None
    } else {
        match position_of(vs.drop_last(), x) {
            Some(i) => Some(i),
            None => if vs.last() == x {
                Some(vs.len() - 1)
            } else {
                None
            },
        }
    }
}

/// `position_of` gives the first position that holds `x`, and none only
/// where no position does.
pub proof fn lemma_position_of(vs: Seq<i32>, x: i32)
    ensures
        match position_of(vs, x) {
            Some(i) => 0 <= i < vs.len() && vs[i] == x && forall|j: int|
                0 <= j < i ==> vs[j] != x,
            None => forall|j: int| 0 <= j < vs.len() ==> vs[j] != x,
        },
    decreases vs.len(),
{
    if vs.len() > 0 {
        lemma_position_of(vs.drop_last(), x);
        match position_of(vs.drop_last(), x) {
            Some(i) => {
                assert(vs.drop_last()[i] == vs[i]);
                assert forall|j: int| 0 <= j < i implies vs[j] != x by {
                    assert(vs.drop_last()[j] == vs[j]);
                }
            },
            None => {
                assert forall|j: int| 0 <= j < vs.len() - 1 implies vs[j] != x by {
                    assert(vs.drop_last()[j] == vs[j]);
                }
            },
        }
    }
}

/// Finds the first position of `x` in `vs`.
pub fn find_position(vs: &Vec<i32>, x: i32) -> (r: Option<usize>)
    ensures
        match r {
            Some(i) => position_of(vs@, x) == Some(i as int),
            None => position_of(vs@, x).is_none(),
        },
{
    proof {
        lemma_position_of(vs@, x);
    }
    let mut i: usize = 0;
    while i < vs.len()
        invariant
            i <= vs.len(),
            forall|j: int| 0 <= j < i ==> vs@[j] != x,
        decreases vs.len() - i,
    {
        if vs[i] == x {
            proof {
                lemma_position_of(vs@, x);
            }
            return Some(i);
        }
        i = i + 1;
    }
    proof {
        lemma_position_of(vs@, x);
    }
    None
}

/// The difference where it is positive, zero elsewhere.
pub open spec fn pos(x: int) -> int {
    if x > 0 {
        x
    } else {
        0
    }
}

/// Cost of raising the first `n` dimensions of `from` to the levels of `to`.
pub open spec fn raise_cost(switching_cost: Seq<u64>, from: Seq<i32>, to: Seq<i32>, n: int) -> int
    decreases n,
{
    if n <= 0 {
        0
    } else {
        raise_cost(switching_cost, from, to, n - 1) + switching_cost[n - 1] * pos(
            to[n - 1] - from[n - 1],
        )
    }
}

/// Each level lies between zero and its dimension's bound.
pub open spec fn in_bounds(config: Seq<i32>, bounds: Seq<i32>) -> bool {
    &&& config.len() == bounds.len()
    &&& forall|k: int| 0 <= k < config.len() ==> 0 <= #[trigger] config[k] <= bounds[k]
}

/// A configuration of the universe lies within the bounds.
pub proof fn lemma_universe_in_bounds(config: Seq<i32>, values: Seq<Seq<i32>>, bounds: Seq<i32>)
    requires
        values_wf(values, bounds),
        in_universe(config, values),
    ensures
        in_bounds(config, bounds),
{
    assert forall|k: int| 0 <= k < config.len() implies 0 <= #[trigger] config[k]
        <= bounds[k] by {
        assert(values[k].contains(config[k]));
        let i = choose|i: int| 0 <= i < values[k].len() && values[k][i] == config[k];
        assert(0 <= values[k][i] <= bounds[k]);
    }
}

/// Raising within the bounds costs at most the total of switching cost
/// times bound.
pub proof fn lemma_raise_cost_bounded(
    switching_cost: Seq<u64>,
    bounds: Seq<i32>,
    from: Seq<i32>,
    to: Seq<i32>,
    n: int,
)
    requires
        0 <= n <= bounds.len(),
        in_bounds(from, bounds),
        in_bounds(to, bounds),
    ensures
        0 <= raise_cost(switching_cost, from, to, n) <= switching_total(switching_cost, bounds, n),
    decreases n,
{
    if n > 0 {
        lemma_raise_cost_bounded(switching_cost, bounds, from, to, n - 1);
        let s = switching_cost[n - 1] as int;
        let x = pos(to[n - 1] - from[n - 1]);
        let b = bounds[n - 1] as int;
        assert(0 <= from[n - 1] <= bounds[n - 1]);
        assert(0 <= to[n - 1] <= bounds[n - 1]);
        assert(0 <= s * x <= s * b) by (nonlinear_arith)
            requires
                0 <= s,
                0 <= x <= b,
        ;
    }
}

impl View for Vertice {
    type V = VerticeView;

    closed spec fn view(&self) -> VerticeView {
        VerticeView { t: self.t as int, config: self.config@, phase: self.phase }
    }
}

/// The goal cannot be reached from `v`: `v` is another vertice of the
/// goal's layer, or it is powering down below a level of the goal.
pub open spec fn blocked(v: VerticeView, to: VerticeView) -> bool {
    ||| (v.t == to.t && v != to)
    ||| (v.phase == Phase::PoweringDown && exists|k: int|
        0 <= k < v.config.len() && #[trigger] v.config[k] < to.config[k])
}

/// The estimate from `v` to the goal `to`.
pub open spec fn spec_heuristic(v: VerticeView, to: VerticeView, p: ProblemView) -> Estimate {
    if blocked(v, to) {
        Estimate::Infinite
    } else {
        Estimate::Finite(raise_cost(p.switching_cost, v.config, to.config, p.d as int) as u64)
    }
}

/// The edge that changes dimension `k` to the neighbouring candidate level:
/// the next larger at its switching cost while powering up, the next
/// smaller for free while powering down.
pub open spec fn step_edge(v: VerticeView, p: ProblemView, values: Seq<Seq<i32>>, k: int) -> Option<
    Edge,
> {
    match position_of(values[k], v.config[k]) {
        Some(i) => if v.phase == Phase::PoweringUp {
            if i + 1 < values[k].len() {
                Some(
                    (
                        VerticeView {
                            t: v.t,
                            config: v.config.update(k, values[k][i + 1]),
                            phase: v.phase,
                        },
                        (p.switching_cost[k] * (values[k][i + 1] - values[k][i])) as u64,
                    ),
                )
            } else {
                None
            }
        } else {
            if i > 0 {
                Some(
                    (
                        VerticeView {
                            t: v.t,
                            config: v.config.update(k, values[k][i - 1]),
                            phase: v.phase,
                        },
                        0u64,
                    ),
                )
            } else {
                None
            }
        },
        None => None,
    }
}

/// The edges that change one of the first `n` dimensions.
pub open spec fn step_edges(v: VerticeView, p: ProblemView, values: Seq<Seq<i32>>, n: int) -> Seq<
    Edge,
>
    decreases n,
{
    if n <= 0 {
        Seq::empty()
    } else {
        let rest = step_edges(v, p, values, n - 1);
        match step_edge(v, p, values, n - 1) {
            Some(e) => rest.push(e),
            None => rest,
        }
    }
}

/// The edge that pays the hitting cost and starts powering down.
pub open spec fn hit_edge(v: VerticeView, p: ProblemView) -> Option<Edge> {
    match p.hitting(v.t, v.config) {
        Some(c) => Some((VerticeView { t: v.t, config: v.config, phase: Phase::PoweringDown }, c)),
        None => None,
    }
}

/// The free edge to the next time layer.
pub open spec fn next_edge(v: VerticeView, p: ProblemView) -> Option<Edge> {
    if v.t < p.t_end {
        Some((VerticeView { t: v.t + 1, config: v.config, phase: Phase::PoweringUp }, 0u64))
    } else {
        None
    }
}

/// The edge as a list, empty where there is none.
pub open spec fn optional(e: Option<Edge>) -> Seq<Edge> {
    match e {
        Some(e) => seq![e],
        None => Seq::empty(),
    }
}

/// The edges that leave `v`. Where the hitting cost of a vertice that is
/// powering up is undefined, the edge that would pay it is left out.
pub open spec fn edges(v: VerticeView, p: ProblemView, values: Seq<Seq<i32>>) -> Seq<Edge> {
    match v.phase {
        Phase::PoweringUp => optional(hit_edge(v, p)) + step_edges(v, p, values, p.d as int),
        Phase::PoweringDown => step_edges(v, p, values, p.d as int) + optional(next_edge(v, p)),
    }
}

/// The successors of `v` with their costs; an error where `v` is powering up
/// and its hitting cost is undefined.
pub open spec fn spec_successors(v: VerticeView, p: ProblemView, values: Seq<Seq<i32>>) -> Result<
    Seq<Edge>,
    Failure,
> {
    if v.phase == Phase::PoweringUp && p.hitting(v.t, v.config).is_none() {
        Err(Failure::CostFunctionNotTotal)
    } else {
        Ok(edges(v, p, values))
    }
}

/// The edges whose end is not blocked from the goal `to`.
pub open spec fn open_edges(es: Seq<Edge>, to: VerticeView) -> Seq<Edge>
    decreases es.len(),
{
    if es.len() == 0 {
        Seq::empty()
    } else if blocked(es.last().0, to) {
        open_edges(es.drop_last(), to)
    } else {
        open_edges(es.drop_last(), to).push(es.last())
    }
}

/// The edges that a search toward `to` follows from `v`.
pub open spec fn search_edges(
    v: VerticeView,
    p: ProblemView,
    values: Seq<Seq<i32>>,
    to: VerticeView,
) -> Seq<Edge> {
    open_edges(edges(v, p, values), to)
}

/// Every edge ends in the universe, within the horizon, and costs at most
/// [`STEP_LIMIT`].
pub open spec fn edges_wf(es: Seq<Edge>, p: ProblemView, values: Seq<Seq<i32>>) -> bool {
    forall|i: int|
        0 <= i < es.len() ==> in_universe((#[trigger] es[i]).0.config, values) && 1 <= es[i].0.t
            <= p.t_end && es[i].1 <= STEP_LIMIT
}

/// Computes the cost of raising each dimension from the level of `from` to
/// the level of `to`: what switching from `from` to `to` costs.
pub fn raise(p: &Problem, from: &Config, to: &Config) -> (r: u64)
    requires
        p@.wf(),
        in_bounds(from@, p@.bounds),
        in_bounds(to@, p@.bounds),
    ensures
        r == raise_cost(p@.switching_cost, from@, to@, p@.d as int),
        r <= STEP_LIMIT,
{
    let mut cost: u64 = 0;
    let mut k: usize = 0;
    while k < p.d
        invariant
            k <= p.d,
            p@.wf(),
            in_bounds(from@, p@.bounds),
            in_bounds(to@, p@.bounds),
            cost == raise_cost(p@.switching_cost, from@, to@, k as int),
        decreases p.d - k,
    {
        proof {
            lemma_raise_cost_bounded(
                p@.switching_cost,
                p@.bounds,
                from@,
                to@,
                k + 1,
            );
            lemma_raise_cost_bounded(
                p@.switching_cost,
                p@.bounds,
                from@,
                to@,
                k as int,
            );
            lemma_switching_total_monotone(p@.switching_cost, p@.bounds, k + 1, p@.d as int);
            assert(0 <= from@[k as int] <= p@.bounds[k as int]);
            assert(0 <= to@[k as int] <= p@.bounds[k as int]);
        }
        let a: i32 = from[k];
        let b: i32 = to[k];
        let x: u64 = if b > a {
            (b - a) as u64
        } else {
            0
        };
        assert(x == pos(b - a));
        assert(p.switching_cost[k as int] * x >= 0) by (nonlinear_arith)
            requires
                p.switching_cost[k as int] >= 0,
                x >= 0,
        ;
        cost = cost + p.switching_cost[k] * x;
        k = k + 1;
    }
    proof {
        lemma_raise_cost_bounded(
            p@.switching_cost,
            p@.bounds,
            from@,
            to@,
            p@.d as int,
        );
    }
    cost
}

/// The edge, its vertice taken by its view.
pub open spec fn edge_view(e: Option<(Vertice, u64)>) -> Option<Edge> {
    match e {
        Some(e) => Some((e.0@, e.1)),
        None => None,
    }
}

impl Vertice {
    /// The vertice of layer `t` with the given configuration and phase.
    pub fn new(t: i32, config: Config, phase: Phase) -> (r: Vertice)
        ensures
            r@ == (VerticeView { t: t as int, config: config@, phase }),
    {
        Vertice { t, config, phase }
    }

    /// The time layer.
    pub fn t(&self) -> (r: i32)
        ensures
            r == self@.t,
    {
        self.t
    }

    /// The configuration.
    pub fn config(&self) -> (r: &Config)
        ensures
            r@ == self@.config,
    {
        &self.config
    }

    /// The phase.
    pub fn phase(&self) -> (r: Phase)
        ensures
            r == self@.phase,
    {
        self.phase
    }

    /// A copy of this vertice.
    pub fn duplicate(&self) -> (r: Vertice)
        ensures
            r@ == self@,
    {
        Vertice { t: self.t, config: copy_config(&self.config), phase: self.phase }
    }

    /// Tells whether the two vertices agree in layer, configuration and
    /// phase.
    pub fn same(&self, other: &Vertice) -> (r: bool)
        ensures
            r == (self@ == other@),
    {
        self.t == other.t && self.phase == other.phase && same_config(&self.config, &other.config)
    }

    /// Tells whether the goal `to` cannot be reached from this vertice.
    pub fn is_blocked(&self, to: &Vertice) -> (r: bool)
        requires
            self@.config.len() == to@.config.len(),
        ensures
            r == blocked(self@, to@),
    {
        if self.t == to.t && !self.same(to) {
            return true;
        }
        match self.phase {
            Phase::PoweringUp => false,
            Phase::PoweringDown => {
                let mut k: usize = 0;
                while k < self.config.len()
                    invariant
                        k <= self.config.len(),
                        self.config.len() == to.config.len(),
                        self.phase == Phase::PoweringDown,
                        !(self.t == to.t && self@ != to@),
                        forall|j: int| 0 <= j < k ==> !(self.config@[j] < to.config@[j]),
                    decreases self.config.len() - k,
                {
                    if self.config[k] < to.config[k] {
                        assert(self@.config[k as int] < to@.config[k as int]);
                        return true;
                    }
                    k = k + 1;
                }
                false
            },
        }
    }

    /// The cost of raising each dimension to the level of `to`.
    pub fn raise_estimate(&self, to: &Vertice, p: &Problem) -> (r: u64)
        requires
            p@.wf(),
            in_bounds(self@.config, p@.bounds),
            in_bounds(to@.config, p@.bounds),
        ensures
            r == raise_cost(p@.switching_cost, self@.config, to@.config, p@.d as int),
            r <= STEP_LIMIT,
    {
        raise(p, &self.config, &to.config)
    }

    /// Estimates the cost from this vertice to the goal `to`, which is
    /// powering up: infinite where the goal cannot be reached, else the cost
    /// of raising each dimension to the goal's level.
    pub fn heuristic(&self, to: &Vertice, p: &Problem) -> (r: Estimate)
        requires
            to@.phase == Phase::PoweringUp,
            p@.wf(),
            in_bounds(self@.config, p@.bounds),
            in_bounds(to@.config, p@.bounds),
        ensures
            r == spec_heuristic(self@, to@, p@),
    {
        if self.is_blocked(to) {
            Estimate::Infinite
        } else {
            Estimate::Finite(self.raise_estimate(to, p))
        }
    }

    /// The edge that changes dimension `k`, where there is one.
    pub fn step(&self, p: &Problem, values: &Vec<Vec<i32>>, k: usize) -> (r: Option<
        (Vertice, u64),
    >)
        requires
            p@.wf(),
            values_wf(rows(values@), p@.bounds),
            in_universe(self@.config, rows(values@)),
            k < p.d,
        ensures
            edge_view(r) == step_edge(self@, p@, rows(values@), k as int),
            r matches Some(e) ==> in_universe(e.0@.config, rows(values@)) && e.0@.t == self@.t
                && e.1 <= STEP_LIMIT,
    {
        let vs = &values[k];
        assert(rows(values@)[k as int] == vs@);
        assert(increasing(vs@));
        proof {
            lemma_position_of(vs@, self@.config[k as int]);
            lemma_switching_term(p@.switching_cost, p@.bounds, k as int, p@.d as int);
        }
        match find_position(vs, self.config[k]) {
            None => None,
            Some(i) => match self.phase {
                Phase::PoweringUp => {
                    assert(position_of(vs@, self.config@[k as int]) == Some(i as int));
                    assert(i < vs.len());
                    if i + 1 < vs.len() {
                        let mut x = copy_config(&self.config);
                        x.set(k, vs[i + 1]);
                        assert(0 <= rows(values@)[k as int][i as int] <= p@.bounds[k as int]);
                        assert(0 <= rows(values@)[k as int][i + 1] <= p@.bounds[k as int]);
                        assert(vs@[i as int] < vs@[i + 1]);
                        let diff: u64 = (vs[i + 1] - vs[i]) as u64;
                        assert(0 <= p.switching_cost[k as int] * diff <= p.switching_cost[k as int]
                            * p.bounds[k as int]) by (nonlinear_arith)
                            requires
                                0 <= p.switching_cost[k as int],
                                0 <= diff <= p.bounds[k as int],
                        ;
                        let c: u64 = p.switching_cost[k] * diff;
                        proof {
                            lemma_step_in_universe(
                                self@.config,
                                rows(values@),
                                k as int,
                                vs@[i + 1],
                            );
                        }
                        Some((Vertice { t: self.t, config: x, phase: self.phase }, c))
                    } else {
                        None
                    }
                },
                Phase::PoweringDown => {
                    if i > 0 {
                        let mut x = copy_config(&self.config);
                        x.set(k, vs[i - 1]);
                        proof {
                            lemma_step_in_universe(
                                self@.config,
                                rows(values@),
                                k as int,
                                vs@[i - 1],
                            );
                        }
                        Some((Vertice { t: self.t, config: x, phase: self.phase }, 0))
                    } else {
                        None
                    }
                },
            },
        }
    }
}

impl Vertice {
    /// The edges that change one dimension to a neighbouring level.
    fn push_steps(&self, p: &Problem, values: &Vec<Vec<i32>>, out: &mut Vec<(Vertice, u64)>)
        requires
            p@.wf(),
            values_wf(rows(values@), p@.bounds),
            in_universe(self@.config, rows(values@)),
            1 <= self@.t <= p@.t_end,
            edges_wf(edge_rows(old(out)@), p@, rows(values@)),
        ensures
            edge_rows(final(out)@) == edge_rows(old(out)@) + step_edges(
                self@,
                p@,
                rows(values@),
                p@.d as int,
            ),
            edges_wf(edge_rows(final(out)@), p@, rows(values@)),
    {
        let ghost before = edge_rows(out@);
        let mut k: usize = 0;
        assert(edge_rows(out@) =~= before + step_edges(self@, p@, rows(values@), 0));
        while k < p.d
            invariant
                k <= p.d,
                p@.wf(),
                values_wf(rows(values@), p@.bounds),
                in_universe(self@.config, rows(values@)),
                1 <= self@.t <= p@.t_end,
                edges_wf(edge_rows(out@), p@, rows(values@)),
                edge_rows(out@) == before + step_edges(self@, p@, rows(values@), k as int),
            decreases p.d - k,
        {
            let ghost prev = out@;
            match self.step(p, values, k) {
                Some(e) => {
                    let ghost ev = (e.0@, e.1);
                    out.push(e);
                    assert(edge_rows(out@) =~= edge_rows(prev).push(ev));
                    assert(edge_rows(prev).push(ev) =~= before + step_edges(
                        self@,
                        p@,
                        rows(values@),
                        k + 1,
                    ));
                },
                None => {},
            }
            k = k + 1;
        }
    }

    /// The edges that leave this vertice, without the edge that would pay
    /// an undefined hitting cost.
    pub fn edges_of(&self, p: &Problem, values: &Vec<Vec<i32>>) -> (r: Vec<(Vertice, u64)>)
        requires
            p@.wf(),
            values_wf(rows(values@), p@.bounds),
            in_universe(self@.config, rows(values@)),
            1 <= self@.t <= p@.t_end,
        ensures
            edge_rows(r@) == edges(self@, p@, rows(values@)),
            edges_wf(edge_rows(r@), p@, rows(values@)),
    {
        let mut out: Vec<(Vertice, u64)> = Vec::new();
        match self.phase {
            Phase::PoweringUp => {
                match p.hit_cost(self.t, &self.config) {
                    Some(c) => {
                        proof {
                            lemma_hitting_bounded(p@, self@.t, self@.config);
                        }
                        out.push(
                            (
                                Vertice {
                                    t: self.t,
                                    config: copy_config(&self.config),
                                    phase: Phase::PoweringDown,
                                },
                                c,
                            ),
                        );
                    },
                    None => {},
                }
                assert(edge_rows(out@) =~= optional(hit_edge(self@, p@)));
                self.push_steps(p, values, &mut out);
            },
            Phase::PoweringDown => {
                assert(edge_rows(out@) =~= Seq::<Edge>::empty());
                self.push_steps(p, values, &mut out);
                let ghost prev = out@;
                assert(edge_rows(prev) =~= step_edges(self@, p@, rows(values@), p@.d as int));
                if self.t < p.t_end {
                    let e = (
                        Vertice {
                            t: self.t + 1,
                            config: copy_config(&self.config),
                            phase: Phase::PoweringUp,
                        },
                        0u64,
                    );
                    let ghost ev = (e.0@, e.1);
                    out.push(e);
                    assert(edge_rows(out@) =~= edge_rows(prev) + seq![ev]);
                } else {
                    assert(edge_rows(out@) =~= edge_rows(prev) + Seq::<Edge>::empty());
                }
            },
        }
        out
    }

    /// The successors of this vertice with the cost of each move. While
    /// powering up: powering down in place at the hitting cost, and each
    /// dimension raised to its next candidate level at switching cost. While
    /// powering down: each dimension lowered to its next candidate level for
    /// free, and the next time layer for free.
    pub fn successors(&self, p: &Problem, values: &Vec<Vec<i32>>) -> (r: Result<
        Vec<(Vertice, u64)>,
        Failure,
    >)
        requires
            p@.wf(),
            values_wf(rows(values@), p@.bounds),
            in_universe(self@.config, rows(values@)),
            1 <= self@.t <= p@.t_end,
        ensures
            match r {
                Ok(es) => spec_successors(self@, p@, rows(values@)) == Ok::<Seq<Edge>, Failure>(
                    edge_rows(es@),
                ),
                Err(e) => spec_successors(self@, p@, rows(values@)) == Err::<Seq<Edge>, Failure>(e),
            },
    {
        match self.phase {
            Phase::PoweringUp => {
                if p.hit_cost(self.t, &self.config).is_none() {
                    return Err(Failure::CostFunctionNotTotal);
                }
            },
            Phase::PoweringDown => {},
        }
        Ok(self.edges_of(p, values))
    }

    /// The successors that a search toward the goal `to` follows: the edges
    /// of this vertice whose end is not blocked from `to`.
    pub fn search_successors(&self, p: &Problem, values: &Vec<Vec<i32>>, to: &Vertice) -> (r: Vec<
        (Vertice, u64),
    >)
        requires
            p@.wf(),
            values_wf(rows(values@), p@.bounds),
            in_universe(self@.config, rows(values@)),
            to@.config.len() == p@.d,
            1 <= self@.t <= p@.t_end,
        ensures
            edge_rows(r@) == search_edges(self@, p@, rows(values@), to@),
            edges_wf(edge_rows(r@), p@, rows(values@)),
            forall|i: int| 0 <= i < r@.len() ==> !blocked(#[trigger] edge_rows(r@)[i].0, to@),
    {
        let es = self.edges_of(p, values);
        let ghost all = edge_rows(es@);
        let mut out: Vec<(Vertice, u64)> = Vec::new();
        let mut i: usize = 0;
        assert(all.take(0) =~= Seq::<Edge>::empty());
        while i < es.len()
            invariant
                i <= es.len(),
                all == edge_rows(es@),
                edges_wf(all, p@, rows(values@)),
                to@.config.len() == rows(values@).len(),
                edge_rows(out@) == open_edges(all.take(i as int), to@),
                edges_wf(edge_rows(out@), p@, rows(values@)),
                forall|j: int| 0 <= j < out@.len() ==> !blocked(#[trigger] edge_rows(out@)[j].0, to@),
            decreases es.len() - i,
        {
            let ghost prev = out@;
            assert(all.take(i + 1).drop_last() =~= all.take(i as int));
            assert(all.take(i + 1).last() == all[i as int]);
            assert(in_universe(all[i as int].0.config, rows(values@)));
            if !es[i].0.is_blocked(to) {
                let e = (es[i].0.duplicate(), es[i].1);
                let ghost ev = (e.0@, e.1);
                out.push(e);
                assert(edge_rows(out@) =~= edge_rows(prev).push(ev));
                assert forall|j: int| 0 <= j < out@.len() implies !blocked(
                    #[trigger] edge_rows(out@)[j].0,
                    to@,
                ) by {
                    if j < prev.len() {
                        assert(edge_rows(out@)[j] == edge_rows(prev)[j]);
                    }
                }
                assert forall|j: int| 0 <= j < out@.len() implies in_universe(
                    (#[trigger] edge_rows(out@)[j]).0.config,
                    rows(values@),
                ) && 1 <= edge_rows(out@)[j].0.t <= p@.t_end && edge_rows(out@)[j].1
                    <= STEP_LIMIT by {
                    if j < prev.len() {
                        assert(edge_rows(out@)[j] == edge_rows(prev)[j]);
                    }
                }
            }
            i = i + 1;
        }
        assert(all.take(es.len() as int) =~= all);
        out
    }
}

/// A defined hitting cost is at most [`STEP_LIMIT`].
pub proof fn lemma_hitting_bounded(p: ProblemView, t: int, config: Seq<i32>)
    requires
        p.wf(),
    ensures
        p.hitting(t, config) matches Some(c) ==> c <= STEP_LIMIT,
{
    if 1 <= t <= p.hitting_cost.len() {
        let entries = p.hitting_cost[t - 1];
        assert forall|i: int| 0 <= i < entries.len() implies (#[trigger] entries[i]).1
            <= STEP_LIMIT by {
            assert(p.hitting_cost[t - 1][i].1 <= STEP_LIMIT);
        }
        lemma_lookup_bounded(entries, config, STEP_LIMIT);
    }
}

/// Replacing one level by a candidate of its dimension stays in the
/// universe.
pub proof fn lemma_step_in_universe(config: Seq<i32>, values: Seq<Seq<i32>>, k: int, x: i32)
    requires
        in_universe(config, values),
        0 <= k < config.len(),
        values[k].contains(x),
    ensures
        in_universe(config.update(k, x), values),
{
    let c = config.update(k, x);
    assert forall|j: int| 0 <= j < c.len() implies (#[trigger] values[j]).contains(c[j]) by {
        if j != k {
            assert(c[j] == config[j]);
        }
    }
}

/// Every edge ends in the universe and within the horizon.
pub open spec fn ends_wf(es: Seq<Edge>, p: ProblemView, values: Seq<Seq<i32>>) -> bool {
    forall|i: int|
        0 <= i < es.len() ==> in_universe((#[trigger] es[i]).0.config, values) && 1 <= es[i].0.t
            <= p.t_end
}

/// An edge that changes one dimension stays in the universe and in the
/// layer.
pub proof fn lemma_step_edge_wf(v: VerticeView, p: ProblemView, values: Seq<Seq<i32>>, k: int)
    requires
        in_universe(v.config, values),
        0 <= k < v.config.len(),
    ensures
        step_edge(v, p, values, k) matches Some(e) ==> in_universe(e.0.config, values) && e.0.t
            == v.t,
{
    lemma_position_of(values[k], v.config[k]);
    match position_of(values[k], v.config[k]) {
        Some(i) => {
            if v.phase == Phase::PoweringUp {
                if i + 1 < values[k].len() {
                    assert(values[k].contains(values[k][i + 1]));
                    lemma_step_in_universe(v.config, values, k, values[k][i + 1]);
                }
            } else {
                if i > 0 {
                    assert(values[k].contains(values[k][i - 1]));
                    lemma_step_in_universe(v.config, values, k, values[k][i - 1]);
                }
            }
        },
        None => {},
    }
}

/// The edges that change one dimension stay in the universe and in the
/// layer.
pub proof fn lemma_step_edges_wf(v: VerticeView, p: ProblemView, values: Seq<Seq<i32>>, n: int)
    requires
        in_universe(v.config, values),
        0 <= n <= v.config.len(),
        1 <= v.t <= p.t_end,
    ensures
        ends_wf(step_edges(v, p, values, n), p, values),
    decreases n,
{
    if n > 0 {
        lemma_step_edges_wf(v, p, values, n - 1);
        lemma_step_edge_wf(v, p, values, n - 1);
    }
}

/// The edges of a vertice of the universe end in the universe.
pub proof fn lemma_edges_wf(v: VerticeView, p: ProblemView, values: Seq<Seq<i32>>)
    requires
        in_universe(v.config, values),
        v.config.len() == p.d,
        1 <= v.t <= p.t_end,
    ensures
        ends_wf(edges(v, p, values), p, values),
{
    lemma_step_edges_wf(v, p, values, p.d as int);
}

/// The open edges are among the edges.
pub proof fn lemma_open_edges_wf(
    es: Seq<Edge>,
    to: VerticeView,
    p: ProblemView,
    values: Seq<Seq<i32>>,
)
    requires
        ends_wf(es, p, values),
    ensures
        ends_wf(open_edges(es, to), p, values),
    decreases es.len(),
{
    if es.len() > 0 {
        assert forall|i: int| 0 <= i < es.drop_last().len() implies in_universe(
            (#[trigger] es.drop_last()[i]).0.config,
            values,
        ) && 1 <= es.drop_last()[i].0.t <= p.t_end by {
            assert(es.drop_last()[i] == es[i]);
        }
        lemma_open_edges_wf(es.drop_last(), to, p, values);
        assert(es.last() == es[es.len() - 1]);
    }
}

} // verus!

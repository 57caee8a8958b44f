//! The objective: what a schedule costs under a problem.

use vstd::prelude::*;
use crate::config::{rows, zero_config, zeros, Schedule};
use crate::hom::{DiscreteHomProblem, HomView};
use crate::problem::{Problem, ProblemView, STEP_LIMIT};
use crate::vertice::{
    in_bounds, lemma_hitting_bounded, lemma_raise_cost_bounded, pos, raise, raise_cost,
};

verus! {

/// The configuration before step `n`, counted from one: all zeros before
/// the first step.
pub open spec fn before(xs: Seq<Seq<i32>>, n: int, d: nat) -> Seq<i32> {
    if n >= 2 {
        xs[n - 2]
    } else {
        zeros(d)
    }
}

/// The cost of the first `n` steps of the schedule: at each step the
/// hitting cost of its configuration and the cost of raising the
/// configuration before it to it. Undefined where a hitting cost is.
pub open spec fn objective(p: ProblemView, xs: Seq<Seq<i32>>, n: int) -> Option<int>
    decreases n,
{
    if n <= 0 {
        Some(0)
    } else {
        match (objective(p, xs, n - 1), p.hitting(n, xs[n - 1])) {
            (Some(c), Some(h)) => Some(
                c + h + raise_cost(p.switching_cost, before(xs, n, p.d), xs[n - 1], p.d as int),
            ),
            _ => None,
        }
    }
}

/// The first `n` steps cost at most twice [`STEP_LIMIT`] each.
pub proof fn lemma_objective_bounded(p: ProblemView, xs: Seq<Seq<i32>>, n: int)
    requires
        p.wf(),
        0 <= n <= xs.len(),
        forall|t: int| 0 <= t < xs.len() ==> in_bounds(#[trigger] xs[t], p.bounds),
    ensures
        objective(p, xs, n) matches Some(c) ==> 0 <= c <= n * (2 * STEP_LIMIT),
    decreases n,
{
    if n > 0 {
        lemma_objective_bounded(p, xs, n - 1);
        lemma_hitting_bounded(p, n, xs[n - 1]);
        assert(in_bounds(xs[n - 1], p.bounds));
        if n >= 2 {
            assert(in_bounds(xs[n - 2], p.bounds));
        }
        assert(in_bounds(before(xs, n, p.d), p.bounds));
        lemma_raise_cost_bounded(
            p.switching_cost,
            p.bounds,
            before(xs, n, p.d),
            xs[n - 1],
            p.d as int,
        );
        assert((n - 1) * (2 * STEP_LIMIT) + 2 * STEP_LIMIT == n * (2 * STEP_LIMIT))
            by (nonlinear_arith);
    }
}

/// An error after the first steps is the error of the whole schedule.
proof fn lemma_objective_undefined(p: ProblemView, xs: Seq<Seq<i32>>, j: int, n: int)
    requires
        j <= n,
        objective(p, xs, j).is_none(),
    ensures
        objective(p, xs, n).is_none(),
    decreases n - j,
{
    if j < n {
        lemma_objective_undefined(p, xs, j, n - 1);
    }
}

impl Problem {
    /// Computes the cost of a schedule that covers the horizon or a part of
    /// it; nothing where the hitting cost of one of its configurations is
    /// undefined.
    pub fn objective_function(&self, xs: &Schedule) -> (r: Option<u128>)
        requires
            self@.wf(),
            xs.len() <= self@.t_end,
            forall|t: int| 0 <= t < xs.len() ==> in_bounds(#[trigger] rows(xs@)[t], self@.bounds),
        ensures
            match r {
                Some(c) => objective(self@, rows(xs@), xs.len() as int) == Some(c as int),
                None => objective(self@, rows(xs@), xs.len() as int).is_none(),
            },
    {
        let mut cost: u128 = 0;
        let mut prev = zero_config(self.d);
        let mut n: usize = 0;
        while n < xs.len()
            invariant
                n <= xs.len(),
                xs.len() <= self@.t_end,
                self@.wf(),
                forall|t: int|
                    0 <= t < xs.len() ==> in_bounds(#[trigger] rows(xs@)[t], self@.bounds),
                prev@ == before(rows(xs@), n + 1, self@.d),
                objective(self@, rows(xs@), n as int) == Some(cost as int),
            decreases xs.len() - n,
        {
            proof {
                lemma_objective_bounded(self@, rows(xs@), n as int);
                lemma_objective_bounded(self@, rows(xs@), n + 1);
                lemma_hitting_bounded(self@, n + 1, rows(xs@)[n as int]);
                assert(in_bounds(rows(xs@)[n as int], self@.bounds));
                if n >= 1 {
                    assert(in_bounds(rows(xs@)[n - 1], self@.bounds));
                }
                assert((n + 1) * (2 * STEP_LIMIT) <= u128::MAX) by (nonlinear_arith)
                    requires
                        n <= 0xffff_ffff_ffff_ffff,
                        STEP_LIMIT == 0x1000_0000_0000_0000,
                        u128::MAX == 0xffff_ffff_ffff_ffff_ffff_ffff_ffff_ffff,
                ;
            }
            let x = &xs[n];
            let h = match self.hit_cost((n + 1) as i32, x) {
                Some(h) => h,
                None => {
                    proof {
                        assert(objective(self@, rows(xs@), n + 1).is_none());
                        lemma_objective_undefined(self@, rows(xs@), n + 1, xs.len() as int);
                    }
                    return None;
                },
            };
            let s = raise(self, &prev, x);
            cost = cost + h as u128 + s as u128;
            prev = crate::config::copy_config(x);
            n = n + 1;
        }
        Some(cost)
    }
}

/// The number of servers before step `n`, counted from one: none before
/// the first step.
pub open spec fn servers_before(xs: Seq<i32>, n: int) -> int {
    if n >= 2 {
        xs[n - 2] as int
    } else {
        0
    }
}

/// What moving from `prev` to `x` servers is charged for: the servers
/// powered up, or, inverted, the servers powered down.
pub open spec fn charged(prev: int, x: int, inverted: bool) -> int {
    if inverted {
        pos(prev - x)
    } else {
        pos(x - prev)
    }
}

/// The cost of the first `n` steps of a schedule of a homogeneous problem:
/// at each step the cost of its number of servers, and the switching cost
/// for each server that the step is charged for.
pub open spec fn hom_objective(p: HomView, xs: Seq<i32>, inverted: bool, n: int) -> int
    decreases n,
{
    if n <= 0 {
        0
    } else {
        hom_objective(p, xs, inverted, n - 1) + p.cost(n, xs[n - 1] as int).unwrap() + p.beta
            * charged(servers_before(xs, n), xs[n - 1] as int, inverted)
    }
}

/// The schedule has a number of servers within the problem's for each time
/// step.
pub open spec fn hom_schedule_valid(p: HomView, xs: Seq<i32>) -> bool {
    &&& xs.len() == p.t_end
    &&& forall|t: int| 0 <= t < xs.len() ==> 0 <= #[trigger] xs[t] <= p.m
}

/// The first `n` steps cost at most two to the power of 95 each.
proof fn lemma_hom_objective_bounded(p: HomView, xs: Seq<i32>, inverted: bool, n: int)
    requires
        p.wf(),
        hom_schedule_valid(p, xs),
        0 <= n <= xs.len(),
    ensures
        0 <= hom_objective(p, xs, inverted, n) <= n * 0x8000_0000_0000_0000_0000_0000,
    decreases n,
{
    if n > 0 {
        lemma_hom_objective_bounded(p, xs, inverted, n - 1);
        let x = xs[n - 1] as int;
        let prev = servers_before(xs, n);
        assert(0 <= x <= p.m);
        if n >= 2 {
            assert(0 <= xs[n - 2] <= p.m);
        }
        assert(p.cost(n, x).is_some());
        let c = charged(prev, x, inverted);
        assert(0 <= p.beta * c <= 0xffff_ffff_ffff_ffff * 0x4000_0000) by (nonlinear_arith)
            requires
                0 <= p.beta <= 0xffff_ffff_ffff_ffff,
                0 <= c <= 0x4000_0000,
        ;
        assert((n - 1) * 0x8000_0000_0000_0000_0000_0000 + 0x8000_0000_0000_0000_0000_0000 == n
            * 0x8000_0000_0000_0000_0000_0000) by (nonlinear_arith);
    }
}

/// The two conventions differ by what the last number of servers costs to
/// power up: a schedule powers up as many servers as it powers down and
/// has left at its end.
pub proof fn lemma_inverted_objective(p: HomView, xs: Seq<i32>, n: int)
    requires
        1 <= n <= xs.len(),
        forall|t: int| 0 <= t < xs.len() ==> 0 <= #[trigger] xs[t],
    ensures
        hom_objective(p, xs, false, n) == hom_objective(p, xs, true, n) + p.beta * xs[n - 1],
    decreases n,
{
    let x = xs[n - 1] as int;
    let prev = servers_before(xs, n);
    let b = p.beta as int;
    assert(b * charged(prev, x, false) == b * charged(prev, x, true) + b * x - b * prev)
        by (nonlinear_arith)
        requires
            charged(prev, x, false) == charged(prev, x, true) + x - prev,
    ;
    if n > 1 {
        lemma_inverted_objective(p, xs, n - 1);
        assert(0 <= xs[n - 2]);
    } else {
        assert(hom_objective(p, xs, false, 0) == 0);
        assert(hom_objective(p, xs, true, 0) == 0);
    }
}

impl DiscreteHomProblem {
    /// Computes the cost of the schedule, with the switching cost charged
    /// for powering up, or, inverted, for powering down.
    fn charged_objective(&self, xs: &Vec<i32>, inverted: bool) -> (r: u128)
        requires
            self@.wf(),
            hom_schedule_valid(self@, xs@),
        ensures
            r == hom_objective(self@, xs@, inverted, self@.t_end),
    {
        let mut cost: u128 = 0;
        let mut t: i32 = 1;
        while t <= self.t_end
            invariant
                1 <= t <= self.t_end + 1,
                self@.wf(),
                    hom_schedule_valid(self@, xs@),
                cost == hom_objective(self@, xs@, inverted, t - 1),
            decreases self.t_end + 1 - t,
        {
            proof {
                lemma_hom_objective_bounded(self@, xs@, inverted, t - 1);
                lemma_hom_objective_bounded(self@, xs@, inverted, t as int);
                assert(t * 0x8000_0000_0000_0000_0000_0000 <= u128::MAX) by (nonlinear_arith)
                    requires
                        t <= 0x7fff_ffff,
                        u128::MAX == 0xffff_ffff_ffff_ffff_ffff_ffff_ffff_ffff,
                ;
            }
            let prev_x: i32 = if t > 1 {
                xs[t as usize - 2]
            } else {
                0
            };
            let x: i32 = xs[t as usize - 1];
            assert(0 <= x <= self.m);
            assert(0 <= prev_x <= self.m);
            assert(self@.cost(t as int, x as int).is_some());
            let f: u64 = match self.cost(t, x) {
                Some(f) => f,
                None => 0,
            };
            let moved: i32 = if inverted {
                prev_x - x
            } else {
                x - prev_x
            };
            let c: u64 = if moved > 0 {
                moved as u64
            } else {
                0
            };
            assert(c == charged(prev_x as int, x as int, inverted));
            assert(0 <= self.beta * c <= 0xffff_ffff_ffff_ffff * 0x4000_0000) by (nonlinear_arith)
                requires
                    0 <= self.beta <= 0xffff_ffff_ffff_ffff,
                    0 <= c <= 0x4000_0000,
            ;
            cost = cost + f as u128 + self.beta as u128 * c as u128;
            t = t + 1;
        }
        cost
    }

    /// Objective function: the cost of a schedule, with the switching cost
    /// paid for powering up.
    pub fn objective_function(&self, xs: &Vec<i32>) -> (r: u128)
        requires
            self@.wf(),
            hom_schedule_valid(self@, xs@),
        ensures
            r == hom_objective(self@, xs@, false, self@.t_end),
    {
        self.charged_objective(xs, false)
    }

    /// Inverted objective function: the cost of a schedule, with the
    /// switching cost paid for powering down rather than powering up.
    pub fn inverted_objective_function(&self, xs: &Vec<i32>) -> (r: u128)
        requires
            self@.wf(),
            hom_schedule_valid(self@, xs@),
        ensures
            r == hom_objective(self@, xs@, true, self@.t_end),
    {
        self.charged_objective(xs, true)
    }
}

} // verus!

//! Online decisions for homogeneous problems: one time step is decided at
//! a time, from the schedule so far.

use vstd::prelude::*;
use crate::hom::DiscreteHomProblem;
use crate::result::Failure;

verus! {

/// A problem that is solved step by step, with a prediction window of `w`
/// further time steps.
pub struct Online {
    pub p: DiscreteHomProblem,
    pub w: i32,
}

/// The value of the interval from `a` to `b` that is nearest to `x`.
pub open spec fn spec_project(x: int, a: int, b: int) -> int {
    if x < a {
        a
    } else if x > b {
        b
    } else {
        x
    }
}

/// Projects `x` onto the interval from `a` to `b`.
pub fn project(x: i32, a: i32, b: i32) -> (r: i32)
    ensures
        r == spec_project(x as int, a as int, b as int),
{
    if x < a {
        a
    } else if x > b {
        b
    } else {
        x
    }
}

/// The number of servers that the schedule ends with; zero for the empty
/// schedule.
pub open spec fn last_or_zero(xs: Seq<i32>) -> int {
    if xs.len() > 0 {
        xs.last() as int
    } else {
        0
    }
}

/// Prepares a step of the memoryless algorithm, which decides one
/// dimension without a prediction window: gives the time step to decide,
/// the one after the `steps` time steps of the schedule so far. The level
/// itself is found by a convex optimization over fractional levels.
pub fn memoryless(w: i32, d: i32, steps: i32) -> (r: Result<i32, Failure>)
    requires
        0 <= steps < i32::MAX,
    ensures
        r == (if w != 0 {
            Err::<i32, Failure>(Failure::UnsupportedPredictionWindow(w))
        } else if d != 1 {
            Err::<i32, Failure>(Failure::UnsupportedProblemDimension(d))
        } else {
            Ok::<i32, Failure>((steps + 1) as i32)
        }),
{
    if w != 0 {
        return Err(Failure::UnsupportedPredictionWindow(w));
    }
    if d != 1 {
        return Err(Failure::UnsupportedProblemDimension(d));
    }
    Ok(steps + 1)
}

impl Online {
    /// Lazy capacity provisioning: stays at the last number of servers as
    /// far as the lower and the upper bound allow. Returns the number of
    /// servers for the next time step, and the two bounds.
    pub fn lcp(&self, xs: &Vec<i32>, _ms: &Vec<(i32, i32)>) -> (r: (i32, (i32, i32)))
        ensures
            r.0 == spec_project(last_or_zero(xs@), r.1.0 as int, r.1.1 as int),
            r.1 == (1i32, 1i32),
    {
        let i: i32 = if xs.len() > 0 {
            xs[xs.len() - 1]
        } else {
            0
        };
        let l = self.lower_bound();
        let u = self.upper_bound();
        (project(i, l, u), (l, u))
    }

    /// The lower bound on the number of servers.
    pub fn lower_bound(&self) -> (r: i32)
        ensures
            r == 1,
    {
        1
    }

    /// The upper bound on the number of servers.
    pub fn upper_bound(&self) -> (r: i32)
        ensures
            r == 1,
    {
        1
    }
}

} // verus!

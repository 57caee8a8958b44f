//! Checks of schedules against a problem's horizon and bounds.

use vstd::prelude::*;
use crate::config::{rows, Config, Schedule};
use crate::values::increasing;
use crate::vertice::{in_bounds, values_wf};

verus! {

/// The schedule has one configuration for each of `t_end` time steps, each
/// within the bounds.
pub open spec fn schedule_valid(xs: Seq<Seq<i32>>, t_end: int, bounds: Seq<i32>) -> bool {
    &&& xs.len() == t_end
    &&& forall|t: int| 0 <= t < xs.len() ==> in_bounds(#[trigger] xs[t], bounds)
}

/// Tells whether each level of the configuration lies between zero and the
/// bound of its dimension.
pub fn config_in_bounds(x: &Config, bounds: &Vec<i32>) -> (r: bool)
    ensures
        r == in_bounds(x@, bounds@),
{
    if x.len() != bounds.len() {
        return false;
    }
    let mut k: usize = 0;
    while k < x.len()
        invariant
            k <= x.len(),
            x.len() == bounds.len(),
            forall|j: int| 0 <= j < k ==> 0 <= #[trigger] x@[j] <= bounds@[j],
        decreases x.len() - k,
    {
        if x[k] < 0 || x[k] > bounds[k] {
            return false;
        }
        k = k + 1;
    }
    true
}

/// Tells whether the schedule covers `t_end` time steps within the bounds.
pub fn verify_schedule(xs: &Schedule, t_end: i32, bounds: &Vec<i32>) -> (r: bool)
    ensures
        r == schedule_valid(rows(xs@), t_end as int, bounds@),
{
    if t_end < 0 || xs.len() != t_end as usize {
        return false;
    }
    let mut t: usize = 0;
    while t < xs.len()
        invariant
            t <= xs.len(),
            xs.len() == t_end,
            forall|s: int| 0 <= s < t ==> in_bounds(#[trigger] rows(xs@)[s], bounds@),
        decreases xs.len() - t,
    {
        if !config_in_bounds(&xs[t], bounds) {
            assert(!in_bounds(rows(xs@)[t as int], bounds@));
            return false;
        }
        t = t + 1;
    }
    true
}

/// Tells whether each of the configurations lies within the bounds.
pub fn verify_configs(configs: &Vec<Config>, bounds: &Vec<i32>) -> (r: bool)
    ensures
        r == forall|i: int|
            0 <= i < configs.len() ==> in_bounds(#[trigger] rows(configs@)[i], bounds@),
{
    let mut i: usize = 0;
    while i < configs.len()
        invariant
            i <= configs.len(),
            forall|j: int| 0 <= j < i ==> in_bounds(#[trigger] rows(configs@)[j], bounds@),
        decreases configs.len() - i,
    {
        if !config_in_bounds(&configs[i], bounds) {
            assert(!in_bounds(rows(configs@)[i as int], bounds@));
            return false;
        }
        i = i + 1;
    }
    true
}

/// Tells whether the lists are candidate levels for the bounds: one sorted
/// list for each dimension, each level between zero and the bound.
pub fn verify_values(values: &Vec<Vec<i32>>, bounds: &Vec<i32>) -> (r: bool)
    ensures
        r == values_wf(rows(values@), bounds@),
{
    if values.len() != bounds.len() {
        return false;
    }
    let mut k: usize = 0;
    while k < values.len()
        invariant
            k <= values.len(),
            values.len() == bounds.len(),
            forall|j: int| 0 <= j < k ==> increasing(#[trigger] rows(values@)[j]),
            forall|j: int, i: int|
                0 <= j < k && 0 <= i < rows(values@)[j].len() ==> 0 <= #[trigger] rows(
                    values@,
                )[j][i] <= bounds@[j],
        decreases values.len() - k,
    {
        let vs = &values[k];
        assert(rows(values@)[k as int] == vs@);
        let mut i: usize = 0;
        while i < vs.len()
            invariant
                i <= vs.len(),
                k < bounds.len(),
                k < values.len(),
                rows(values@)[k as int] == vs@,
                forall|a: int| 0 <= a < i ==> 0 <= #[trigger] vs@[a] <= bounds@[k as int],
                forall|a: int, b: int| 0 <= a < b < i ==> vs@[a] < vs@[b],
            decreases vs.len() - i,
        {
            if vs[i] < 0 || vs[i] > bounds[k] {
                assert(!(0 <= rows(values@)[k as int][i as int] <= bounds@[k as int]));
                return false;
            }
            if i > 0 && vs[i - 1] >= vs[i] {
                assert(!increasing(rows(values@)[k as int])) by {
                    assert(!(vs@[i - 1] < vs@[i as int]));
                }
                return false;
            }
            proof {
                assert forall|a: int, b: int| 0 <= a < b < i + 1 implies vs@[a] < vs@[b] by {
                    if b == i && a < i - 1 {
                        assert(vs@[a] < vs@[i - 1]);
                    }
                }
            }
            i = i + 1;
        }
        k = k + 1;
    }
    true
}

} // verus!

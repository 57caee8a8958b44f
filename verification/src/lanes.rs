//! Lanes: the units of load of a smoothed load optimization, each handled
//! by one dimension or by none. Dimensions are counted from one; zero
//! stands for no dimension. A configuration here has its first entry for
//! no dimension, so that the level of dimension `k` stands at index `k`.

use vstd::prelude::*;
use crate::config::{rows, Config, PathView};
use crate::graph_search::{optimal_graph_search, spec_graph_search, total_until};
use crate::problem::Problem;
use crate::result::Failure;
use crate::universe::product;
use crate::values::all_values;
use crate::vertice::in_bounds;

verus! {

/// Maps each lane to the dimension that handles it.
pub type Lanes = Vec<i32>;

/// The number of the first `n` lanes that `k` handles.
pub open spec fn handled(lanes: Seq<i32>, k: int, n: int) -> int
    decreases n,
{
    if n <= 0 {
        0
    } else {
        handled(lanes, k, n - 1) + if lanes[n - 1] == k {
            1int
        } else {
            0int
        }
    }
}

/// No dimension handles more lanes than there are.
pub proof fn lemma_handled_bounded(lanes: Seq<i32>, k: int, n: int)
    requires
        0 <= n,
    ensures
        0 <= handled(lanes, k, n) <= n,
    decreases n,
{
    if n > 0 {
        lemma_handled_bounded(lanes, k, n - 1);
    }
}

/// The lanes among the first `n` that one of the first `d` entries
/// handles.
pub open spec fn all_handled(lanes: Seq<i32>, d: int, n: int) -> int
    decreases d,
{
    if d <= 0 {
        0
    } else {
        all_handled(lanes, d - 1, n) + handled(lanes, d - 1, n)
    }
}

/// One more lane is one more lane handled, by the entry that it maps to.
pub proof fn lemma_all_handled_step(lanes: Seq<i32>, d: int, n: int)
    requires
        0 <= d,
        1 <= n,
    ensures
        all_handled(lanes, d, n) == all_handled(lanes, d, n - 1) + if 0 <= lanes[n - 1] < d {
            1int
        } else {
            0int
        },
    decreases d,
{
    if d > 0 {
        lemma_all_handled_step(lanes, d - 1, n);
    }
}

/// Every lane is handled by the entry that it maps to.
pub proof fn lemma_all_handled(lanes: Seq<i32>, d: int, n: int)
    requires
        0 <= d,
        0 <= n <= lanes.len(),
        forall|i: int| 0 <= i < lanes.len() ==> 0 <= #[trigger] lanes[i] < d,
    ensures
        all_handled(lanes, d, n) == n,
    decreases n,
{
    if n > 0 {
        lemma_all_handled(lanes, d, n - 1);
        lemma_all_handled_step(lanes, d, n);
        assert(0 <= lanes[n - 1] < d);
    } else {
        lemma_none_handled(lanes, d);
    }
}

/// Of no lanes none is handled.
pub proof fn lemma_none_handled(lanes: Seq<i32>, d: int)
    ensures
        all_handled(lanes, d, 0) == 0,
    decreases d,
{
    if d > 0 {
        lemma_none_handled(lanes, d - 1);
    }
}

/// The entries of a configuration that counts the lanes add up to what
/// the entries handle.
pub proof fn lemma_counts_add_up(config: Seq<i32>, lanes: Seq<i32>, d: int, n: int)
    requires
        0 <= d <= config.len(),
        forall|k: int| 0 <= k < d ==> #[trigger] config[k] == handled(lanes, k, n),
    ensures
        lane_sum(config, 0, d - 1) == all_handled(lanes, d, n),
    decreases d,
{
    if d > 0 {
        lemma_counts_add_up(config, lanes, d - 1, n);
    }
}

/// Counts for each entry below `d` the lanes that map to it.
pub fn collect_config(d: i32, lanes: &Lanes) -> (config: Config)
    requires
        d >= 0,
        lanes.len() <= i32::MAX,
        forall|i: int| 0 <= i < lanes.len() ==> 0 <= #[trigger] lanes[i] < d,
    ensures
        config.len() == d,
        forall|k: int|
            0 <= k < d ==> #[trigger] config[k] == handled(lanes@, k, lanes.len() as int),
        lane_sum(config@, 0, d - 1) == lanes.len(),
{
    proof {
        lemma_all_handled(lanes@, d as int, lanes.len() as int);
    }
    let mut config: Vec<i32> = Vec::new();
    let mut k: i32 = 0;
    while k < d
        invariant
            0 <= k <= d,
            config.len() == k,
            forall|j: int| 0 <= j < k ==> #[trigger] config[j] == 0,
        decreases d - k,
    {
        config.push(0);
        k = k + 1;
    }
    let mut i: usize = 0;
    while i < lanes.len()
        invariant
            i <= lanes.len(),
            lanes.len() <= i32::MAX,
            config.len() == d,
            forall|j: int| 0 <= j < lanes.len() ==> 0 <= #[trigger] lanes[j] < d,
            forall|j: int| 0 <= j < d ==> #[trigger] config[j] == handled(lanes@, j, i as int),
        decreases lanes.len() - i,
    {
        let lane: usize = lanes[i] as usize;
        proof {
            lemma_handled_bounded(lanes@, lane as int, i as int);
        }
        let count: i32 = config[lane];
        config.set(lane, count + 1);
        i = i + 1;
    }
    proof {
        lemma_counts_add_up(config@, lanes@, d as int, lanes.len() as int);
    }
    config
}

/// The levels of the dimensions from `from` to `to`, added up.
pub open spec fn lane_sum(x: Seq<i32>, from: int, to: int) -> int
    decreases to - from + 1,
{
    if to < from {
        0
    } else {
        lane_sum(x, from, to - 1) + x[to]
    }
}

/// The sum over a part of the dimensions is within the sum over more of
/// them.
pub proof fn lemma_lane_sum_monotone(x: Seq<i32>, from: int, mid: int, to: int)
    requires
        0 <= from,
        from - 1 <= mid <= to < x.len(),
        forall|k: int| from <= k <= to ==> #[trigger] x[k] >= 0,
    ensures
        0 <= lane_sum(x, from, mid) <= lane_sum(x, from, to),
    decreases to - from + 1,
{
    if mid < to {
        lemma_lane_sum_monotone(x, from, mid, to - 1);
    } else if from <= mid {
        lemma_lane_sum_monotone(x, from, mid - 1, mid - 1);
    }
}

/// Sums the levels of the dimensions from `from` to `to`.
pub fn active_lanes(x: &Config, from: i32, to: i32) -> (r: i32)
    requires
        from <= to ==> 0 <= from && to < x.len(),
        forall|k: int| from <= k <= to ==> #[trigger] x[k] >= 0,
        lane_sum(x@, from as int, to as int) <= i32::MAX,
    ensures
        r == lane_sum(x@, from as int, to as int),
{
    let mut result: i32 = 0;
    if from > to {
        return 0;
    }
    let mut k: i32 = from;
    while k <= to
        invariant
            0 <= from <= k <= to + 1,
            to < x.len(),
            forall|j: int| from <= j <= to ==> #[trigger] x[j] >= 0,
            lane_sum(x@, from as int, to as int) <= i32::MAX,
            result == lane_sum(x@, from as int, k - 1),
        decreases to + 1 - k,
    {
        proof {
            lemma_lane_sum_monotone(x@, from as int, k as int, to as int);
        }
        result = result + x[k as usize];
        if k == to {
            return result;
        }
        k = k + 1;
    }
    result
}

/// The largest dimension up to `j` from which on the levels up to `d` add
/// up to `k` or more; zero where there is none.
pub open spec fn top_lane(x: Seq<i32>, d: int, k: int, j: int) -> int
    decreases j,
{
    if j < 1 {
        0
    } else if lane_sum(x, j, d) >= k {
        j
    } else {
        top_lane(x, d, k, j - 1)
    }
}

/// The dimension that handles lane `k`: none where `k` is more than all
/// levels together.
pub open spec fn lane_of(x: Seq<i32>, d: int, k: int) -> int {
    if k <= lane_sum(x, 1, d) {
        top_lane(x, d, k, d)
    } else {
        0
    }
}

/// The sum over the dimensions from `from` on is within the sum over the
/// dimensions from one on.
pub proof fn lemma_lane_sum_suffix(x: Seq<i32>, from: int, to: int)
    requires
        1 <= from,
        to < x.len(),
        forall|k: int| 1 <= k <= to ==> #[trigger] x[k] >= 0,
    ensures
        0 <= lane_sum(x, from, to) <= lane_sum(x, 1, to),
    decreases to,
{
    if to >= from {
        lemma_lane_sum_suffix(x, from, to - 1);
    } else if to >= 1 {
        lemma_lane_sum_monotone(x, 1, 0, to);
    }
}

/// Maps each of `bound` lanes to the dimension that handles it under the
/// configuration `x` of `d` dimensions.
pub fn build_lanes(x: &Config, d: i32, bound: usize) -> (lanes: Lanes)
    requires
        0 <= d < x.len(),
        d < i32::MAX,
        bound <= i32::MAX,
        forall|k: int| 1 <= k <= d ==> #[trigger] x[k] >= 0,
        lane_sum(x@, 1, d as int) <= i32::MAX,
    ensures
        lanes.len() == bound,
        forall|k: int|
            0 <= k < bound ==> #[trigger] lanes[k] == lane_of(x@, d as int, k),
{
    let mut lanes: Vec<i32> = Vec::new();
    let mut k: usize = 0;
    while k < bound
        invariant
            k <= bound,
            bound <= i32::MAX,
            0 <= d < x.len(),
            d < i32::MAX,
            forall|j: int| 1 <= j <= d ==> #[trigger] x[j] >= 0,
            lane_sum(x@, 1, d as int) <= i32::MAX,
            lanes.len() == k,
            forall|i: int| 0 <= i < k ==> #[trigger] lanes[i] == lane_of(x@, d as int, i),
        decreases bound - k,
    {
        let mut lane: i32 = 0;
        if k as i32 <= active_lanes(x, 1, d) {
            let mut j: i32 = 1;
            while j <= d
                invariant
                    1 <= j <= d + 1,
                    0 <= d < x.len(),
                    d < i32::MAX,
                    k <= i32::MAX,
                    forall|i: int| 1 <= i <= d ==> #[trigger] x[i] >= 0,
                    lane_sum(x@, 1, d as int) <= i32::MAX,
                    lane == top_lane(x@, d as int, k as int, j - 1),
                decreases d + 1 - j,
            {
                proof {
                    lemma_lane_sum_suffix(x@, j as int, d as int);
                }
                if active_lanes(x, j, d) >= k as i32 {
                    lane = j;
                }
                j = j + 1;
            }
        }
        lanes.push(lane);
        k = k + 1;
    }
    lanes
}

/// Maps each lane to the time step up to which it stays with its
/// dimension unless a larger dimension takes it.
pub type Horizons = Vec<i32>;

/// The lanes and their horizons at some time step.
pub struct Memory {
    pub lanes: Lanes,
    pub horizons: Horizons,
}

/// The number of time steps for which a lane stays with dimension `k`: the
/// switching cost of the dimension in units of its hitting cost, rounded
/// down; none for no dimension.
pub open spec fn time_horizon(hitting_cost: Seq<u64>, switching_cost: Seq<u64>, k: int) -> int {
    if k == 0 {
        0
    } else {
        switching_cost[k - 1] as int / hitting_cost[k - 1] as int
    }
}

/// Dimension `k` is none, or has a hitting cost other than zero and a time
/// horizon that, counted from `t`, is a time step.
pub open spec fn horizon_defined(
    hitting_cost: Seq<u64>,
    switching_cost: Seq<u64>,
    k: int,
    t: int,
) -> bool {
    k == 0 || (1 <= k <= hitting_cost.len() && k <= switching_cost.len() && hitting_cost[k - 1] > 0
        && t + time_horizon(hitting_cost, switching_cost, k) <= i32::MAX)
}

/// Computes the number of time steps for which a lane stays with
/// dimension `k`.
pub fn next_time_horizon(hitting_cost: &Vec<u64>, switching_cost: &Vec<u64>, k: i32) -> (r: i32)
    requires
        horizon_defined(hitting_cost@, switching_cost@, k as int, 0),
    ensures
        r == time_horizon(hitting_cost@, switching_cost@, k as int),
{
    if k == 0 {
        0
    } else {
        (switching_cost[k as usize - 1] / hitting_cost[k as usize - 1]) as i32
    }
}

/// A lane moves to the dimension of the optimal lanes where that is larger
/// than its own, or where its horizon has come at time step `t`.
pub open spec fn lane_moves(prev: int, optimal: int, horizon: int, t: int) -> bool {
    prev < optimal || t >= horizon
}

/// The dimension of a lane after time step `t`.
pub open spec fn next_lane(prev: int, optimal: int, horizon: int, t: int) -> int {
    if lane_moves(prev, optimal, horizon, t) {
        optimal
    } else {
        prev
    }
}

/// The horizon of a lane after time step `t`: that of its new dimension
/// where it moves, else the later of its horizon and that of its dimension
/// counted from `t`.
pub open spec fn next_horizon(
    hitting_cost: Seq<u64>,
    switching_cost: Seq<u64>,
    prev: int,
    optimal: int,
    horizon: int,
    t: int,
) -> int {
    if lane_moves(prev, optimal, horizon, t) {
        t + time_horizon(hitting_cost, switching_cost, optimal)
    } else if horizon >= t + time_horizon(hitting_cost, switching_cost, prev) {
        horizon
    } else {
        t + time_horizon(hitting_cost, switching_cost, prev)
    }
}

/// The lane `k` before the step: of the last memory, or none and no
/// horizon where there is no memory.
pub open spec fn lane_before(ms: Seq<Memory>, k: int) -> (int, int) {
    if ms.len() == 0 {
        (0, 0)
    } else {
        (ms.last().lanes@[k] as int, ms.last().horizons@[k] as int)
    }
}

/// Deterministic online step for smoothed load optimization: given the
/// lanes of an optimal configuration for time step `t`, each lane moves to
/// its optimal dimension or stays for its horizon. Returns the
/// configuration that counts the lanes of each dimension, and the new
/// lanes with their horizons.
pub fn deterministic(
    w: i32,
    d: i32,
    t: i32,
    optimal_lanes: &Lanes,
    ms: &Vec<Memory>,
    hitting_cost: &Vec<u64>,
    switching_cost: &Vec<u64>,
) -> (r: Result<(Config, Memory), Failure>)
    requires
        w == 0 ==> {
            &&& d >= 0
            &&& t >= 0
            &&& optimal_lanes.len() <= i32::MAX
            &&& ms.len() > 0 ==> ms@.last().lanes.len() == optimal_lanes.len()
                && ms@.last().horizons.len() == optimal_lanes.len()
            &&& forall|k: int|
                0 <= k < optimal_lanes.len() ==> 0 <= #[trigger] optimal_lanes[k] < d
                    && horizon_defined(hitting_cost@, switching_cost@, optimal_lanes[k] as int, t as int)
            &&& forall|k: int|
                0 <= k < optimal_lanes.len() && ms.len() > 0 ==> 0 <= (
                #[trigger] ms@.last().lanes@[k]) < d && horizon_defined(
                    hitting_cost@,
                    switching_cost@,
                    ms@.last().lanes@[k] as int,
                    t as int,
                )
        },
    ensures
        w != 0 ==> r == Err::<(Config, Memory), Failure>(
            Failure::UnsupportedPredictionWindow(w),
        ),
        w == 0 ==> (match r {
            Ok(step) => {
                &&& step.1.lanes.len() == optimal_lanes.len()
                &&& step.1.horizons.len() == optimal_lanes.len()
                &&& forall|k: int|
                    0 <= k < optimal_lanes.len() ==> (#[trigger] step.1.lanes@[k]) == next_lane(
                        lane_before(ms@, k).0,
                        optimal_lanes[k] as int,
                        lane_before(ms@, k).1,
                        t as int,
                    ) && step.1.horizons@[k] == next_horizon(
                        hitting_cost@,
                        switching_cost@,
                        lane_before(ms@, k).0,
                        optimal_lanes[k] as int,
                        lane_before(ms@, k).1,
                        t as int,
                    )
                &&& step.0.len() == d
                &&& lane_sum(step.0@, 0, d - 1) == optimal_lanes.len()
                &&& forall|j: int|
                    0 <= j < d ==> #[trigger] step.0[j] == handled(
                        step.1.lanes@,
                        j,
                        optimal_lanes.len() as int,
                    )
            },
            Err(_) => false,
        }),
{
    if w != 0 {
        return Err(Failure::UnsupportedPredictionWindow(w));
    }
    let bound = optimal_lanes.len();
    let mut lanes: Vec<i32> = Vec::new();
    let mut horizons: Vec<i32> = Vec::new();
    let mut k: usize = 0;
    while k < bound
        invariant
            k <= bound,
            bound == optimal_lanes.len(),
            d >= 0,
            t >= 0,
            ms.len() > 0 ==> ms@.last().lanes.len() == bound && ms@.last().horizons.len() == bound,
            forall|i: int|
                0 <= i < bound ==> 0 <= #[trigger] optimal_lanes[i] < d && horizon_defined(
                    hitting_cost@,
                    switching_cost@,
                    optimal_lanes[i] as int,
                    t as int,
                ),
            forall|i: int|
                0 <= i < bound && ms.len() > 0 ==> 0 <= (#[trigger] ms@.last().lanes@[i]) < d
                    && horizon_defined(
                    hitting_cost@,
                    switching_cost@,
                    ms@.last().lanes@[i] as int,
                    t as int,
                ),
            lanes.len() == k,
            horizons.len() == k,
            forall|i: int| 0 <= i < k ==> 0 <= #[trigger] lanes@[i] < d,
            forall|i: int|
                0 <= i < k ==> (#[trigger] lanes@[i]) == next_lane(
                    lane_before(ms@, i).0,
                    optimal_lanes[i] as int,
                    lane_before(ms@, i).1,
                    t as int,
                ) && horizons@[i] == next_horizon(
                    hitting_cost@,
                    switching_cost@,
                    lane_before(ms@, i).0,
                    optimal_lanes[i] as int,
                    lane_before(ms@, i).1,
                    t as int,
                ),
        decreases bound - k,
    {
        let prev_lane: i32 = if ms.len() == 0 {
            0
        } else {
            ms[ms.len() - 1].lanes[k]
        };
        let horizon: i32 = if ms.len() == 0 {
            0
        } else {
            ms[ms.len() - 1].horizons[k]
        };
        assert(ms.len() > 0 ==> 0 <= ms@.last().lanes@[k as int] < d);
        assert(0 <= optimal_lanes[k as int] < d);
        if prev_lane < optimal_lanes[k] || t >= horizon {
            let lane: i32 = optimal_lanes[k];
            lanes.push(lane);
            horizons.push(t + next_time_horizon(hitting_cost, switching_cost, lane));
        } else {
            let stay: i32 = t + next_time_horizon(hitting_cost, switching_cost, prev_lane);
            lanes.push(prev_lane);
            if horizon >= stay {
                horizons.push(horizon);
            } else {
                horizons.push(stay);
            }
        }
        k = k + 1;
    }
    let config = collect_config(d, &lanes);
    Ok((config, Memory { lanes, horizons }))
}

/// Within the bounds the levels add up to at most what the bounds add up
/// to.
pub proof fn lemma_lane_sum_bounded(x: Seq<i32>, bounds: Seq<i32>, from: int, to: int)
    requires
        0 <= from,
        to < x.len(),
        in_bounds(x, bounds),
    ensures
        lane_sum(x, from, to) <= lane_sum(bounds, from, to),
    decreases to - from + 1,
{
    if to >= from {
        lemma_lane_sum_bounded(x, bounds, from, to - 1);
        assert(0 <= x[to] <= bounds[to]);
    }
}

/// Finds the lanes of an optimal schedule: searches a schedule of least
/// cost within the bounds and maps each of `bound` lanes to the dimension
/// that handles it under the last configuration of that schedule. The
/// first dimension of the problem stands for no dimension of lanes.
pub fn find_optimal_lanes(p: &Problem, bound: usize) -> (r: Result<Lanes, Failure>)
    requires
        p@.wf(),
        p@.d <= i32::MAX,
        bound <= i32::MAX,
        lane_sum(p@.bounds, 1, p@.d - 1) <= i32::MAX,
    ensures
        match r {
            Ok(lanes) => match spec_graph_search(
                p@,
                product(all_values(p@.bounds), p@.d as int),
            ) {
                Ok(path) => lanes.len() == bound && forall|k: int|
                    0 <= k < bound ==> #[trigger] lanes[k] == lane_of(
                        path.schedule.last(),
                        p@.d - 1,
                        k,
                    ),
                Err(_) => false,
            },
            Err(e) => spec_graph_search(p@, product(all_values(p@.bounds), p@.d as int)) == Err::<
                PathView,
                Failure,
            >(e),
        },
        r.is_ok() <==> total_until(p@, product(all_values(p@.bounds), p@.d as int), p@.t_end),
{
    let path = match optimal_graph_search(p) {
        Ok(path) => path,
        Err(e) => {
            return Err(e);
        },
    };
    let now = &path.schedule[path.schedule.len() - 1];
    proof {
        let x = rows(path.schedule@)[path.schedule.len() - 1];
        assert(now@ == x);
        assert(path@.schedule.last() == x);
        assert(in_bounds(x, p@.bounds));
        lemma_lane_sum_bounded(x, p@.bounds, 1, p@.d - 1);
        assert forall|k: int| 1 <= k <= p@.d - 1 implies #[trigger] now@[k] >= 0 by {
            assert(0 <= x[k] <= p@.bounds[k]);
        }
    }
    Ok(build_lanes(now, (p.d - 1) as i32, bound))
}

} // verus!

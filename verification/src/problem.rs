//! Problem instances.

use vstd::prelude::*;
use crate::config::{same_config, Config};

verus! {

/// The largest hitting cost of a configuration at a time step, and the
/// largest total of switching cost times bound over the dimensions.
pub const STEP_LIMIT: u64 = 0x1000_0000_0000_0000;

/// Mathematical value of a [`Problem`].
pub struct ProblemView {
    pub d: nat,
    pub t_end: int,
    pub bounds: Seq<i32>,
    pub switching_cost: Seq<u64>,
    pub hitting_cost: Seq<Seq<(Seq<i32>, u64)>>,
}

/// An integral smoothed optimization problem.
pub struct Problem {
    /// Number of dimensions.
    pub d: usize,
    /// Number of time steps.
    pub t_end: i32,
    /// Largest level of each dimension.
    pub bounds: Vec<i32>,
    /// Cost of raising each dimension by one unit.
    pub switching_cost: Vec<u64>,
    /// For each time step, first at index zero, the configurations with a
    /// defined hitting cost, each with that cost.
    pub hitting_cost: Vec<Vec<(Config, u64)>>,
}

/// The entries of one time step, each configuration taken by its view.
pub open spec fn entry_rows(v: Seq<(Vec<i32>, u64)>) -> Seq<(Seq<i32>, u64)> {
    Seq::new(v.len(), |i: int| (v[i].0@, v[i].1))
}

/// The tables of all time steps, each configuration taken by its view.
pub open spec fn table_rows(v: Seq<Vec<(Vec<i32>, u64)>>) -> Seq<Seq<(Seq<i32>, u64)>> {
    Seq::new(v.len(), |i: int| entry_rows(v[i]@))
}

impl View for Problem {
    type V = ProblemView;

    open spec fn view(&self) -> ProblemView {
        ProblemView {
            d: self.d as nat,
            t_end: self.t_end as int,
            bounds: self.bounds@,
            switching_cost: self.switching_cost@,
            hitting_cost: table_rows(self.hitting_cost@),
        }
    }
}

/// The cost of the first entry for `config`, if there is one.
pub open spec fn lookup(entries: Seq<(Seq<i32>, u64)>, config: Seq<i32>) -> Option<u64>
    decreases entries.len(),
{
    if entries.len() == 0 {
        None
    } else if entries[0].0 == config {
        Some(entries[0].1)
    } else {
        lookup(entries.drop_first(), config)
    }
}

/// Switching cost times bound, summed over the first `n` dimensions.
pub open spec fn switching_total(switching_cost: Seq<u64>, bounds: Seq<i32>, n: int) -> int
    decreases n,
{
    if n <= 0 {
        0
    } else {
        switching_total(switching_cost, bounds, n - 1) + switching_cost[n - 1] * bounds[n - 1]
    }
}

impl ProblemView {
    /// Hitting cost of `config` at time step `t`, where it is defined.
    pub open spec fn hitting(&self, t: int, config: Seq<i32>) -> Option<u64> {
        if 1 <= t <= self.hitting_cost.len() {
            lookup(self.hitting_cost[t - 1], config)
        } else {
            None
        }
    }

    /// At least one dimension and one time step, a horizon that leaves room
    /// for one more layer, a non-negative bound and a switching cost for
    /// each dimension, and costs within [`STEP_LIMIT`].
    pub open spec fn wf(&self) -> bool {
        &&& self.d >= 1
        &&& 1 <= self.t_end < i32::MAX
        &&& self.bounds.len() == self.d
        &&& self.switching_cost.len() == self.d
        &&& forall|k: int| 0 <= k < self.d ==> #[trigger] self.bounds[k] >= 0
        &&& switching_total(self.switching_cost, self.bounds, self.d as int) <= STEP_LIMIT
        &&& forall|t: int, i: int|
            0 <= t < self.hitting_cost.len() && 0 <= i < self.hitting_cost[t].len()
                ==> (#[trigger] self.hitting_cost[t][i]).1 <= STEP_LIMIT
    }
}

pub proof fn lemma_lookup_bounded(entries: Seq<(Seq<i32>, u64)>, config: Seq<i32>, limit: u64)
    requires
        forall|i: int| 0 <= i < entries.len() ==> (#[trigger] entries[i]).1 <= limit,
    ensures
        lookup(entries, config) matches Some(c) ==> c <= limit,
    decreases entries.len(),
{
    if entries.len() > 0 && entries[0].0 != config {
        let rest = entries.drop_first();
        assert forall|i: int| 0 <= i < rest.len() implies (#[trigger] rest[i]).1 <= limit by {
            assert(rest[i] == entries[i + 1]);
        }
        lemma_lookup_bounded(rest, config, limit);
    }
}

/// The total of switching cost times bound grows with the dimensions.
pub proof fn lemma_switching_total_monotone(
    switching_cost: Seq<u64>,
    bounds: Seq<i32>,
    m: int,
    n: int,
)
    requires
        0 <= m <= n <= bounds.len(),
        forall|k: int| 0 <= k < bounds.len() ==> #[trigger] bounds[k] >= 0,
    ensures
        0 <= switching_total(switching_cost, bounds, m) <= switching_total(
            switching_cost,
            bounds,
            n,
        ),
    decreases n,
{
    if m < n {
        lemma_switching_total_monotone(switching_cost, bounds, m, n - 1);
        assert(switching_cost[n - 1] * bounds[n - 1] >= 0) by (nonlinear_arith)
            requires
                switching_cost[n - 1] >= 0,
                bounds[n - 1] >= 0,
        ;
    } else if m > 0 {
        lemma_switching_total_monotone(switching_cost, bounds, m - 1, m - 1);
        assert(switching_cost[m - 1] * bounds[m - 1] >= 0) by (nonlinear_arith)
            requires
                switching_cost[m - 1] >= 0,
                bounds[m - 1] >= 0,
        ;
    }
}

/// One dimension's switching cost times its bound is within the total.
pub proof fn lemma_switching_term(switching_cost: Seq<u64>, bounds: Seq<i32>, k: int, n: int)
    requires
        0 <= k < n <= bounds.len(),
        forall|j: int| 0 <= j < bounds.len() ==> #[trigger] bounds[j] >= 0,
    ensures
        0 <= switching_cost[k] * bounds[k] <= switching_total(switching_cost, bounds, n),
{
    lemma_switching_total_monotone(switching_cost, bounds, k, k);
    lemma_switching_total_monotone(switching_cost, bounds, k + 1, n);
    assert(switching_cost[k] * bounds[k] >= 0) by (nonlinear_arith)
        requires
            switching_cost[k] >= 0,
            bounds[k] >= 0,
    ;
}

impl Problem {
    /// Tells whether the problem is well-formed.
    pub fn verify(&self) -> (r: bool)
        ensures
            r == self@.wf(),
    {
        if self.d < 1 || self.t_end < 1 || self.t_end == i32::MAX || self.bounds.len() != self.d
            || self.switching_cost.len() != self.d {
            return false;
        }
        let mut k: usize = 0;
        while k < self.d
            invariant
                k <= self.d,
                self.bounds.len() == self.d,
                forall|j: int| 0 <= j < k ==> #[trigger] self.bounds[j] >= 0,
            decreases self.d - k,
        {
            if self.bounds[k] < 0 {
                return false;
            }
            k = k + 1;
        }
        let mut total: u128 = 0;
        let mut k: usize = 0;
        while k < self.d
            invariant
                k <= self.d,
                self.bounds.len() == self.d,
                self.switching_cost.len() == self.d,
                forall|j: int| 0 <= j < self.d ==> #[trigger] self.bounds[j] >= 0,
                total == switching_total(self@.switching_cost, self@.bounds, k as int),
                total <= STEP_LIMIT,
            decreases self.d - k,
        {
            let s: u128 = self.switching_cost[k] as u128;
            let b: u128 = self.bounds[k] as u128;
            assert(0 <= s * b <= 0xffff_ffff_ffff_ffff * 0x7fff_ffff) by (nonlinear_arith)
                requires
                    0 <= s <= 0xffff_ffff_ffff_ffff,
                    0 <= b <= 0x7fff_ffff,
            ;
            total = total + s * b;
            k = k + 1;
            if total > STEP_LIMIT as u128 {
                proof {
                    lemma_switching_total_monotone(
                        self@.switching_cost,
                        self@.bounds,
                        k as int,
                        self@.d as int,
                    );
                }
                return false;
            }
        }
        let mut t: usize = 0;
        while t < self.hitting_cost.len()
            invariant
                t <= self.hitting_cost.len(),
                forall|s: int, i: int|
                    0 <= s < t && 0 <= i < self@.hitting_cost[s].len() ==> (
                    #[trigger] self@.hitting_cost[s][i]).1 <= STEP_LIMIT,
            decreases self.hitting_cost.len() - t,
        {
            let entries = &self.hitting_cost[t];
            assert(self@.hitting_cost[t as int] == entry_rows(entries@));
            let mut i: usize = 0;
            while i < entries.len()
                invariant
                    i <= entries.len(),
                    t < self.hitting_cost.len(),
                    self@.hitting_cost[t as int] == entry_rows(entries@),
                    forall|j: int| 0 <= j < i ==> (#[trigger] entries@[j]).1 <= STEP_LIMIT,
                decreases entries.len() - i,
            {
                if entries[i].1 > STEP_LIMIT {
                    assert(self@.hitting_cost[t as int][i as int].1 > STEP_LIMIT);
                    return false;
                }
                i = i + 1;
            }
            assert forall|j: int| 0 <= j < self@.hitting_cost[t as int].len() implies (
            #[trigger] self@.hitting_cost[t as int][j]).1 <= STEP_LIMIT by {
                assert(entries@[j].1 <= STEP_LIMIT);
            }
            t = t + 1;
        }
        true
    }

    /// Hitting cost of `config` at time step `t`, where it is defined.
    pub fn hit_cost(&self, t: i32, config: &Config) -> (r: Option<u64>)
        ensures
            r == self@.hitting(t as int, config@),
    {
        if t < 1 || t as usize > self.hitting_cost.len() {
            return None;
        }
        let entries = &self.hitting_cost[(t - 1) as usize];
        let ghost all = entry_rows(entries@);
        assert(all.skip(0) =~= all);
        assert(self@.hitting_cost[t - 1] == all);
        let mut i: usize = 0;
        while i < entries.len()
            invariant
                i <= entries.len(),
                all == entry_rows(entries@),
                self@.hitting(t as int, config@) == lookup(all, config@),
                lookup(all, config@) == lookup(all.skip(i as int), config@),
            decreases entries.len() - i,
        {
            proof {
                let rest = all.skip(i as int);
                assert(rest[0] == all[i as int]);
                assert(rest.drop_first() =~= all.skip(i + 1));
            }
            if same_config(&entries[i].0, config) {
                return Some(entries[i].1);
            }
            i = i + 1;
        }
        assert(all.skip(i as int).len() == 0);
        None
    }
}

} // verus!

//! Configurations, schedules and paths.

use vstd::prelude::*;

verus! {

/// One integer level per dimension.
pub type Config = Vec<i32>;

/// One configuration per time step, the first for time step one.
pub type Schedule = Vec<Config>;

/// The configurations of a list, each taken by its view.
pub open spec fn rows(v: Seq<Vec<i32>>) -> Seq<Seq<i32>> {
    Seq::new(v.len(), |i: int| v[i]@)
}

/// The configuration of `d` zeros.
pub open spec fn zeros(d: nat) -> Seq<i32> {
    Seq::new(d, |i: int| 0i32)
}

/// The largest cost of a single search.
pub const COST_MAX: u128 = 0xffff_ffff_ffff_ffff;

/// Mathematical value of a [`Path`].
pub struct PathView {
    pub schedule: Seq<Seq<i32>>,
    pub cost: int,
}

/// A schedule prefix and its accumulated cost.
#[derive(Debug)]
pub struct Path {
    pub schedule: Schedule,
    pub cost: u128,
}

impl View for Path {
    type V = PathView;

    open spec fn view(&self) -> PathView {
        PathView { schedule: rows(self.schedule@), cost: self.cost as int }
    }
}

impl PathView {
    /// Every step of the prefix has cost at most [`COST_MAX`].
    pub open spec fn wf(&self) -> bool {
        0 <= self.cost <= self.schedule.len() * COST_MAX
    }
}

impl Path {

    /// The empty prefix at no cost.
    pub fn empty() -> (r: Path)
        ensures
            r@.schedule == Seq::<Seq<i32>>::empty(),
            r@.cost == 0,
            r@.wf(),
    {
        let r = Path { schedule: Vec::new(), cost: 0 };
        assert(r@.schedule =~= Seq::<Seq<i32>>::empty());
        r
    }

    /// A copy of this path.
    pub fn duplicate(&self) -> (r: Path)
        ensures
            r@ == self@,
    {
        let r = Path { schedule: copy_schedule(&self.schedule), cost: self.cost };
        assert(r@.schedule =~= self@.schedule);
        r
    }
}

/// Builds the configuration of `d` zeros.
pub fn zero_config(d: usize) -> (r: Config)
    ensures
        r@ == zeros(d as nat),
{
    let mut r: Vec<i32> = Vec::new();
    let mut i: usize = 0;
    while i < d
        invariant
            i <= d,
            r@ == zeros(i as nat),
        decreases d - i,
    {
        r.push(0);
        i = i + 1;
        assert(r@ =~= zeros(i as nat));
    }
    r
}

/// Tells whether two configurations hold the same levels.
pub fn same_config(a: &Config, b: &Config) -> (r: bool)
    ensures
        r == (a@ == b@),
{
    if a.len() != b.len() {
        return false;
    }
    let mut i: usize = 0;
    while i < a.len()
        invariant
            i <= a.len(),
            a.len() == b.len(),
            forall|j: int| 0 <= j < i ==> a@[j] == b@[j],
        decreases a.len() - i,
    {
        if a[i] != b[i] {
            return false;
        }
        i = i + 1;
    }
    assert(a@ =~= b@);
    true
}

/// Copies a configuration.
pub fn copy_config(c: &Config) -> (r: Config)
    ensures
        r@ == c@,
{
    let mut r: Vec<i32> = Vec::new();
    let mut i: usize = 0;
    while i < c.len()
        invariant
            i <= c.len(),
            r@ == c@.take(i as int),
        decreases c.len() - i,
    {
        r.push(c[i]);
        i = i + 1;
        assert(r@ =~= c@.take(i as int));
    }
    assert(c@.take(c.len() as int) =~= c@);
    r
}

/// Copies a schedule.
pub fn copy_schedule(s: &Schedule) -> (r: Schedule)
    ensures
        rows(r@) == rows(s@),
{
    let mut r: Vec<Config> = Vec::new();
    let mut i: usize = 0;
    while i < s.len()
        invariant
            i <= s.len(),
            r.len() == i,
            forall|j: int| 0 <= j < i ==> r@[j]@ == s@[j]@,
        decreases s.len() - i,
    {
        r.push(copy_config(&s[i]));
        i = i + 1;
    }
    assert(rows(r@) =~= rows(s@));
    r
}

} // verus!

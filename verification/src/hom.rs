//! Homogeneous problems in one dimension: a number of servers, a cost of
//! running `x` of them at each time step, and a cost of powering one up.

use vstd::prelude::*;

verus! {

/// The largest number of servers.
pub const SERVER_LIMIT: i32 = 0x4000_0000;

/// What each server beyond the number of the problem costs more, at each
/// time step, than that number of servers together.
pub const EPS: u64 = 1;

/// Mathematical value of a [`DiscreteHomProblem`].
pub struct HomView {
    pub m: int,
    pub t_end: int,
    pub beta: u64,
    pub f: Seq<Seq<Option<u64>>>,
}

/// A homogeneous problem with an integral number of servers.
pub struct DiscreteHomProblem {
    /// Number of servers.
    pub m: i32,
    /// Number of time steps.
    pub t_end: i32,
    /// Cost of powering up one server.
    pub beta: u64,
    /// For each time step, first at index zero, the cost of each number of
    /// servers from zero to `m`.
    pub f: Vec<Vec<Option<u64>>>,
}

/// The rows of a table, each taken by its view.
pub open spec fn cost_rows(v: Seq<Vec<Option<u64>>>) -> Seq<Seq<Option<u64>>> {
    Seq::new(v.len(), |i: int| v[i]@)
}

impl View for DiscreteHomProblem {
    type V = HomView;

    open spec fn view(&self) -> HomView {
        HomView {
            m: self.m as int,
            t_end: self.t_end as int,
            beta: self.beta,
            f: cost_rows(self.f@),
        }
    }
}

/// `n` is a power of two.
pub open spec fn is_pow2(n: int) -> bool
    decreases n,
{
    if n <= 1 {
        n == 1
    } else {
        n % 2 == 0 && is_pow2(n / 2)
    }
}

/// `r` is the smallest power of two that is at least `m`.
pub open spec fn smallest_pow2(m: int, r: int) -> bool {
    is_pow2(r) && m <= r && (r == 1 || r < 2 * m)
}

impl HomView {
    /// Cost of `x` servers at time step `t`, where it is defined.
    pub open spec fn cost(&self, t: int, x: int) -> Option<u64> {
        if 1 <= t <= self.f.len() && 0 <= x < self.f[t - 1].len() {
            self.f[t - 1][x]
        } else {
            None
        }
    }

    /// The table has a row for each time step and in it a cost for each
    /// number of servers from zero to `m`, which is within
    /// [`SERVER_LIMIT`]; the horizon leaves room for one more step.
    pub open spec fn wf(&self) -> bool {
        &&& 0 <= self.m <= SERVER_LIMIT
        &&& 0 <= self.t_end < i32::MAX
        &&& self.f.len() == self.t_end
        &&& forall|t: int| 0 <= t < self.f.len() ==> (#[trigger] self.f[t]).len() == self.m + 1
        &&& forall|t: int, x: int|
            1 <= t <= self.t_end && 0 <= x <= self.m ==> (#[trigger] self.cost(t, x)).is_some()
    }

    /// The cost of every number of servers up to the next power of two
    /// fits the table: at each time step the cost of `m` servers and
    /// [`EPS`], taken for each of twice `m` servers, is a cost.
    pub open spec fn extendable(&self) -> bool {
        forall|t: int|
            1 <= t <= self.t_end ==> ((#[trigger] self.cost(t, self.m)).unwrap() + EPS) * (2
                * self.m + 1) <= u64::MAX
    }
}

/// Computes the smallest power of two that is at least `m`.
pub fn next_pow2(m: i32) -> (r: i32)
    requires
        m <= SERVER_LIMIT,
    ensures
        smallest_pow2(m as int, r as int),
        1 <= r <= SERVER_LIMIT,
{
    let mut n: i32 = 1;
    let ghost mut q: int = SERVER_LIMIT as int;
    assert(is_pow2(1));
    assert(is_pow2(0x4000_0000)) by {
        reveal_with_fuel(is_pow2, 32);
    }
    while n < m
        invariant
            1 <= n <= SERVER_LIMIT,
            m <= SERVER_LIMIT,
            is_pow2(n as int),
            is_pow2(q),
            n * q == SERVER_LIMIT,
            n == 1 || n < 2 * m,
        decreases SERVER_LIMIT - n,
    {
        proof {
            assert(is_pow2(2 * n)) by {
                assert((2 * n) / 2 == n);
            }
            assert(q > 1) by (nonlinear_arith)
                requires
                    n * q == SERVER_LIMIT,
                    1 <= n < SERVER_LIMIT,
            ;
            assert((2 * n) * (q / 2) == SERVER_LIMIT) by (nonlinear_arith)
                requires
                    n * q == SERVER_LIMIT,
                    q % 2 == 0,
            ;
            assert(2 * n <= SERVER_LIMIT) by (nonlinear_arith)
                requires
                    (2 * n) * (q / 2) == SERVER_LIMIT,
                    q / 2 >= 1,
                    n >= 1,
            ;
            q = q / 2;
        }
        n = 2 * n;
    }
    n
}

impl DiscreteHomProblem {
    /// Cost of `x` servers at time step `t`, where it is defined.
    pub fn cost(&self, t: i32, x: i32) -> (r: Option<u64>)
        ensures
            r == self@.cost(t as int, x as int),
    {
        if t < 1 || t as usize > self.f.len() {
            return None;
        }
        let row = &self.f[(t - 1) as usize];
        assert(self@.f[t - 1] == row@);
        if x < 0 || x as usize >= row.len() {
            return None;
        }
        row[x as usize]
    }

    /// Tells whether the problem is well-formed.
    pub fn verify(&self) -> (r: bool)
        ensures
            r == self@.wf(),
    {
        if self.m < 0 || self.m > SERVER_LIMIT || self.t_end < 0 || self.t_end == i32::MAX
            || self.f.len() != self.t_end as usize {
            return false;
        }
        let mut t: usize = 0;
        while t < self.f.len()
            invariant
                t <= self.f.len(),
                0 <= self.m <= SERVER_LIMIT,
                self.f.len() == self.t_end,
                forall|s: int| 0 <= s < t ==> (#[trigger] self@.f[s]).len() == self.m + 1,
                forall|s: int, x: int|
                    1 <= s <= t && 0 <= x <= self.m ==> (#[trigger] self@.cost(s, x)).is_some(),
            decreases self.f.len() - t,
        {
            let row = &self.f[t];
            assert(self@.f[t as int] == row@);
            if row.len() != self.m as usize + 1 {
                return false;
            }
            let mut x: usize = 0;
            while x < row.len()
                invariant
                    x <= row.len(),
                    t < self.f.len(),
                    self@.f[t as int] == row@,
                    row.len() == self.m + 1,
                    forall|y: int| 0 <= y < x ==> (#[trigger] row@[y]).is_some(),
                decreases row.len() - x,
            {
                if row[x].is_none() {
                    assert(self@.cost(t + 1, x as int).is_none());
                    return false;
                }
                x = x + 1;
            }
            assert forall|s: int, y: int| 1 <= s <= t + 1 && 0 <= y <= self.m implies (
            #[trigger] self@.cost(s, y)).is_some() by {
                if s == t + 1 {
                    assert(self@.cost(s, y) == row@[y]);
                }
            }
            t = t + 1;
        }
        true
    }

    /// Extends the problem to a number of servers that is a power of two.
    /// Up to the given number the costs stay; each number `x` beyond it
    /// costs `x` times the cost of the given number and [`EPS`], so that no
    /// schedule gains by it.
    pub fn transform(&self) -> (r: DiscreteHomProblem)
        requires
            self@.wf(),
            self@.extendable(),
        ensures
            r@.wf(),
            smallest_pow2(self@.m, r@.m),
            r@.t_end == self@.t_end,
            r@.beta == self@.beta,
            r@.f.len() == r@.t_end,
            forall|t: int| 0 <= t < r@.f.len() ==> (#[trigger] r@.f[t]).len() == r@.m + 1,
            forall|t: int, x: int|
                1 <= t <= r@.t_end && 0 <= x <= r@.m ==> #[trigger] r@.cost(t, x) == (if x
                    <= self@.m {
                    self@.cost(t, x)
                } else {
                    Some((x * (self@.cost(t, self@.m).unwrap() + EPS)) as u64)
                }),
    {
        let m = next_pow2(self.m);
        let mut f: Vec<Vec<Option<u64>>> = Vec::new();
        let mut t: i32 = 1;
        while t <= self.t_end
            invariant
                1 <= t <= self.t_end + 1,
                self@.wf(),
                self@.extendable(),
                self.m <= m <= SERVER_LIMIT,
                m <= 2 * self.m + 1,
                f.len() == t - 1,
                forall|s: int| 0 <= s < f.len() ==> (#[trigger] f@[s]).len() == m + 1,
                forall|s: int, x: int|
                    0 <= s < f.len() && 0 <= x <= m ==> #[trigger] f@[s]@[x] == (if x <= self@.m {
                        self@.cost(s + 1, x)
                    } else {
                        Some((x * (self@.cost(s + 1, self@.m).unwrap() + EPS)) as u64)
                    }),
            decreases self.t_end + 1 - t,
        {
            assert(self@.cost(t as int, self@.m).is_some());
            let top: u64 = match self.cost(t, self.m) {
                Some(c) => c,
                None => 0,
            };
            assert((top + EPS) * (2 * self.m + 1) <= u64::MAX);
            assert(top + EPS <= u64::MAX) by (nonlinear_arith)
                requires
                    (top + EPS) * (2 * self.m + 1) <= u64::MAX,
                    self.m >= 0,
                    top + EPS >= 0,
            ;
            let mut row: Vec<Option<u64>> = Vec::new();
            let mut x: i32 = 0;
            while x <= m
                invariant
                    0 <= x <= m + 1,
                    1 <= t <= self.t_end,
                    self@.wf(),
                    self.m <= m <= SERVER_LIMIT,
                    m <= 2 * self.m + 1,
                    self@.cost(t as int, self@.m) == Some(top),
                    (top + EPS) * (2 * self.m + 1) <= u64::MAX,
                    top + EPS <= u64::MAX,
                    row.len() == x,
                    forall|y: int|
                        0 <= y < x ==> #[trigger] row@[y] == (if y <= self@.m {
                            self@.cost(t as int, y)
                        } else {
                            Some((y * (top + EPS)) as u64)
                        }),
                decreases m + 1 - x,
            {
                if x <= self.m {
                    row.push(self.cost(t, x));
                } else {
                    assert(0 <= x * (top + EPS) <= (top + EPS) * (2 * self.m + 1))
                        by (nonlinear_arith)
                        requires
                            0 <= x <= 2 * self.m + 1,
                            0 <= top + EPS,
                    ;
                    row.push(Some(x as u64 * (top + EPS)));
                }
                x = x + 1;
            }
            f.push(row);
            t = t + 1;
        }
        let r = DiscreteHomProblem { m, t_end: self.t_end, beta: self.beta, f };
        assert forall|s: int| 0 <= s < r@.f.len() implies (#[trigger] r@.f[s]).len() == r@.m + 1 by {
            assert(r.f@[s].len() == m + 1);
        }
        assert forall|s: int, x: int| 1 <= s <= r@.t_end && 0 <= x <= r@.m implies #[trigger] r@.cost(
            s,
            x,
        ) == (if x <= self@.m {
            self@.cost(s, x)
        } else {
            Some((x * (self@.cost(s, self@.m).unwrap() + EPS)) as u64)
        }) by {
            assert(r@.f[s - 1] == r.f@[s - 1]@);
            assert(r.f@[s - 1].len() == m + 1);
            assert(r.f@[s - 1]@[x] == r@.cost(s, x));
        }
        r
    }
}

} // verus!

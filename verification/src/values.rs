//! Candidate values: for each dimension the sorted levels that a search
//! considers.

use vstd::prelude::*;
use crate::config::{rows, Config};

verus! {

/// Each element is smaller than those after it.
pub open spec fn increasing(vs: Seq<i32>) -> bool {
    forall|i: int, j: int| 0 <= i < j < vs.len() ==> vs[i] < vs[j]
}

/// `vs` with `v` put in its place; `vs` itself where it holds `v` already.
pub open spec fn insert_sorted(vs: Seq<i32>, v: i32) -> Seq<i32>
    decreases vs.len(),
{
    if vs.len() == 0 {
        seq![v]
    } else if vs.last() < v {
        vs.push(v)
    } else if vs.last() == v {
        vs
    } else {
        insert_sorted(vs.drop_last(), v).push(vs.last())
    }
}

/// Inserting keeps the order and adds exactly the new value.
pub proof fn lemma_insert_sorted(vs: Seq<i32>, v: i32)
    requires
        increasing(vs),
    ensures
        increasing(insert_sorted(vs, v)),
        forall|x: i32|
            #![trigger insert_sorted(vs, v).contains(x)]
            #![trigger vs.contains(x)]
            insert_sorted(vs, v).contains(x) <==> (vs.contains(x) || x == v),
        insert_sorted(vs, v).len() >= 1,
        vs.len() >= 1 && vs[0] <= v ==> insert_sorted(vs, v)[0] == vs[0],
        vs.len() == 0 || v < vs[0] ==> insert_sorted(vs, v)[0] == v,
    decreases vs.len(),
{
    let r = insert_sorted(vs, v);
    if vs.len() == 0 {
        assert(r[0] == v);
        assert forall|x: i32| r.contains(x) <==> (vs.contains(x) || x == v) by {
            if r.contains(x) {
                let i = choose|i: int| 0 <= i < r.len() && r[i] == x;
            }
        }
    } else if vs.last() < v {
        assert forall|x: i32| r.contains(x) <==> (vs.contains(x) || x == v) by {
            if r.contains(x) {
                let i = choose|i: int| 0 <= i < r.len() && r[i] == x;
                if i < vs.len() {
                    assert(vs[i] == x);
                }
            }
            if vs.contains(x) {
                let i = choose|i: int| 0 <= i < vs.len() && vs[i] == x;
                assert(r[i] == x);
            }
            if x == v {
                assert(r[vs.len() as int] == x);
            }
        }
    } else if vs.last() == v {
        assert(vs[vs.len() - 1] == v);
    } else {
        let front = vs.drop_last();
        lemma_insert_sorted(front, v);
        let f = insert_sorted(front, v);
        assert forall|x: i32| f.contains(x) implies x < vs.last() by {
            if front.contains(x) {
                let i = choose|i: int| 0 <= i < front.len() && front[i] == x;
                assert(vs[i] == x);
            }
        }
        assert forall|i: int, j: int| 0 <= i < j < r.len() implies r[i] < r[j] by {
            if j == f.len() {
                assert(f.contains(r[i]));
            }
        }
        assert forall|x: i32| r.contains(x) <==> (vs.contains(x) || x == v) by {
            if r.contains(x) {
                let i = choose|i: int| 0 <= i < r.len() && r[i] == x;
                if i < f.len() {
                    assert(f[i] == x);
                    assert(f.contains(x));
                    if front.contains(x) {
                        let j = choose|j: int| 0 <= j < front.len() && front[j] == x;
                        assert(vs[j] == x);
                    }
                } else {
                    assert(vs[vs.len() - 1] == x);
                }
            }
            if vs.contains(x) {
                let i = choose|i: int| 0 <= i < vs.len() && vs[i] == x;
                if i < front.len() {
                    assert(front[i] == x);
                    assert(front.contains(x));
                    assert(f.contains(x));
                    let j = choose|j: int| 0 <= j < f.len() && f[j] == x;
                    assert(r[j] == x);
                } else {
                    assert(r[f.len() as int] == x);
                }
            }
            if x == v {
                assert(f.contains(x));
                let j = choose|j: int| 0 <= j < f.len() && f[j] == x;
                assert(r[j] == x);
            }
        }
        if front.len() >= 1 {
            assert(front[0] == vs[0]);
        }
    }
}

/// Where the elements before `i` are smaller than `v` and those from `i` on
/// are larger, `v` goes to position `i`.
proof fn lemma_insert_position(vs: Seq<i32>, v: i32, i: int)
    requires
        0 <= i <= vs.len(),
        forall|j: int| 0 <= j < i ==> vs[j] < v,
        forall|j: int| i <= j < vs.len() ==> vs[j] > v,
    ensures
        insert_sorted(vs, v) == vs.insert(i, v),
    decreases vs.len() - i,
{
    if vs.len() == 0 {
        assert(vs.insert(i, v) =~= seq![v]);
    } else if i == vs.len() {
        assert(vs.insert(i, v) =~= vs.push(v));
    } else {
        lemma_insert_position(vs.drop_last(), v, i);
        assert(vs.insert(i, v) =~= vs.drop_last().insert(i, v).push(vs.last()));
    }
}

/// Where position `i` holds `v` and the elements after it are larger,
/// nothing is inserted.
proof fn lemma_insert_present(vs: Seq<i32>, v: i32, i: int)
    requires
        0 <= i < vs.len(),
        vs[i] == v,
        forall|j: int| i < j < vs.len() ==> vs[j] > v,
    ensures
        insert_sorted(vs, v) == vs,
    decreases vs.len() - i,
{
    if i < vs.len() - 1 {
        lemma_insert_present(vs.drop_last(), v, i);
        assert(vs.drop_last().push(vs.last()) =~= vs);
    }
}

/// Puts `v` in its place in the sorted list `vs`, unless it is there.
pub fn insert_value(vs: &mut Vec<i32>, v: i32)
    requires
        increasing(old(vs)@),
    ensures
        final(vs)@ == insert_sorted(old(vs)@, v),
        increasing(final(vs)@),
        forall|x: i32|
            #![trigger final(vs)@.contains(x)]
            #![trigger old(vs)@.contains(x)]
            final(vs)@.contains(x) <==> (old(vs)@.contains(x) || x == v),
{
    let mut i: usize = vs.len();
    while i > 0 && vs[i - 1] > v
        invariant
            i <= vs.len(),
            vs@ == old(vs)@,
            forall|j: int| i <= j < vs.len() ==> vs@[j] > v,
        decreases i,
    {
        i = i - 1;
    }
    proof {
        lemma_insert_sorted(vs@, v);
    }
    if i > 0 && vs[i - 1] == v {
        proof {
            lemma_insert_present(vs@, v, i - 1);
        }
    } else {
        proof {
            assert forall|j: int| 0 <= j < i implies vs@[j] < v by {
                if j < i - 1 {
                    assert(vs@[j] < vs@[i - 1]);
                }
            }
            lemma_insert_position(vs@, v, i as int);
        }
        vs.insert(i, v);
    }
}

/// The sorted levels that the first `n` configurations hold in dimension `k`.
pub open spec fn dimension_range(configs: Seq<Seq<i32>>, k: int, n: int) -> Seq<i32>
    decreases n,
{
    if n <= 0 {
        Seq::empty()
    } else {
        insert_sorted(dimension_range(configs, k, n - 1), configs[n - 1][k])
    }
}

/// Level `x` occurs in dimension `k` of one of the first `n` configurations.
pub open spec fn occurs(configs: Seq<Seq<i32>>, k: int, n: int, x: i32) -> bool {
    exists|i: int| 0 <= i < n && #[trigger] configs[i][k] == x
}

/// A dimension's range is sorted and holds exactly the levels that occur.
pub proof fn lemma_dimension_range(configs: Seq<Seq<i32>>, k: int, n: int)
    requires
        0 <= n <= configs.len(),
    ensures
        increasing(dimension_range(configs, k, n)),
        forall|x: i32| #[trigger]
            dimension_range(configs, k, n).contains(x) <==> occurs(configs, k, n, x),
    decreases n,
{
    if n > 0 {
        lemma_dimension_range(configs, k, n - 1);
        let prev = dimension_range(configs, k, n - 1);
        let last = configs[n - 1][k];
        lemma_insert_sorted(prev, last);
        let r = dimension_range(configs, k, n);
        assert forall|x: i32| #[trigger] r.contains(x) <==> occurs(configs, k, n, x) by {
            if r.contains(x) {
                if prev.contains(x) {
                    assert(occurs(configs, k, n - 1, x));
                    let i = choose|i: int| 0 <= i < n - 1 && #[trigger] configs[i][k] == x;
                    assert(0 <= i < n && configs[i][k] == x);
                } else {
                    assert(configs[n - 1][k] == x);
                }
            }
            if occurs(configs, k, n, x) {
                let i = choose|i: int| 0 <= i < n && #[trigger] configs[i][k] == x;
                if i < n - 1 {
                    assert(occurs(configs, k, n - 1, x));
                    assert(prev.contains(x));
                }
            }
        }
    } else {
        assert forall|x: i32| #[trigger]
            dimension_range(configs, k, n).contains(x) <==> occurs(configs, k, n, x) by {}
    }
}

/// Collects the levels that the configurations hold in dimension `k`, sorted
/// and each once.
pub fn collect_dimension_range(configs: &Vec<Config>, k: usize) -> (vs: Vec<i32>)
    requires
        forall|i: int| 0 <= i < configs.len() ==> k < (#[trigger] configs[i]).len(),
    ensures
        vs@ == dimension_range(rows(configs@), k as int, configs.len() as int),
        increasing(vs@),
        forall|x: i32| #[trigger]
            vs@.contains(x) <==> occurs(rows(configs@), k as int, configs.len() as int, x),
{
    let mut vs: Vec<i32> = Vec::new();
    let mut i: usize = 0;
    while i < configs.len()
        invariant
            i <= configs.len(),
            forall|j: int| 0 <= j < configs.len() ==> k < (#[trigger] configs[j]).len(),
            vs@ == dimension_range(rows(configs@), k as int, i as int),
        decreases configs.len() - i,
    {
        proof {
            lemma_dimension_range(rows(configs@), k as int, i as int);
        }
        insert_value(&mut vs, configs[i][k]);
        i = i + 1;
    }
    proof {
        lemma_dimension_range(rows(configs@), k as int, i as int);
    }
    vs
}

/// The ranges of the first `n` dimensions.
pub open spec fn dimension_ranges(configs: Seq<Seq<i32>>, n: int) -> Seq<Seq<i32>> {
    Seq::new(n as nat, |k: int| dimension_range(configs, k, configs.len() as int))
}

/// Collects the range of each of the `d` dimensions.
pub fn collect_ranges(configs: &Vec<Config>, d: usize) -> (values: Vec<Vec<i32>>)
    requires
        forall|i: int| 0 <= i < configs.len() ==> (#[trigger] configs[i]).len() == d,
    ensures
        rows(values@) == dimension_ranges(rows(configs@), d as int),
{
    let mut values: Vec<Vec<i32>> = Vec::new();
    let mut k: usize = 0;
    while k < d
        invariant
            k <= d,
            values@.len() == k,
            forall|i: int| 0 <= i < configs.len() ==> (#[trigger] configs[i]).len() == d,
            rows(values@) == dimension_ranges(rows(configs@), k as int),
        decreases d - k,
    {
        let vs = collect_dimension_range(configs, k);
        let ghost before = values@;
        values.push(vs);
        k = k + 1;
        assert(rows(values@) =~= dimension_ranges(rows(configs@), k as int)) by {
            assert forall|j: int| 0 <= j < k implies rows(values@)[j] == dimension_ranges(
                rows(configs@),
                k as int,
            )[j] by {
                if j < k - 1 {
                    assert(values@[j] == before[j]);
                    assert(rows(before)[j] == dimension_ranges(rows(configs@), k - 1)[j]);
                }
            }
        }
    }
    values
}

/// The levels that every candidate list of a dimension with this bound
/// starts from: zero, and one where the bound admits it.
pub open spec fn base_levels(bound: int) -> Seq<i32> {
    if bound >= 1 {
        seq![0i32, 1i32]
    } else {
        seq![0i32]
    }
}

/// The number of leading levels that lie between zero and the bound.
pub open spec fn admitted(levels: Seq<i32>, bound: int) -> int
    decreases levels.len(),
{
    if levels.len() == 0 || levels[0] < 0 || levels[0] > bound {
        0
    } else {
        1 + admitted(levels.drop_first(), bound)
    }
}

/// `vs` with each of the first `n` levels put in its place.
pub open spec fn insert_all(vs: Seq<i32>, levels: Seq<i32>, n: int) -> Seq<i32>
    decreases n,
{
    if n <= 0 {
        vs
    } else {
        insert_sorted(insert_all(vs, levels, n - 1), levels[n - 1])
    }
}

/// The candidate levels of the exponential enumeration: the base levels,
/// the leading levels up to the first that leaves the range from zero to
/// the bound, and the bound.
pub open spec fn values_via_exp(bound: int, levels: Seq<i32>) -> Seq<i32> {
    insert_sorted(insert_all(base_levels(bound), levels, admitted(levels, bound)), bound as i32)
}

/// Level `x` is among the first `n` levels.
pub open spec fn among(levels: Seq<i32>, n: int, x: i32) -> bool {
    exists|j: int| 0 <= j < n && #[trigger] levels[j] == x
}

/// The admitted levels are a prefix, each within the range.
pub proof fn lemma_admitted(levels: Seq<i32>, bound: int)
    ensures
        0 <= admitted(levels, bound) <= levels.len(),
        forall|j: int| 0 <= j < admitted(levels, bound) ==> 0 <= #[trigger] levels[j] <= bound,
        admitted(levels, bound) < levels.len() ==> !(0 <= levels[admitted(levels, bound)]
            <= bound),
    decreases levels.len(),
{
    if !(levels.len() == 0 || levels[0] < 0 || levels[0] > bound) {
        let rest = levels.drop_first();
        lemma_admitted(rest, bound);
        assert forall|j: int| 0 <= j < admitted(levels, bound) implies 0 <= #[trigger] levels[j]
            <= bound by {
            if j > 0 {
                assert(levels[j] == rest[j - 1]);
            }
        }
        if admitted(levels, bound) < levels.len() {
            assert(levels[admitted(levels, bound)] == rest[admitted(rest, bound)]);
        }
    }
}

/// Inserting levels keeps the order and adds exactly those levels.
pub proof fn lemma_insert_all(vs: Seq<i32>, levels: Seq<i32>, n: int)
    requires
        increasing(vs),
        0 <= n <= levels.len(),
    ensures
        increasing(insert_all(vs, levels, n)),
        forall|x: i32| #[trigger]
            insert_all(vs, levels, n).contains(x) <==> (vs.contains(x) || among(levels, n, x)),
    decreases n,
{
    if n > 0 {
        lemma_insert_all(vs, levels, n - 1);
        let prev = insert_all(vs, levels, n - 1);
        lemma_insert_sorted(prev, levels[n - 1]);
        let r = insert_all(vs, levels, n);
        assert forall|x: i32| #[trigger] r.contains(x) <==> (vs.contains(x) || among(
            levels,
            n,
            x,
        )) by {
            if r.contains(x) {
                if prev.contains(x) {
                    if among(levels, n - 1, x) {
                        let j = choose|j: int| 0 <= j < n - 1 && #[trigger] levels[j] == x;
                        assert(0 <= j < n && levels[j] == x);
                    }
                } else {
                    assert(levels[n - 1] == x);
                }
            }
            if among(levels, n, x) {
                let j = choose|j: int| 0 <= j < n && #[trigger] levels[j] == x;
                if j < n - 1 {
                    assert(among(levels, n - 1, x));
                    assert(prev.contains(x));
                }
            }
            if vs.contains(x) {
                assert(prev.contains(x));
            }
        }
    } else {
        assert forall|x: i32| #[trigger]
            insert_all(vs, levels, n).contains(x) <==> (vs.contains(x) || among(
                levels,
                n,
                x,
            )) by {}
    }
}

/// The base levels are sorted and hold zero, and one where the bound
/// admits it.
pub proof fn lemma_base_levels(bound: int)
    ensures
        increasing(base_levels(bound)),
        forall|x: i32| #[trigger]
            base_levels(bound).contains(x) <==> (x == 0 || (x == 1 && bound >= 1)),
{
    let b = base_levels(bound);
    assert forall|x: i32| #[trigger] b.contains(x) <==> (x == 0 || (x == 1 && bound >= 1)) by {
        if x == 0 {
            assert(b[0] == x);
        }
        if x == 1 && bound >= 1 {
            assert(b[1] == x);
        }
    }
}

/// The candidates of the exponential enumeration are zero, the bound, one
/// where the bound admits it, and the admitted levels; they are sorted.
pub proof fn lemma_values_via_exp(bound: i32, levels: Seq<i32>)
    requires
        bound >= 0,
    ensures
        increasing(values_via_exp(bound as int, levels)),
        forall|x: i32| #[trigger]
            values_via_exp(bound as int, levels).contains(x) <==> (x == 0 || (x == 1 && bound >= 1)
                || x == bound || among(levels, admitted(levels, bound as int), x)),
{
    let n = admitted(levels, bound as int);
    lemma_base_levels(bound as int);
    lemma_admitted(levels, bound as int);
    lemma_insert_all(base_levels(bound as int), levels, n);
    let filled = insert_all(base_levels(bound as int), levels, n);
    lemma_insert_sorted(filled, bound);
    assert forall|x: i32| #[trigger]
        values_via_exp(bound as int, levels).contains(x) <==> (x == 0 || (x == 1 && bound >= 1)
            || x == bound || among(levels, admitted(levels, bound as int), x)) by {
        assert(values_via_exp(bound as int, levels).contains(x) <==> (filled.contains(x) || x
            == bound));
        assert(filled.contains(x) <==> (base_levels(bound as int).contains(x) || among(
            levels,
            n,
            x,
        )));
    }
}

/// An enumeration that admits every level that another admits gives every
/// candidate that the other gives: finer levels refine the candidates.
pub proof fn lemma_more_levels_more_values(bound: i32, coarse: Seq<i32>, fine: Seq<i32>)
    requires
        bound >= 0,
        forall|x: i32| #[trigger]
            among(coarse, admitted(coarse, bound as int), x) ==> among(
                fine,
                admitted(fine, bound as int),
                x,
            ),
    ensures
        forall|x: i32| #[trigger]
            values_via_exp(bound as int, coarse).contains(x) ==> values_via_exp(
                bound as int,
                fine,
            ).contains(x),
{
    lemma_values_via_exp(bound, coarse);
    lemma_values_via_exp(bound, fine);
    assert forall|x: i32| #[trigger]
        values_via_exp(bound as int, coarse).contains(x) implies values_via_exp(
        bound as int,
        fine,
    ).contains(x) by {
        if among(coarse, admitted(coarse, bound as int), x) {
            assert(among(fine, admitted(fine, bound as int), x));
        }
    }
}

/// The levels that start every candidate list.
pub fn build_base(bound: i32) -> (vs: Vec<i32>)
    ensures
        vs@ == base_levels(bound as int),
{
    let mut vs: Vec<i32> = Vec::new();
    vs.push(0);
    if bound >= 1 {
        vs.push(1);
    }
    assert(vs@ =~= base_levels(bound as int));
    vs
}

/// Builds the candidate levels of a dimension from the levels of an
/// exponential enumeration, given in the order of the enumeration: the
/// enumeration ends with the first level that leaves the range from zero to
/// the bound; zero, the bound, and one where the bound admits it, are
/// always candidates.
pub fn build_values_via_exp(bound: i32, levels: &Vec<i32>) -> (vs: Vec<i32>)
    requires
        bound >= 0,
    ensures
        vs@ == values_via_exp(bound as int, levels@),
        increasing(vs@),
        forall|x: i32| #[trigger]
            vs@.contains(x) <==> (x == 0 || (x == 1 && bound >= 1) || x == bound || among(
                levels@,
                admitted(levels@, bound as int),
                x,
            )),
        forall|i: int| 0 <= i < vs@.len() ==> 0 <= #[trigger] vs@[i] <= bound,
{
    let mut vs = build_base(bound);
    let mut i: usize = 0;
    proof {
        lemma_base_levels(bound as int);
        assert(levels@.skip(0) =~= levels@);
    }
    while i < levels.len() && 0 <= levels[i] && levels[i] <= bound
        invariant
            i <= levels.len(),
            increasing(vs@),
            admitted(levels@, bound as int) == i + admitted(levels@.skip(i as int), bound as int),
            vs@ == insert_all(base_levels(bound as int), levels@, i as int),
        decreases levels.len() - i,
    {
        proof {
            assert(levels@.skip(i as int)[0] == levels@[i as int]);
            assert(levels@.skip(i as int).drop_first() =~= levels@.skip(i + 1));
        }
        insert_value(&mut vs, levels[i]);
        i = i + 1;
    }
    proof {
        if i < levels.len() {
            assert(levels@.skip(i as int)[0] == levels@[i as int]);
        }
        assert(admitted(levels@, bound as int) == i);
        lemma_admitted(levels@, bound as int);
        lemma_insert_all(base_levels(bound as int), levels@, i as int);
    }
    let ghost filled = vs@;
    insert_value(&mut vs, bound);
    proof {
        assert forall|j: int| 0 <= j < vs@.len() implies 0 <= #[trigger] vs@[j] <= bound by {
            let x = vs@[j];
            assert(vs@.contains(x));
            if filled.contains(x) && among(levels@, i as int, x) {
                let a = choose|a: int| 0 <= a < i && #[trigger] levels@[a] == x;
            }
        }
    }
    vs
}

/// Level `j`, at least two, is kept by the logarithmic enumeration: the
/// entries of `logs` for `j - 1` and for `j + 1` differ.
pub open spec fn log_kept(logs: Seq<(i32, i32)>, j: int) -> bool {
    2 <= j && j + 1 < logs.len() && (logs[j - 1].0 != logs[j + 1].0 || logs[j - 1].1 != logs[j
        + 1].1)
}

/// `vs` with each kept level from two to `n` put in its place.
pub open spec fn log_fold(vs: Seq<i32>, logs: Seq<(i32, i32)>, n: int) -> Seq<i32>
    decreases n,
{
    if n < 2 {
        vs
    } else if log_kept(logs, n) {
        insert_sorted(log_fold(vs, logs, n - 1), n as i32)
    } else {
        log_fold(vs, logs, n - 1)
    }
}

/// The candidate levels of the logarithmic enumeration: the base levels,
/// the kept levels up to the bound, and the bound.
pub open spec fn values_via_log(bound: int, logs: Seq<(i32, i32)>) -> Seq<i32> {
    insert_sorted(log_fold(base_levels(bound), logs, bound), bound as i32)
}

/// Folding keeps the order and adds exactly the kept levels.
pub proof fn lemma_log_fold(vs: Seq<i32>, logs: Seq<(i32, i32)>, n: int)
    requires
        increasing(vs),
        n <= i32::MAX,
    ensures
        increasing(log_fold(vs, logs, n)),
        forall|x: i32| #[trigger]
            log_fold(vs, logs, n).contains(x) <==> (vs.contains(x) || (x <= n && log_kept(
                logs,
                x as int,
            ))),
    decreases n,
{
    if n >= 2 {
        lemma_log_fold(vs, logs, n - 1);
        let prev = log_fold(vs, logs, n - 1);
        if log_kept(logs, n) {
            lemma_insert_sorted(prev, n as i32);
        }
        let r = log_fold(vs, logs, n);
        assert forall|x: i32| #[trigger] r.contains(x) <==> (vs.contains(x) || (x <= n
            && log_kept(logs, x as int))) by {
            if vs.contains(x) {
                assert(prev.contains(x));
            }
        }
    } else {
        assert forall|x: i32| #[trigger]
            log_fold(vs, logs, n).contains(x) <==> (vs.contains(x) || (x <= n && log_kept(
                logs,
                x as int,
            ))) by {}
    }
}

/// Builds the candidate levels of a dimension from the logarithms of the
/// levels: entry `n` of `logs` holds the logarithm of `n`, rounded down and
/// rounded up. A level from two to the bound is a candidate where the
/// entries of its two neighbours differ; zero, the bound, and one where the
/// bound admits it, are always candidates.
pub fn build_values_via_log(bound: i32, logs: &Vec<(i32, i32)>) -> (vs: Vec<i32>)
    requires
        bound >= 0,
    ensures
        vs@ == values_via_log(bound as int, logs@),
        increasing(vs@),
        forall|x: i32| #[trigger]
            vs@.contains(x) <==> (x == 0 || (x == 1 && bound >= 1) || x == bound || (x <= bound
                && log_kept(logs@, x as int))),
        forall|i: int| 0 <= i < vs@.len() ==> 0 <= #[trigger] vs@[i] <= bound,
{
    let mut vs = build_base(bound);
    proof {
        lemma_base_levels(bound as int);
    }
    let mut j: i32 = 1;
    while j < bound
        invariant
            1 <= j,
            j <= bound || j == 1,
            increasing(vs@),
            vs@ == log_fold(base_levels(bound as int), logs@, j as int),
        decreases bound - j,
    {
        j = j + 1;
        let a: usize = (j - 1) as usize;
        let b: usize = j as usize + 1;
        if b < logs.len() && (logs[a].0 != logs[b].0 || logs[a].1 != logs[b].1) {
            insert_value(&mut vs, j);
        }
    }
    proof {
        if bound < 2 {
            assert(log_fold(base_levels(bound as int), logs@, j as int) == base_levels(
                bound as int,
            ));
            assert(log_fold(base_levels(bound as int), logs@, bound as int) == base_levels(
                bound as int,
            ));
        }
        assert(vs@ == log_fold(base_levels(bound as int), logs@, bound as int));
        lemma_log_fold(base_levels(bound as int), logs@, bound as int);
    }
    let ghost filled = vs@;
    insert_value(&mut vs, bound);
    proof {
        assert forall|i: int| 0 <= i < vs@.len() implies 0 <= #[trigger] vs@[i] <= bound by {
            let x = vs@[i];
            assert(vs@.contains(x));
        }
    }
    vs
}

/// Every level from zero to the bound.
pub open spec fn all_levels(bound: int) -> Seq<i32> {
    Seq::new((bound + 1) as nat, |i: int| i as i32)
}

/// Enumerates every level from zero to the bound: the candidate levels of
/// an exact search.
pub fn build_exact_values(bound: i32) -> (vs: Vec<i32>)
    requires
        bound >= 0,
    ensures
        vs@ == all_levels(bound as int),
        increasing(vs@),
{
    let mut vs: Vec<i32> = Vec::new();
    let mut x: i32 = 0;
    while x < bound
        invariant
            0 <= x <= bound,
            vs@ == Seq::new(x as nat, |i: int| i as i32),
        decreases bound - x,
    {
        vs.push(x);
        x = x + 1;
        assert(vs@ =~= Seq::new(x as nat, |i: int| i as i32));
    }
    vs.push(bound);
    assert(vs@ =~= all_levels(bound as int));
    vs
}

/// For each dimension every level from zero to its bound.
pub open spec fn all_values(bounds: Seq<i32>) -> Seq<Seq<i32>> {
    Seq::new(bounds.len(), |k: int| all_levels(bounds[k] as int))
}

/// Enumerates, for each dimension, every level from zero to its bound.
pub fn build_all_exact_values(bounds: &Vec<i32>) -> (values: Vec<Vec<i32>>)
    requires
        forall|k: int| 0 <= k < bounds.len() ==> #[trigger] bounds[k] >= 0,
    ensures
        rows(values@) == all_values(bounds@),
{
    let mut values: Vec<Vec<i32>> = Vec::new();
    let mut k: usize = 0;
    while k < bounds.len()
        invariant
            k <= bounds.len(),
            values.len() == k,
            forall|j: int| 0 <= j < bounds.len() ==> #[trigger] bounds[j] >= 0,
            forall|j: int| 0 <= j < k ==> (#[trigger] values@[j])@ == all_levels(bounds[j] as int),
        decreases bounds.len() - k,
    {
        values.push(build_exact_values(bounds[k]));
        k = k + 1;
    }
    assert(rows(values@) =~= all_values(bounds@));
    values
}

} // verus!

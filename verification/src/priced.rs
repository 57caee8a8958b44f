//! What the cached paths are worth: the cost of each is at least the
//! objective of its schedule.

use vstd::prelude::*;
use crate::cache::{
    cache_get, cache_put, cache_sound, lemma_cache_find, lemma_cache_get_sound, CacheView,
};
use crate::config::PathView;
use crate::objective::{before, objective};
use crate::problem::ProblemView;
use crate::subpath::{extended, spec_update};
use crate::vertice::{raise_cost, VerticeView};
use crate::walk::{below, lemma_raise_cost_from_above};

verus! {

/// The objective of the path's schedule is defined and at most the path's
/// cost, and the vertice lies below the last configuration of the
/// schedule: below all zeros where the schedule is empty.
pub open spec fn entry_priced(v: VerticeView, path: PathView, p: ProblemView) -> bool {
    let n = path.schedule.len() as int;
    &&& match objective(p, path.schedule, n) {
        Some(o) => o <= path.cost,
        None => false,
    }
    &&& below(v.config, before(path.schedule, n + 1, p.d))
}

/// Every cached path is priced.
pub open spec fn cache_priced(c: CacheView, p: ProblemView) -> bool {
    forall|i: int| 0 <= i < c.len() ==> entry_priced((#[trigger] c[i]).0, c[i].1, p)
}

/// The objective of the first steps does not depend on a later step.
pub proof fn lemma_objective_prefix(p: ProblemView, xs: Seq<Seq<i32>>, x: Seq<i32>, n: int)
    requires
        0 <= n <= xs.len(),
    ensures
        objective(p, xs.push(x), n) == objective(p, xs, n),
    decreases n,
{
    if n > 0 {
        lemma_objective_prefix(p, xs, x, n - 1);
        assert(xs.push(x)[n - 1] == xs[n - 1]);
        if n >= 2 {
            assert(xs.push(x)[n - 2] == xs[n - 2]);
        }
    }
}

/// A path that is cached in a priced cache is priced.
pub proof fn lemma_cache_get_priced(c: CacheView, key: VerticeView, p: ProblemView)
    requires
        cache_priced(c, p),
    ensures
        cache_get(c, key) matches Some(path) ==> entry_priced(key, path, p),
{
    lemma_cache_find(c, key);
}

/// Caching a priced path keeps the cache priced.
pub proof fn lemma_cache_put_priced(c: CacheView, key: VerticeView, path: PathView, p: ProblemView)
    requires
        cache_priced(c, p),
        entry_priced(key, path, p),
    ensures
        cache_priced(cache_put(c, key, path), p),
{
    lemma_cache_find(c, key);
    let n = cache_put(c, key, path);
    assert forall|i: int| 0 <= i < n.len() implies entry_priced((#[trigger] n[i]).0, n[i].1, p) by {
        if i < c.len() && n[i] == c[i] {
            assert(entry_priced(c[i].0, c[i].1, p));
        }
    }
}

/// Recording a configuration that lies above the start and the end of a
/// subpath, at a cost of at least its hitting cost and of raising the
/// start to it, keeps the cache priced.
pub proof fn lemma_update_priced(
    cache: CacheView,
    from: VerticeView,
    to: VerticeView,
    x: Seq<i32>,
    c: u64,
    p: ProblemView,
)
    requires
        cache_sound(cache, p.bounds),
        cache_priced(cache, p),
        x.len() == p.d,
        below(from.config, x),
        below(to.config, x),
        match p.hitting(from.t, x) {
            Some(h) => raise_cost(p.switching_cost, from.config, x, p.d as int) + h <= c,
            None => false,
        },
    ensures
        spec_update(cache, from, to, x, c) matches Ok(next) ==> cache_priced(next, p),
{
    lemma_cache_get_sound(cache, from, p.bounds);
    lemma_cache_get_priced(cache, from, p);
    match cache_get(cache, from) {
        Some(prev) => {
            let path = extended(prev, x, c);
            let n = prev.schedule.len() as int;
            let b = before(prev.schedule, n + 1, p.d);
            lemma_objective_prefix(p, prev.schedule, x, n);
            assert(path.schedule[n] == x);
            assert(before(path.schedule, n + 1, p.d) == b) by {
                if n >= 1 {
                    assert(path.schedule[n - 1] == prev.schedule[n - 1]);
                }
            }
            lemma_raise_cost_from_above(p.switching_cost, from.config, b, x, p.d as int);
            assert(before(path.schedule, n + 2, p.d) == x);
            assert(entry_priced(to, path, p));
            lemma_cache_put_priced(cache, to, path, p);
        },
        None => {},
    }
}

} // verus!

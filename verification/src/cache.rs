//! The cache of the best known path to each vertice.

use vstd::prelude::*;
use crate::config::{Path, PathView};
use crate::vertice::{in_bounds, in_universe, Vertice, VerticeView};

verus! {

/// Mathematical value of a [`PathCache`]: its entries in the order in which
/// their vertices were first cached.
pub type CacheView = Seq<(VerticeView, PathView)>;

/// The entries of a list, each taken by its view.
pub open spec fn cache_rows(v: Seq<(Vertice, Path)>) -> CacheView {
    Seq::new(v.len(), |i: int| (v[i].0@, v[i].1@))
}

/// The first position whose vertice is `key`.
pub open spec fn cache_find(c: CacheView, key: VerticeView) -> Option<int>
    decreases c.len(),
{
    if c.len() == 0 {
        None
    } else {
        match cache_find(c.drop_last(), key) {
            Some(i) => Some(i),
            None => if c.last().0 == key {
                Some(c.len() - 1)
            } else {
                None
            },
        }
    }
}

/// The path cached for `key`.
pub open spec fn cache_get(c: CacheView, key: VerticeView) -> Option<PathView> {
    match cache_find(c, key) {
        Some(i) => Some(c[i].1),
        None => None,
    }
}

/// The cache with `path` cached for `key`, in place of an earlier path for
/// it.
pub open spec fn cache_put(c: CacheView, key: VerticeView, path: PathView) -> CacheView {
    match cache_find(c, key) {
        Some(i) => c.update(i, (key, path)),
        None => c.push((key, path)),
    }
}

/// Every cached path is well-formed.
pub open spec fn cache_wf(c: CacheView) -> bool {
    forall|i: int| 0 <= i < c.len() ==> (#[trigger] c[i]).1.wf()
}

/// `cache_find` gives the first position of `key`, and none only where no
/// position holds it.
pub proof fn lemma_cache_find(c: CacheView, key: VerticeView)
    ensures
        match cache_find(c, key) {
            Some(i) => 0 <= i < c.len() && c[i].0 == key && forall|j: int|
                0 <= j < i ==> c[j].0 != key,
            None => forall|j: int| 0 <= j < c.len() ==> c[j].0 != key,
        },
    decreases c.len(),
{
    if c.len() > 0 {
        lemma_cache_find(c.drop_last(), key);
        match cache_find(c.drop_last(), key) {
            Some(i) => {
                assert(c.drop_last()[i] == c[i]);
                assert forall|j: int| 0 <= j < i implies c[j].0 != key by {
                    assert(c.drop_last()[j] == c[j]);
                }
            },
            None => {
                assert forall|j: int| 0 <= j < c.len() - 1 implies c[j].0 != key by {
                    assert(c.drop_last()[j] == c[j]);
                }
            },
        }
    }
}

/// After `cache_put` the key has the new path and every other key has what
/// it had.
pub proof fn lemma_cache_put(c: CacheView, key: VerticeView, path: PathView, other: VerticeView)
    ensures
        cache_get(cache_put(c, key, path), key) == Some(path),
        other != key ==> cache_get(cache_put(c, key, path), other) == cache_get(c, other),
{
    let n = cache_put(c, key, path);
    lemma_cache_find(c, key);
    lemma_cache_find(n, key);
    lemma_cache_find(c, other);
    lemma_cache_find(n, other);
    match cache_find(c, key) {
        Some(i) => {
            assert(n[i].0 == key);
            assert forall|j: int| 0 <= j < n.len() && j != i implies n[j] == c[j] by {}
            match cache_find(n, key) {
                Some(i2) => {
                    if i2 < i {
                        assert(n[i2] == c[i2]);
                    }
                },
                None => {},
            }
            if other != key {
                match cache_find(c, other) {
                    Some(a) => {
                        assert(n[a] == c[a]);
                        match cache_find(n, other) {
                            Some(b) => {
                                if b < a {
                                    assert(n[b] == c[b]);
                                }
                            },
                            None => {},
                        }
                    },
                    None => {
                        match cache_find(n, other) {
                            Some(b) => {
                                assert(n[b] == c[b]);
                            },
                            None => {},
                        }
                    },
                }
            }
        },
        None => {
            assert(n[c.len() as int].0 == key);
            assert forall|j: int| 0 <= j < c.len() implies n[j] == c[j] by {}
            match cache_find(n, key) {
                Some(i2) => {
                    if i2 < c.len() {
                        assert(n[i2] == c[i2]);
                    }
                },
                None => {},
            }
            if other != key {
                match cache_find(c, other) {
                    Some(a) => {
                        assert(n[a] == c[a]);
                        match cache_find(n, other) {
                            Some(b) => {
                                if b < a {
                                    assert(n[b] == c[b]);
                                }
                            },
                            None => {},
                        }
                    },
                    None => {
                        match cache_find(n, other) {
                            Some(b) => {
                                if b < c.len() {
                                    assert(n[b] == c[b]);
                                }
                            },
                            None => {},
                        }
                    },
                }
            }
        },
    }
}

/// Every cached path has one configuration for each layer before its
/// vertice, each within the bounds.
pub open spec fn cache_sound(c: CacheView, bounds: Seq<i32>) -> bool {
    forall|i: int|
        0 <= i < c.len() ==> (#[trigger] c[i]).1.schedule.len() == c[i].0.t - 1 && forall|s: int|
            0 <= s < c[i].1.schedule.len() ==> in_bounds(#[trigger] c[i].1.schedule[s], bounds)
}

/// A path that is cached in a sound cache is sound.
pub proof fn lemma_cache_get_sound(c: CacheView, key: VerticeView, bounds: Seq<i32>)
    requires
        cache_sound(c, bounds),
    ensures
        cache_get(c, key) matches Some(path) ==> path.schedule.len() == key.t - 1 && forall|s: int|
            0 <= s < path.schedule.len() ==> in_bounds(#[trigger] path.schedule[s], bounds),
{
    lemma_cache_find(c, key);
}

/// Caching a sound path keeps the cache sound.
pub proof fn lemma_cache_put_sound(
    c: CacheView,
    key: VerticeView,
    path: PathView,
    bounds: Seq<i32>,
)
    requires
        cache_sound(c, bounds),
        path.schedule.len() == key.t - 1,
        forall|s: int| 0 <= s < path.schedule.len() ==> in_bounds(#[trigger] path.schedule[s], bounds),
    ensures
        cache_sound(cache_put(c, key, path), bounds),
{
    lemma_cache_find(c, key);
    let n = cache_put(c, key, path);
    assert forall|i: int| 0 <= i < n.len() implies (#[trigger] n[i]).1.schedule.len() == n[i].0.t
        - 1 && forall|s: int|
        0 <= s < n[i].1.schedule.len() ==> in_bounds(#[trigger] n[i].1.schedule[s], bounds) by {
        if i < c.len() && n[i] == c[i] {
            assert(c[i].1.schedule.len() == c[i].0.t - 1);
        }
    }
}

/// Every configuration of every cached path lies in the universe.
pub open spec fn cache_within(c: CacheView, values: Seq<Seq<i32>>) -> bool {
    forall|i: int, s: int|
        0 <= i < c.len() && 0 <= s < c[i].1.schedule.len() ==> in_universe(
            #[trigger] c[i].1.schedule[s],
            values,
        )
}

/// A path that is cached in a cache within the universe lies within it.
pub proof fn lemma_cache_get_within(c: CacheView, key: VerticeView, values: Seq<Seq<i32>>)
    requires
        cache_within(c, values),
    ensures
        cache_get(c, key) matches Some(path) ==> forall|s: int|
            0 <= s < path.schedule.len() ==> in_universe(#[trigger] path.schedule[s], values),
{
    lemma_cache_find(c, key);
}

/// Caching a path within the universe keeps the cache within it.
pub proof fn lemma_cache_put_within(
    c: CacheView,
    key: VerticeView,
    path: PathView,
    values: Seq<Seq<i32>>,
)
    requires
        cache_within(c, values),
        forall|s: int| 0 <= s < path.schedule.len() ==> in_universe(#[trigger] path.schedule[s], values),
    ensures
        cache_within(cache_put(c, key, path), values),
{
    lemma_cache_find(c, key);
    let n = cache_put(c, key, path);
    assert forall|i: int, s: int| 0 <= i < n.len() && 0 <= s < n[i].1.schedule.len() implies in_universe(
        #[trigger] n[i].1.schedule[s],
        values,
    ) by {
        if i < c.len() && n[i] == c[i] {
            assert(in_universe(c[i].1.schedule[s], values));
        }
    }
}

/// Every vertice that has a path in `before` has one in `after`.
pub open spec fn covers(after: CacheView, before: CacheView) -> bool {
    forall|k: VerticeView| cache_get(before, k).is_some() ==> (#[trigger] cache_get(after, k)).is_some()
}

/// Caching a path keeps the vertices that have one.
pub proof fn lemma_cache_put_covers(c: CacheView, key: VerticeView, path: PathView)
    ensures
        covers(cache_put(c, key, path), c),
        cache_get(cache_put(c, key, path), key).is_some(),
{
    assert forall|k: VerticeView| cache_get(c, k).is_some() implies (#[trigger] cache_get(
        cache_put(c, key, path),
        k,
    )).is_some() by {
        lemma_cache_put(c, key, path, k);
    }
    lemma_cache_put(c, key, path, key);
}

/// Every vertice that has a path in `before` has one in `after` that
/// costs no more.
pub open spec fn cheaper(after: CacheView, before: CacheView) -> bool {
    forall|k: VerticeView|
        cache_get(before, k).is_some() ==> match #[trigger] cache_get(after, k) {
            Some(b) => b.cost <= cache_get(before, k).unwrap().cost,
            None => false,
        }
}

/// Caching a path that costs less than the path it replaces makes the
/// cache cheaper.
pub proof fn lemma_cache_put_cheaper(c: CacheView, key: VerticeView, path: PathView)
    requires
        cache_get(c, key) matches Some(known) ==> path.cost <= known.cost,
    ensures
        cheaper(cache_put(c, key, path), c),
{
    assert forall|k: VerticeView| cache_get(c, k).is_some() implies match #[trigger] cache_get(
        cache_put(c, key, path),
        k,
    ) {
        Some(b) => b.cost <= cache_get(c, k).unwrap().cost,
        None => false,
    } by {
        lemma_cache_put(c, key, path, k);
    }
}

/// What is cheaper than a cache that is cheaper than a third is cheaper
/// than the third.
pub proof fn lemma_cheaper_chain(a: CacheView, b: CacheView, c: CacheView)
    requires
        cheaper(a, b),
        cheaper(b, c),
    ensures
        cheaper(a, c),
{
    assert forall|k: VerticeView| cache_get(c, k).is_some() implies match #[trigger] cache_get(a, k) {
        Some(x) => x.cost <= cache_get(c, k).unwrap().cost,
        None => false,
    } by {
        assert(cache_get(b, k).is_some());
    }
}

/// The best known path to each vertice that a sweep has reached.
pub struct PathCache {
    entries: Vec<(Vertice, Path)>,
}

impl View for PathCache {
    type V = CacheView;

    closed spec fn view(&self) -> CacheView {
        cache_rows(self.entries@)
    }
}

impl PathCache {
    /// The empty cache.
    pub fn new() -> (r: PathCache)
        ensures
            r@ == Seq::<(VerticeView, PathView)>::empty(),
            cache_wf(r@),
    {
        let r = PathCache { entries: Vec::new() };
        assert(r@ =~= Seq::<(VerticeView, PathView)>::empty());
        r
    }

    /// The position of the entry for `key`.
    fn find(&self, key: &Vertice) -> (r: Option<usize>)
        ensures
            match r {
                Some(i) => cache_find(self@, key@) == Some(i as int) && i < self.entries.len(),
                None => cache_find(self@, key@).is_none(),
            },
    {
        let mut i: usize = 0;
        while i < self.entries.len()
            invariant
                i <= self.entries.len(),
                forall|j: int| 0 <= j < i ==> self@[j].0 != key@,
            decreases self.entries.len() - i,
        {
            if self.entries[i].0.same(key) {
                proof {
                    lemma_cache_find(self@, key@);
                    assert(self@[i as int].0 == key@);
                }
                return Some(i);
            }
            i = i + 1;
        }
        proof {
            lemma_cache_find(self@, key@);
        }
        None
    }

    /// Tells whether a path is cached for `key`.
    pub fn contains(&self, key: &Vertice) -> (r: bool)
        ensures
            r == cache_get(self@, key@).is_some(),
    {
        self.find(key).is_some()
    }

    /// A copy of the path cached for `key`.
    pub fn get(&self, key: &Vertice) -> (r: Option<Path>)
        ensures
            match r {
                Some(path) => cache_get(self@, key@) == Some(path@),
                None => cache_get(self@, key@).is_none(),
            },
    {
        match self.find(key) {
            Some(i) => Some(self.entries[i].1.duplicate()),
            None => None,
        }
    }

    /// Caches `path` for `key`, in place of an earlier path for it.
    pub fn put(&mut self, key: Vertice, path: Path)
        ensures
            final(self)@ == cache_put(old(self)@, key@, path@),
            cache_wf(old(self)@) && path@.wf() ==> cache_wf(final(self)@),
    {
        let ghost before = self@;
        match self.find(&key) {
            Some(i) => {
                self.entries.set(i, (key, path));
                assert(self@ =~= before.update(i as int, (key@, path@)));
            },
            None => {
                self.entries.push((key, path));
                assert(self@ =~= before.push((key@, path@)));
            },
        }
        assert(cache_wf(before) && path@.wf() ==> cache_wf(self@)) by {
            if cache_wf(before) && path@.wf() {
                assert forall|j: int| 0 <= j < self@.len() implies (#[trigger] self@[j]).1.wf() by {
                    if j < before.len() && self@[j] == before[j] {
                        assert(before[j].1.wf());
                    }
                }
            }
        }
    }
}

} // verus!

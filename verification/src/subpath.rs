//! Shortest subpaths between the vertices of neighbouring time layers.

use vstd::prelude::*;
use pathfinding::prelude::astar;
use crate::cache::{
    cache_get, cache_put, cache_sound, cache_wf, cache_within, cheaper, covers,
    lemma_cache_get_sound, lemma_cache_get_within, lemma_cache_put_within,
    lemma_cache_put, lemma_cache_put_cheaper, lemma_cache_put_covers, lemma_cache_put_sound,
    CacheView, PathCache,
};
use crate::reach::{
    admissible, cheapest, connected, is_route, join, lemma_admissible, lemma_cheapest_within,
    lemma_subpath_exists, lemma_subpath_within, lemma_within_connected,
};
use crate::config::{copy_config, rows, Config, Path, PathView, COST_MAX};
use crate::priced::{cache_priced, lemma_update_priced};
use crate::problem::{Problem, ProblemView};
use crate::result::Failure;
use crate::vertice::{
    edges, in_bounds, in_universe, lemma_edges_wf, lemma_open_edges_wf, lemma_universe_in_bounds,
    search_edges, values_wf, Edge, Phase, Vertice, VerticeView,
};

use crate::vertice::raise_cost;
use crate::walk::{below, lemma_subpath_cost, walk_cost};

verus! {

/// The vertices of a list, each taken by its view.
pub open spec fn vertice_rows(v: Seq<Vertice>) -> Seq<VerticeView> {
    Seq::new(v.len(), |i: int| v[i]@)
}

/// What a search returns: the vertices of the path found, from the start to
/// the goal, and its cost; nothing where no path leads to the goal.
pub type Outcome = Option<(Seq<VerticeView>, u64)>;

/// The outcome of a search, each vertice taken by its view.
pub open spec fn outcome_view(r: Option<(Vec<Vertice>, u64)>) -> Outcome {
    match r {
        Some(found) => Some((vertice_rows(found.0@), found.1)),
        None => None,
    }
}

/// The outcome of the best-first search from `from` to `goal` that follows
/// the edges open toward `target` and is guided by the cost of raising each
/// dimension to the level of `target`.
pub uninterp spec fn shortest_path(
    p: ProblemView,
    values: Seq<Seq<i32>>,
    from: VerticeView,
    goal: VerticeView,
    target: VerticeView,
) -> Option<(Seq<VerticeView>, u64)>;

/// One of the edges ends in `v`.
pub open spec fn follows(es: Seq<Edge>, v: VerticeView) -> bool {
    exists|i: int| 0 <= i < es.len() && (#[trigger] es[i]).0 == v
}

/// Each vertice of the path but the first is the end of an edge, open
/// toward `target`, of the vertice before it.
pub open spec fn linked(
    path: Seq<VerticeView>,
    p: ProblemView,
    values: Seq<Seq<i32>>,
    target: VerticeView,
) -> bool {
    forall|i: int|
        0 <= i < path.len() - 1 ==> follows(
            search_edges(#[trigger] path[i], p, values, target),
            path[i + 1],
        )
}

/// Runs `pathfinding::prelude::astar` from `from`, with
/// [`Vertice::search_successors`] toward `target` as successors,
/// [`Vertice::raise_estimate`] toward `target` as heuristic and equality with
/// `goal` as success test.
///
/// Believed of `astar`, not proved:
/// - its result is determined by its arguments;
/// - a returned path starts at the start vertice, ends in a vertice that
///   passes the success test, and continues from each vertice to one of the
///   successors that were computed for it;
/// - the returned cost is at least what the edges of the returned path cost
///   together: the cost that `astar` records for a vertice is the cost
///   recorded for its parent when the parent was expanded, plus the cost of
///   the edge; later the parent's cost can only fall, and the recorded cost
///   of the start is zero;
/// - where the heuristic never exceeds the cost that remains to the goal,
///   which is required here, no path from the start to the goal costs less
///   than the returned cost;
/// - nothing is returned only where no path leads from the start to the
///   goal.
///
/// `astar` adds the costs of the edges of one path, and to that the
/// heuristic of a successor. The search cannot leave the layer of `from`
/// but for `target`, since every other vertice of the next layer is
/// blocked. A path within one layer raises each dimension at most from the
/// smallest to the largest candidate, and pays one hitting cost; each of
/// these two and the heuristic is within `STEP_LIMIT`, so no sum overflows.
#[verifier::external_body]
fn astar_path(
    p: &Problem,
    values: &Vec<Vec<i32>>,
    from: &Vertice,
    goal: &Vertice,
    target: &Vertice,
) -> (r: Option<(Vec<Vertice>, u64)>)
    requires
        p@.wf(),
        values_wf(rows(values@), p@.bounds),
        in_universe(from@.config, rows(values@)),
        in_bounds(target@.config, p@.bounds),
        1 <= from@.t <= p@.t_end,
        target@.t == from@.t + 1,
        target@.phase == Phase::PoweringUp,
        admissible(p@, rows(values@), goal@, target@),
    ensures
        outcome_view(r) == shortest_path(p@, rows(values@), from@, goal@, target@),
        r matches Some(found) ==> found.0@.len() >= 1 && found.0@[0]@ == from@
            && found.0@.last()@ == goal@ && linked(
            vertice_rows(found.0@),
            p@,
            rows(values@),
            target@,
        ) && walk_cost(
            vertice_rows(found.0@),
            p@,
            rows(values@),
            target@,
            found.0@.len() - 1,
        ) <= found.1,
        r.is_none() ==> !connected(from@, goal@, p@, rows(values@), target@),
        r matches Some(found) ==> cheapest(
            found.1 as int,
            from@,
            goal@,
            p@,
            rows(values@),
            target@,
        ),
{
    astar(
        from,
        |v: &Vertice| v.search_successors(p, values, target),
        |v: &Vertice| v.raise_estimate(target, p),
        |v: &Vertice| v.same(goal),
    )
}

/// The configuration of the first vertice of the path that is powering
/// down.
pub open spec fn first_down(path: Seq<VerticeView>) -> Option<Seq<i32>>
    decreases path.len(),
{
    if path.len() == 0 {
        None
    } else if path[0].phase == Phase::PoweringDown {
        Some(path[0].config)
    } else {
        first_down(path.drop_first())
    }
}

/// Finds the configuration of the first vertice of the path that is
/// powering down: the configuration chosen for the time step of the path.
pub fn first_power_down(path: &Vec<Vertice>) -> (r: Option<Config>)
    ensures
        match r {
            Some(x) => first_down(vertice_rows(path@)) == Some(x@),
            None => first_down(vertice_rows(path@)).is_none(),
        },
{
    let ghost all = vertice_rows(path@);
    assert(all.skip(0) =~= all);
    let mut i: usize = 0;
    while i < path.len()
        invariant
            i <= path.len(),
            all == vertice_rows(path@),
            first_down(all) == first_down(all.skip(i as int)),
        decreases path.len() - i,
    {
        proof {
            assert(all.skip(i as int)[0] == all[i as int]);
            assert(all.skip(i as int).drop_first() =~= all.skip(i + 1));
        }
        match path[i].phase() {
            Phase::PoweringDown => {
                return Some(copy_config(path[i].config()));
            },
            Phase::PoweringUp => {},
        }
        i = i + 1;
    }
    assert(all.skip(i as int).len() == 0);
    None
}

/// The path to `from` extended by `x`, at the cost of `from` plus `c`.
pub open spec fn extended(prev: PathView, x: Seq<i32>, c: u64) -> PathView {
    PathView { schedule: prev.schedule.push(x), cost: prev.cost + c }
}

/// The cache after a subpath from `from` to `to` was found, with `x` chosen
/// and at cost `c`: the path to `from`, extended, is cached for `to` unless
/// a path that costs no more is cached for it. Without a path to `from`
/// this is an error.
pub open spec fn spec_update(
    cache: CacheView,
    from: VerticeView,
    to: VerticeView,
    x: Seq<i32>,
    c: u64,
) -> Result<CacheView, Failure> {
    match cache_get(cache, from) {
        None => Err(Failure::PathsShouldBeCached),
        Some(prev) => {
            let path = extended(prev, x, c);
            match cache_get(cache, to) {
                Some(known) => if known.cost <= path.cost {
                    Ok(cache)
                } else {
                    Ok(cache_put(cache, to, path))
                },
                None => Ok(cache_put(cache, to, path)),
            }
        },
    }
}

/// Recording a configuration within the bounds for the next layer keeps the
/// cache sound.
pub proof fn lemma_update_sound(
    cache: CacheView,
    from: VerticeView,
    to: VerticeView,
    x: Seq<i32>,
    c: u64,
    bounds: Seq<i32>,
)
    requires
        cache_sound(cache, bounds),
        in_bounds(x, bounds),
        to.t == from.t + 1,
    ensures
        spec_update(cache, from, to, x, c) matches Ok(next) ==> cache_sound(next, bounds),
{
    lemma_cache_get_sound(cache, from, bounds);
    match cache_get(cache, from) {
        Some(prev) => {
            let path = extended(prev, x, c);
            assert forall|s: int| 0 <= s < path.schedule.len() implies in_bounds(
                #[trigger] path.schedule[s],
                bounds,
            ) by {
                if s < prev.schedule.len() {
                    assert(path.schedule[s] == prev.schedule[s]);
                }
            }
            lemma_cache_put_sound(cache, to, path, bounds);
        },
        None => {},
    }
}

/// Recording a subpath from a vertice that has a path gives its end one,
/// and keeps the vertices that have one.
pub proof fn lemma_update_covers(
    cache: CacheView,
    from: VerticeView,
    to: VerticeView,
    x: Seq<i32>,
    c: u64,
)
    ensures
        cache_get(cache, from).is_some() ==> spec_update(cache, from, to, x, c).is_ok(),
        spec_update(cache, from, to, x, c) matches Ok(next) ==> covers(next, cache) && cheaper(
            next,
            cache,
        ) && (match cache_get(next, to) {
            Some(b) => b.cost <= cache_get(cache, from).unwrap().cost + c,
            None => false,
        }),
{
    match cache_get(cache, from) {
        Some(prev) => {
            let path = extended(prev, x, c);
            lemma_cache_put_covers(cache, to, path);
            lemma_cache_put(cache, to, path, to);
            match cache_get(cache, to) {
                Some(known) => {
                    if known.cost <= path.cost {
                        assert(cheaper(cache, cache));
                    } else {
                        lemma_cache_put_cheaper(cache, to, path);
                    }
                },
                None => {
                    lemma_cache_put_cheaper(cache, to, path);
                },
            }
        },
        None => {},
    }
}

/// Recording a configuration of the universe keeps the cache within the
/// universe.
pub proof fn lemma_update_within(
    cache: CacheView,
    from: VerticeView,
    to: VerticeView,
    x: Seq<i32>,
    c: u64,
    values: Seq<Seq<i32>>,
)
    requires
        cache_within(cache, values),
        in_universe(x, values),
    ensures
        spec_update(cache, from, to, x, c) matches Ok(next) ==> cache_within(next, values),
{
    lemma_cache_get_within(cache, from, values);
    match cache_get(cache, from) {
        Some(prev) => {
            let path = extended(prev, x, c);
            assert forall|s: int| 0 <= s < path.schedule.len() implies in_universe(
                #[trigger] path.schedule[s],
                values,
            ) by {
                if s < prev.schedule.len() {
                    assert(path.schedule[s] == prev.schedule[s]);
                }
            }
            lemma_cache_put_within(cache, to, path, values);
        },
        None => {},
    }
}

/// Recording a subpath changes no entry but that of its end, and an entry
/// that is new there is the path to the start, extended.
pub proof fn lemma_update_others(
    cache: CacheView,
    from: VerticeView,
    to: VerticeView,
    x: Seq<i32>,
    c: u64,
)
    ensures
        spec_update(cache, from, to, x, c) matches Ok(next) ==> (forall|k: VerticeView|
            k != to ==> #[trigger] cache_get(next, k) == cache_get(cache, k)) && (cache_get(
            cache,
            to,
        ).is_none() ==> cache_get(next, to) == Some(
            extended(cache_get(cache, from).unwrap(), x, c),
        )),
{
    match cache_get(cache, from) {
        Some(prev) => {
            let path = extended(prev, x, c);
            assert forall|k: VerticeView| k != to implies #[trigger] cache_get(
                cache_put(cache, to, path),
                k,
            ) == cache_get(cache, k) by {
                lemma_cache_put(cache, to, path, k);
            }
            lemma_cache_put(cache, to, path, to);
        },
        None => {},
    }
}

/// Each vertice of a linked path that starts in the universe and within
/// the horizon lies there too.
pub proof fn lemma_path_in_universe(
    path: Seq<VerticeView>,
    p: ProblemView,
    values: Seq<Seq<i32>>,
    target: VerticeView,
    i: int,
)
    requires
        values.len() == p.d,
        path.len() >= 1,
        in_universe(path[0].config, values),
        1 <= path[0].t <= p.t_end,
        linked(path, p, values, target),
        0 <= i < path.len(),
    ensures
        in_universe(path[i].config, values),
        1 <= path[i].t <= p.t_end,
    decreases i,
{
    if i > 0 {
        lemma_path_in_universe(path, p, values, target, i - 1);
        let v = path[i - 1];
        lemma_edges_wf(v, p, values);
        lemma_open_edges_wf(edges(v, p, values), target, p, values);
        let es = search_edges(v, p, values, target);
        assert(follows(es, path[i - 1 + 1]));
        let j = choose|j: int| 0 <= j < es.len() && (#[trigger] es[j]).0 == path[i];
        assert(in_universe(es[j].0.config, values));
    }
}

/// The configuration that a path chooses is that of one of its vertices.
pub proof fn lemma_first_down_member(path: Seq<VerticeView>)
    ensures
        first_down(path) matches Some(x) ==> exists|i: int|
            0 <= i < path.len() && (#[trigger] path[i]).config == x,
    decreases path.len(),
{
    if path.len() > 0 && path[0].phase != Phase::PoweringDown {
        lemma_first_down_member(path.drop_first());
        match first_down(path) {
            Some(x) => {
                let rest = path.drop_first();
                let i = choose|i: int| 0 <= i < rest.len() && (#[trigger] rest[i]).config == x;
                assert(path[i + 1] == rest[i]);
            },
            None => {},
        }
    }
}

/// Records that a subpath from `from` to `to` was found, with `x` as the
/// configuration chosen for the time step of `from` and at cost `c`.
pub fn update_paths(paths: &mut PathCache, from: &Vertice, to: &Vertice, x: Config, c: u64) -> (r:
    Result<(), Failure>)
    requires
        cache_wf(old(paths)@),
    ensures
        match r {
            Ok(_) => spec_update(old(paths)@, from@, to@, x@, c) == Ok::<CacheView, Failure>(
                final(paths)@,
            ),
            Err(e) => spec_update(old(paths)@, from@, to@, x@, c) == Err::<CacheView, Failure>(e)
                && final(paths)@ == old(paths)@,
        },
        cache_wf(final(paths)@),
{
    let prev = match paths.get(from) {
        Some(prev) => prev,
        None => {
            return Err(Failure::PathsShouldBeCached);
        },
    };
    proof {
        crate::cache::lemma_cache_find(paths@, from@);
        assert(prev@.wf());
    }
    let ghost prev_view = prev@;
    let mut schedule = prev.schedule;
    let ghost before = schedule@;
    assert(before.len() == schedule.len() <= usize::MAX);
    let ghost xv = x@;
    schedule.push(x);
    assert(rows(schedule@) =~= rows(before).push(xv));
    assert(prev.cost + c <= (before.len() + 1) * COST_MAX <= u128::MAX) by (nonlinear_arith)
        requires
            0 <= prev.cost <= before.len() * COST_MAX,
            c <= COST_MAX,
            COST_MAX == 0xffff_ffff_ffff_ffff,
            before.len() <= 0xffff_ffff_ffff_ffff,
            u128::MAX == 0xffff_ffff_ffff_ffff_ffff_ffff_ffff_ffff,
    ;
    let cost: u128 = prev.cost + c as u128;
    let path = Path { schedule, cost };
    assert(path@ == extended(prev_view, xv, c));
    assert(path@.wf());
    match paths.get(to) {
        Some(known) => {
            if known.cost <= cost {
                return Ok(());
            }
        },
        None => {},
    }
    paths.put(to.duplicate(), path);
    Ok(())
}

/// The cache after a search from `from` toward `to` ended with `outcome`.
/// A search without a path, or with a path that never powers down, is an
/// error.
pub open spec fn spec_record(
    cache: CacheView,
    from: VerticeView,
    to: VerticeView,
    outcome: Outcome,
) -> Result<CacheView, Failure> {
    match outcome {
        None => Err(Failure::SubpathShouldBePresent),
        Some(found) => match first_down(found.0) {
            None => Err(Failure::SubpathShouldBePresent),
            Some(x) => spec_update(cache, from, to, x, found.1),
        },
    }
}

/// Records the outcome of a search from `from` toward `to`: the
/// configuration of the first vertice that powers down is the one chosen
/// for the time step of `from`.
pub fn record_subpath(
    paths: &mut PathCache,
    from: &Vertice,
    to: &Vertice,
    outcome: Option<(Vec<Vertice>, u64)>,
) -> (r: Result<(), Failure>)
    requires
        cache_wf(old(paths)@),
    ensures
        match r {
            Ok(_) => spec_record(old(paths)@, from@, to@, outcome_view(outcome)) == Ok::<
                CacheView,
                Failure,
            >(final(paths)@),
            Err(e) => spec_record(old(paths)@, from@, to@, outcome_view(outcome)) == Err::<
                CacheView,
                Failure,
            >(e) && final(paths)@ == old(paths)@,
        },
        cache_wf(final(paths)@),
{
    match outcome {
        None => Err(Failure::SubpathShouldBePresent),
        Some(found) => match first_power_down(&found.0) {
            None => Err(Failure::SubpathShouldBePresent),
            Some(x) => update_paths(paths, from, to, x, found.1),
        },
    }
}

/// The vertice at which a search toward `to` ends: `to` itself where it is
/// powering up; where it is powering down, the end of the power-down phase
/// of the layer before it.
pub open spec fn goal_of(to: VerticeView) -> VerticeView {
    match to.phase {
        Phase::PoweringUp => to,
        Phase::PoweringDown => VerticeView { t: to.t - 1, config: to.config, phase: to.phase },
    }
}

/// The vertice toward which the estimates of a search toward `to` are
/// made: the vertice of `to`'s layer and configuration that is powering up.
pub open spec fn target_of(to: VerticeView) -> VerticeView {
    VerticeView { t: to.t, config: to.config, phase: Phase::PoweringUp }
}

/// A subpath from `from` to `to` can pass over `m`: a configuration of the
/// universe with a hitting cost in the layer of `from`, above the
/// configurations of both; `to` lies in the universe, and within the
/// horizon where it is powering up.
pub open spec fn passes(
    m: Seq<i32>,
    from: VerticeView,
    to: VerticeView,
    p: ProblemView,
    values: Seq<Seq<i32>>,
) -> bool {
    &&& in_universe(m, values)
    &&& in_universe(to.config, values)
    &&& below(from.config, m)
    &&& below(to.config, m)
    &&& p.hitting(from.t, m).is_some()
    &&& (to.phase == Phase::PoweringUp ==> from.t < p.t_end)
}

/// What holds of the outcome of the search from `from` toward `to`. It is
/// empty exactly where no path leads to the goal. Else its path chooses a
/// configuration that the subpath can pass over, and its cost is the cost
/// of raising `from` to that configuration and of the hitting cost of the
/// configuration: the least that passing over any configuration costs.
pub open spec fn outcome_exact(
    outcome: Outcome,
    from: VerticeView,
    to: VerticeView,
    p: ProblemView,
    values: Seq<Seq<i32>>,
) -> bool {
    &&& outcome.is_none() <==> !connected(from, goal_of(to), p, values, target_of(to))
    &&& outcome matches Some(found) ==> match first_down(found.0) {
        Some(x) => {
            &&& passes(x, from, to, p, values)
            &&& found.1 == raise_cost(p.switching_cost, from.config, x, p.d as int) + p.hitting(
                from.t,
                x,
            ).unwrap()
            &&& forall|m: Seq<i32>| #[trigger]
                passes(m, from, to, p, values) ==> found.1 <= raise_cost(
                    p.switching_cost,
                    from.config,
                    m,
                    p.d as int,
                ) + p.hitting(from.t, m).unwrap()
        },
        None => false,
    }
}

/// Searches the shortest subpath from `from` to `to`, one time layer ahead,
/// and records it in the cache.
///
/// Without a path to the goal the search fails as a missing subpath; with
/// one, but without a cached path to `from`, it fails as a missing cached
/// path; else it succeeds. On success no entry but that of `to` changes,
/// and an entry that is new for `to` is the path to `from` extended by the
/// configuration chosen, at the cost added.
///
/// The cache changes as the outcome of the search says. Its properties
/// stay: well-formed, sound, priced, within the universe; no path is lost
/// and none becomes dearer. Where a path to `from` is cached, the path
/// cached for `to` costs at most that path and the way over any
/// configuration that the subpath can pass over; and the search succeeds
/// where the hitting cost is defined on the join of the two
/// configurations.
#[verifier::rlimit(40)]
pub fn find_shortest_subpath(
    p: &Problem,
    values: &Vec<Vec<i32>>,
    paths: &mut PathCache,
    from: &Vertice,
    to: &Vertice,
) -> (r: Result<(), Failure>)
    requires
        p@.wf(),
        values_wf(rows(values@), p@.bounds),
        in_universe(from@.config, rows(values@)),
        in_bounds(to@.config, p@.bounds),
        1 <= from@.t <= p@.t_end,
        from@.phase == Phase::PoweringUp,
        to@.t == from@.t + 1,
        cache_wf(old(paths)@),
    ensures
        match r {
            Ok(_) => spec_record(
                old(paths)@,
                from@,
                to@,
                shortest_path(p@, rows(values@), from@, goal_of(to@), target_of(to@)),
            ) == Ok::<CacheView, Failure>(final(paths)@),
            Err(e) => spec_record(
                old(paths)@,
                from@,
                to@,
                shortest_path(p@, rows(values@), from@, goal_of(to@), target_of(to@)),
            ) == Err::<CacheView, Failure>(e) && final(paths)@ == old(paths)@,
        },
        cache_wf(final(paths)@),
        cache_sound(old(paths)@, p@.bounds) ==> cache_sound(final(paths)@, p@.bounds),
        cache_sound(old(paths)@, p@.bounds) && cache_priced(old(paths)@, p@) ==> cache_priced(
            final(paths)@,
            p@,
        ),
        r matches Err(e) ==> e == Failure::SubpathShouldBePresent || e
            == Failure::PathsShouldBeCached,
        outcome_exact(
            shortest_path(p@, rows(values@), from@, goal_of(to@), target_of(to@)),
            from@,
            to@,
            p@,
            rows(values@),
        ),
        forall|m: Seq<i32>| #[trigger]
            passes(m, from@, to@, p@, rows(values@)) ==> connected(
                from@,
                goal_of(to@),
                p@,
                rows(values@),
                target_of(to@),
            ),
        !connected(from@, goal_of(to@), p@, rows(values@), target_of(to@)) ==> r == Err::<
            (),
            Failure,
        >(Failure::SubpathShouldBePresent),
        connected(from@, goal_of(to@), p@, rows(values@), target_of(to@)) && cache_get(
            old(paths)@,
            from@,
        ).is_none() ==> r == Err::<(), Failure>(Failure::PathsShouldBeCached),
        connected(from@, goal_of(to@), p@, rows(values@), target_of(to@)) && cache_get(
            old(paths)@,
            from@,
        ).is_some() ==> r.is_ok(),
        r.is_ok() ==> forall|k: VerticeView|
            k != to@ ==> #[trigger] cache_get(final(paths)@, k) == cache_get(old(paths)@, k),
        r.is_ok() && cache_get(old(paths)@, to@).is_none() ==> cache_get(final(paths)@, to@)
            == Some(
            extended(
                cache_get(old(paths)@, from@).unwrap(),
                first_down(
                    shortest_path(
                        p@,
                        rows(values@),
                        from@,
                        goal_of(to@),
                        target_of(to@),
                    ).unwrap().0,
                ).unwrap(),
                shortest_path(p@, rows(values@), from@, goal_of(to@), target_of(to@)).unwrap().1,
            ),
        ),
        covers(final(paths)@, old(paths)@),
        cheaper(final(paths)@, old(paths)@),
        cache_within(old(paths)@, rows(values@)) ==> cache_within(final(paths)@, rows(values@)),
        forall|m: Seq<i32>| #[trigger]
            passes(m, from@, to@, p@, rows(values@)) && cache_get(old(paths)@, from@).is_some()
                ==> match cache_get(final(paths)@, to@) {
                Some(b) => b.cost <= cache_get(old(paths)@, from@).unwrap().cost + raise_cost(
                    p@.switching_cost,
                    from@.config,
                    m,
                    p@.d as int,
                ) + p@.hitting(from@.t, m).unwrap(),
                None => false,
            },
        cache_get(old(paths)@, from@).is_some() && in_universe(to@.config, rows(values@))
            && p@.hitting(from@.t, join(from@.config, to@.config)).is_some() && (to@.phase
            == Phase::PoweringUp ==> from@.t < p@.t_end) ==> r.is_ok() && cache_get(
            final(paths)@,
            to@,
        ).is_some(),
{
    let target = Vertice::new(to.t(), copy_config(to.config()), Phase::PoweringUp);
    proof {
        lemma_admissible(p@, rows(values@), goal_of(to@), target@);
    }
    let outcome = match to.phase() {
        Phase::PoweringUp => astar_path(p, values, from, to, &target),
        Phase::PoweringDown => {
            let goal = Vertice::new(to.t() - 1, copy_config(to.config()), Phase::PoweringDown);
            astar_path(p, values, from, &goal, &target)
        },
    };
    let ghost before = paths@;
    proof {
        if in_universe(to@.config, rows(values@)) && p@.hitting(
            from@.t,
            join(from@.config, to@.config),
        ).is_some() {
            lemma_subpath_exists(from@, p@, rows(values@), target@);
        }
        assert forall|m: Seq<i32>| #[trigger]
            passes(m, from@, to@, p@, rows(values@)) implies connected(
            from@,
            goal_of(to@),
            p@,
            rows(values@),
            target@,
        ) by {
            lemma_subpath_within(from@, m, p@, rows(values@), target@);
            lemma_within_connected(
                from@,
                goal_of(to@),
                raise_cost(p@.switching_cost, from@.config, m, p@.d as int) + p@.hitting(
                    from@.t,
                    m,
                ).unwrap(),
                p@,
                rows(values@),
                target@,
            );
        }
        match outcome_view(outcome) {
            Some(found) => {
                let path = found.0;
                assert(is_route(path, from@, goal_of(to@), p@, rows(values@), target@));
                lemma_subpath_cost(path, p@, rows(values@), target@);
                lemma_first_down_member(path);
                let x = first_down(path).unwrap();
                let i = choose|i: int| 0 <= i < path.len() && (#[trigger] path[i]).config == x;
                lemma_path_in_universe(path, p@, rows(values@), target@, i);
                lemma_path_in_universe(path, p@, rows(values@), target@, path.len() - 1);
                lemma_universe_in_bounds(x, rows(values@), p@.bounds);
                assert(passes(x, from@, to@, p@, rows(values@)));
                lemma_subpath_within(from@, x, p@, rows(values@), target@);
                lemma_cheapest_within(
                    found.1 as int,
                    raise_cost(p@.switching_cost, from@.config, x, p@.d as int) + p@.hitting(
                        from@.t,
                        x,
                    ).unwrap(),
                    from@,
                    goal_of(to@),
                    p@,
                    rows(values@),
                    target@,
                );
                assert forall|m: Seq<i32>| #[trigger]
                    passes(m, from@, to@, p@, rows(values@)) implies found.1 <= raise_cost(
                    p@.switching_cost,
                    from@.config,
                    m,
                    p@.d as int,
                ) + p@.hitting(from@.t, m).unwrap() by {
                    lemma_subpath_within(from@, m, p@, rows(values@), target@);
                    lemma_cheapest_within(
                        found.1 as int,
                        raise_cost(p@.switching_cost, from@.config, m, p@.d as int) + p@.hitting(
                            from@.t,
                            m,
                        ).unwrap(),
                        from@,
                        goal_of(to@),
                        p@,
                        rows(values@),
                        target@,
                    );
                }
                lemma_update_others(paths@, from@, to@, x, found.1);
                lemma_update_covers(paths@, from@, to@, x, found.1);
                if cache_within(paths@, rows(values@)) {
                    lemma_update_within(paths@, from@, to@, x, found.1, rows(values@));
                }
                if cache_sound(paths@, p@.bounds) {
                    lemma_update_sound(paths@, from@, to@, x, found.1, p@.bounds);
                    if cache_priced(paths@, p@) {
                        lemma_update_priced(paths@, from@, to@, x, found.1, p@);
                    }
                }
            },
            None => {},
        }
    }
    let r = record_subpath(paths, from, to, outcome);
    proof {
        assert forall|m: Seq<i32>| #[trigger]
            passes(m, from@, to@, p@, rows(values@)) && cache_get(
                before,
                from@,
            ).is_some() implies match cache_get(paths@, to@) {
            Some(b) => b.cost <= cache_get(before, from@).unwrap().cost + raise_cost(
                p@.switching_cost,
                from@.config,
                m,
                p@.d as int,
            ) + p@.hitting(from@.t, m).unwrap(),
            None => false,
        } by {
            let budget = raise_cost(p@.switching_cost, from@.config, m, p@.d as int) + p@.hitting(
                from@.t,
                m,
            ).unwrap();
            lemma_subpath_within(from@, m, p@, rows(values@), target@);
            lemma_within_connected(
                from@,
                goal_of(to@),
                budget,
                p@,
                rows(values@),
                target@,
            );
            let found = outcome_view(outcome).unwrap();
            lemma_cheapest_within(
                found.1 as int,
                budget,
                from@,
                goal_of(to@),
                p@,
                rows(values@),
                target@,
            );
        }
    }
    r
}

} // verus!

//! The sweep over the time layers that stitches shortest subpaths into a
//! schedule for the whole horizon.

use vstd::prelude::*;
use crate::cache::{
    cache_get, cache_sound, cache_wf, cache_within, cheaper, covers, lemma_cache_find,
    lemma_cache_get_sound, lemma_cache_get_within, lemma_cheaper_chain, CacheView, PathCache,
};
use crate::optimal::{
    beats, best_at, fits, layer_best, lemma_best_cheaper, lemma_layer_cheaper, lemma_step_best,
    least_over, lemma_finer_costs_no_more, lemma_via_listed, listed, meet, meet_closed,
    schedule_in, starts_at, up,
};
use crate::reach::join;
use crate::verifiers::schedule_valid;
use crate::config::{copy_config, rows, zero_config, zeros, Config, Path, PathView};
use crate::objective::{before, objective};
use crate::priced::{cache_priced, lemma_cache_get_priced};
use crate::problem::{Problem, ProblemView};
use crate::result::Failure;
use crate::subpath::{find_shortest_subpath, goal_of, shortest_path, spec_record, target_of};
use crate::universe::{
    build_configs, lemma_product_complete, lemma_product_in_bounds, lemma_product_in_universe,
    product,
};
use crate::values::{
    all_values, build_all_exact_values, collect_ranges, dimension_range, dimension_ranges,
    increasing, lemma_dimension_range, occurs,
};
use crate::vertice::{in_bounds, in_universe, values_wf, Phase, Vertice, VerticeView};

verus! {

/// The vertice that ends a horizon of `t_end` steps: all dimensions powered
/// down to zero after the last step.
pub open spec fn terminal(t_end: int, d: nat) -> VerticeView {
    VerticeView { t: t_end + 1, config: zeros(d), phase: Phase::PoweringDown }
}

/// The cache after the pair `from`, `to` was considered: where a path to
/// `from` is cached, the shortest subpath from `from` to `to` is searched
/// and recorded; elsewhere nothing happens.
pub open spec fn pair_step(
    cache: CacheView,
    p: ProblemView,
    values: Seq<Seq<i32>>,
    from: VerticeView,
    to: VerticeView,
) -> Result<CacheView, Failure> {
    if cache_get(cache, from).is_none() {
        Ok(cache)
    } else {
        spec_record(
            cache,
            from,
            to,
            shortest_path(p, values, from, goal_of(to), target_of(to)),
        )
    }
}

/// The cache after the first `n` configurations were considered, in their
/// order, as starts in layer `t` of a subpath to `to`.
pub open spec fn froms_sweep(
    cache: CacheView,
    p: ProblemView,
    values: Seq<Seq<i32>>,
    configs: Seq<Seq<i32>>,
    t: int,
    to: VerticeView,
    n: int,
) -> Result<CacheView, Failure>
    decreases n,
{
    if n <= 0 {
        Ok(cache)
    } else {
        match froms_sweep(cache, p, values, configs, t, to, n - 1) {
            Ok(c) => pair_step(c, p, values, up(t, configs[n - 1]), to),
            Err(e) => Err(e),
        }
    }
}

/// The cache after the first `m` configurations were considered, in their
/// order, as ends in layer `t + 1` of the subpaths that start in layer `t`.
pub open spec fn tos_sweep(
    cache: CacheView,
    p: ProblemView,
    values: Seq<Seq<i32>>,
    configs: Seq<Seq<i32>>,
    t: int,
    m: int,
) -> Result<CacheView, Failure>
    decreases m,
{
    if m <= 0 {
        Ok(cache)
    } else {
        match tos_sweep(cache, p, values, configs, t, m - 1) {
            Ok(c) => froms_sweep(
                c,
                p,
                values,
                configs,
                t,
                up(t + 1, configs[m - 1]),
                configs.len() as int,
            ),
            Err(e) => Err(e),
        }
    }
}

/// The cache after the layers from one to `t` were swept.
pub open spec fn layers_sweep(
    cache: CacheView,
    p: ProblemView,
    values: Seq<Seq<i32>>,
    configs: Seq<Seq<i32>>,
    t: int,
) -> Result<CacheView, Failure>
    decreases t,
{
    if t <= 0 {
        Ok(cache)
    } else {
        match layers_sweep(cache, p, values, configs, t - 1) {
            Ok(c) => tos_sweep(c, p, values, configs, t, configs.len() as int),
            Err(e) => Err(e),
        }
    }
}

/// The hitting cost is defined for each of the configurations at each of
/// the first `t` time steps.
pub open spec fn total_until(p: ProblemView, configs: Seq<Seq<i32>>, t: int) -> bool {
    forall|s: int, i: int|
        1 <= s <= t && 0 <= i < configs.len() ==> (#[trigger] p.hitting(s, configs[i])).is_some()
}

/// Each configuration lies within the bounds of the problem.
pub open spec fn universe_wf(configs: Seq<Seq<i32>>, p: ProblemView) -> bool {
    forall|i: int| 0 <= i < configs.len() ==> in_bounds(#[trigger] configs[i], p.bounds)
}

/// A path is cached for one of the configurations in layer `t`.
pub open spec fn live(c: CacheView, configs: Seq<Seq<i32>>, t: int) -> bool {
    exists|j: int| 0 <= j < configs.len() && cache_get(c, #[trigger] up(t, configs[j])).is_some()
}

/// A path is cached for each of the configurations in layer `t`.
pub open spec fn full(c: CacheView, configs: Seq<Seq<i32>>, t: int) -> bool {
    forall|i: int| 0 <= i < configs.len() ==> cache_get(c, #[trigger] up(t, configs[i])).is_some()
}

/// At time step `t` the hitting cost is defined on the join of `x` with
/// each of the configurations.
pub open spec fn joins_defined(p: ProblemView, configs: Seq<Seq<i32>>, x: Seq<i32>, t: int) -> bool {
    forall|j: int|
        0 <= j < configs.len() ==> p.hitting(t, #[trigger] join(configs[j], x)).is_some()
}

/// At each time step of the horizon the hitting cost is defined on the
/// join of any two of the configurations.
pub open spec fn join_total(p: ProblemView, configs: Seq<Seq<i32>>) -> bool {
    forall|t: int, i: int|
        1 <= t <= p.t_end && 0 <= i < configs.len() ==> #[trigger] joins_defined(
            p,
            configs,
            configs[i],
            t,
        )
}

/// The configurations lie within the bounds and hold all zeros and the
/// meet of any two of them, and the hitting cost is defined on each of
/// them at each time step of the horizon.
pub open spec fn lattice(p: ProblemView, configs: Seq<Seq<i32>>) -> bool {
    &&& p.bounds.len() == p.d
    &&& universe_wf(configs, p)
    &&& has_zero(configs, p.d)
    &&& meet_closed(configs)
    &&& total_until(p, configs, p.t_end)
}

/// The configurations of a lattice have a level of at least zero for each
/// dimension, and all zeros is one of them.
pub proof fn lemma_lattice_levels(p: ProblemView, configs: Seq<Seq<i32>>)
    requires
        lattice(p, configs),
    ensures
        listed(configs, Seq::new(p.d, |i: int| 0i32)),
        forall|i: int, k: int|
            0 <= i < configs.len() && 0 <= k < p.d ==> (#[trigger] configs[i]).len() == p.d && 0
                <= #[trigger] configs[i][k],
{
    let z = choose|i: int| 0 <= i < configs.len() && #[trigger] configs[i] == zeros(p.d);
    assert(configs[z] == Seq::new(p.d, |i: int| 0i32));
    assert forall|i: int, k: int| 0 <= i < configs.len() && 0 <= k < p.d implies (
    #[trigger] configs[i]).len() == p.d && 0 <= #[trigger] configs[i][k] by {
        assert(in_bounds(configs[i], p.bounds));
    }
}

/// One of the configurations is all zeros.
pub open spec fn has_zero(configs: Seq<Seq<i32>>, d: nat) -> bool {
    exists|i: int| 0 <= i < configs.len() && #[trigger] configs[i] == zeros(d)
}

/// No schedule over the configurations for the whole horizon has an
/// objective of less than `cost`.
pub open spec fn least(cost: int, p: ProblemView, configs: Seq<Seq<i32>>) -> bool {
    least_over(cost, p, configs, p.t_end)
}

/// The cache that holds nothing but the empty path to the start of the
/// horizon, where all dimensions are at zero.
pub open spec fn initial_cache(d: nat) -> CacheView {
    seq![(up(1, zeros(d)), PathView { schedule: Seq::empty(), cost: 0 })]
}

/// The result of the search over the candidate configurations `configs`.
pub open spec fn spec_graph_search(p: ProblemView, configs: Seq<Seq<i32>>) -> Result<
    PathView,
    Failure,
> {
    let values = dimension_ranges(configs, p.d as int);
    if !total_until(p, configs, p.t_end) {
        Err(Failure::CostFunctionNotTotal)
    } else {
        match layers_sweep(initial_cache(p.d), p, values, configs, p.t_end - 1) {
            Err(e) => Err(e),
            Ok(swept) => match froms_sweep(
                swept,
                p,
                values,
                configs,
                p.t_end,
                terminal(p.t_end, p.d),
                configs.len() as int,
            ) {
                Err(e) => Err(e),
                Ok(last) => match cache_get(last, terminal(p.t_end, p.d)) {
                    Some(path) => Ok(path),
                    None => Err(Failure::PathsShouldBeCached),
                },
            },
        }
    }
}

/// Where the hitting cost is defined on all joins it is defined on all
/// configurations, each being the join with itself.
pub proof fn lemma_join_total(p: ProblemView, configs: Seq<Seq<i32>>)
    requires
        join_total(p, configs),
    ensures
        total_until(p, configs, p.t_end),
{
    assert forall|s: int, i: int| 1 <= s <= p.t_end && 0 <= i < configs.len() implies (
    #[trigger] p.hitting(s, configs[i])).is_some() by {
        assert(joins_defined(p, configs, configs[i], s));
        assert(join(configs[i], configs[i]) =~= configs[i]);
    }
}

/// Without all zeros among the configurations, the cache of the start has
/// a path for none of them in any layer.
pub proof fn lemma_initial_dead(d: nat, configs: Seq<Seq<i32>>, t: int)
    requires
        !has_zero(configs, d),
    ensures
        !live(initial_cache(d), configs, t),
{
    assert forall|j: int| 0 <= j < configs.len() implies cache_get(
        initial_cache(d),
        #[trigger] up(t, configs[j]),
    ).is_none() by {
        lemma_cache_find(initial_cache(d), up(t, configs[j]));
        if cache_get(initial_cache(d), up(t, configs[j])).is_some() {
            assert(initial_cache(d)[0].0 == up(t, configs[j]));
            assert(configs[j] == zeros(d));
        }
    }
}

/// The join of any two of the configurations is one of them.
pub open spec fn join_closed(configs: Seq<Seq<i32>>) -> bool {
    forall|i: int, j: int|
        0 <= i < configs.len() && 0 <= j < configs.len() ==> listed(
            configs,
            #[trigger] join(configs[i], configs[j]),
        )
}

/// Where the hitting cost is defined on the configurations, and these hold
/// the join of any two of them, it is defined on all joins.
pub proof fn lemma_join_closed_total(p: ProblemView, configs: Seq<Seq<i32>>)
    requires
        total_until(p, configs, p.t_end),
        join_closed(configs),
    ensures
        join_total(p, configs),
{
    assert forall|t: int, i: int| 1 <= t <= p.t_end && 0 <= i < configs.len() implies #[trigger] joins_defined(
        p,
        configs,
        configs[i],
        t,
    ) by {
        assert forall|j: int| 0 <= j < configs.len() implies p.hitting(
            t,
            #[trigger] join(configs[j], configs[i]),
        ).is_some() by {
            assert(listed(configs, join(configs[j], configs[i])));
            let c = choose|c: int|
                0 <= c < configs.len() && #[trigger] configs[c] == join(configs[j], configs[i]);
            assert(p.hitting(t, configs[c]).is_some());
        }
    }
}

/// Configurations of one dimension hold the join and the meet of any two
/// of them: the larger and the smaller of the two.
pub proof fn lemma_one_dimension_closed(configs: Seq<Seq<i32>>)
    requires
        forall|i: int| 0 <= i < configs.len() ==> (#[trigger] configs[i]).len() == 1,
    ensures
        join_closed(configs),
        meet_closed(configs),
{
    assert forall|i: int, j: int| 0 <= i < configs.len() && 0 <= j < configs.len() implies listed(
        configs,
        #[trigger] join(configs[i], configs[j]),
    ) by {
        if configs[i][0] >= configs[j][0] {
            assert(join(configs[i], configs[j]) =~= configs[i]);
        } else {
            assert(join(configs[i], configs[j]) =~= configs[j]);
        }
    }
    assert forall|i: int, j: int| 0 <= i < configs.len() && 0 <= j < configs.len() implies listed(
        configs,
        #[trigger] meet(configs[i], configs[j]),
    ) by {
        if configs[i][0] <= configs[j][0] {
            assert(meet(configs[i], configs[j]) =~= configs[i]);
        } else {
            assert(meet(configs[i], configs[j]) =~= configs[j]);
        }
    }
}

/// In one dimension a configuration of the levels that the configurations
/// hold is one of them.
pub proof fn lemma_one_dimension_listed(configs: Seq<Seq<i32>>, x: Seq<i32>)
    requires
        forall|i: int| 0 <= i < configs.len() ==> (#[trigger] configs[i]).len() == 1,
        in_universe(x, dimension_ranges(configs, 1)),
    ensures
        listed(configs, x),
{
    lemma_dimension_range(configs, 0, configs.len() as int);
    assert(dimension_ranges(configs, 1)[0].contains(x[0]));
    assert(occurs(configs, 0, configs.len() as int, x[0]));
    let i = choose|i: int| 0 <= i < configs.len() && #[trigger] configs[i][0] == x[0];
    assert(configs[i] =~= x);
}

/// An error among the first starts is the error of all of them.
proof fn lemma_froms_error(
    cache: CacheView,
    p: ProblemView,
    values: Seq<Seq<i32>>,
    configs: Seq<Seq<i32>>,
    t: int,
    to: VerticeView,
    j: int,
    n: int,
)
    requires
        j <= n,
        froms_sweep(cache, p, values, configs, t, to, j).is_err(),
    ensures
        froms_sweep(cache, p, values, configs, t, to, n) == froms_sweep(
            cache,
            p,
            values,
            configs,
            t,
            to,
            j,
        ),
    decreases n - j,
{
    if j < n {
        lemma_froms_error(cache, p, values, configs, t, to, j, n - 1);
    }
}

/// An error among the first ends is the error of all of them.
proof fn lemma_tos_error(
    cache: CacheView,
    p: ProblemView,
    values: Seq<Seq<i32>>,
    configs: Seq<Seq<i32>>,
    t: int,
    j: int,
    n: int,
)
    requires
        j <= n,
        tos_sweep(cache, p, values, configs, t, j).is_err(),
    ensures
        tos_sweep(cache, p, values, configs, t, n) == tos_sweep(cache, p, values, configs, t, j),
    decreases n - j,
{
    if j < n {
        lemma_tos_error(cache, p, values, configs, t, j, n - 1);
    }
}

/// An error in the first layers is the error of all of them.
proof fn lemma_layers_error(
    cache: CacheView,
    p: ProblemView,
    values: Seq<Seq<i32>>,
    configs: Seq<Seq<i32>>,
    j: int,
    n: int,
)
    requires
        j <= n,
        layers_sweep(cache, p, values, configs, j).is_err(),
    ensures
        layers_sweep(cache, p, values, configs, n) == layers_sweep(cache, p, values, configs, j),
    decreases n - j,
{
    if j < n {
        lemma_layers_error(cache, p, values, configs, j, n - 1);
    }
}

/// The ranges of configurations within the bounds are candidate values,
/// and each of the configurations lies in their universe.
pub proof fn lemma_ranges_wf(configs: Seq<Seq<i32>>, bounds: Seq<i32>)
    requires
        forall|i: int| 0 <= i < configs.len() ==> in_bounds(#[trigger] configs[i], bounds),
    ensures
        values_wf(dimension_ranges(configs, bounds.len() as int), bounds),
        forall|i: int|
            0 <= i < configs.len() ==> in_universe(
                #[trigger] configs[i],
                dimension_ranges(configs, bounds.len() as int),
            ),
{
    let d = bounds.len() as int;
    let n = configs.len() as int;
    let values = dimension_ranges(configs, d);
    assert forall|k: int| 0 <= k < d implies increasing(#[trigger] values[k]) by {
        lemma_dimension_range(configs, k, n);
    }
    assert forall|k: int, i: int| 0 <= k < d && 0 <= i < values[k].len() implies 0
        <= #[trigger] values[k][i] <= bounds[k] by {
        lemma_dimension_range(configs, k, n);
        let x = values[k][i];
        assert(dimension_range(configs, k, n).contains(x));
        assert(occurs(configs, k, n, x));
        let c = choose|c: int| 0 <= c < n && #[trigger] configs[c][k] == x;
        assert(in_bounds(configs[c], bounds));
    }
    assert forall|i: int| 0 <= i < configs.len() implies in_universe(
        #[trigger] configs[i],
        values,
    ) by {
        assert(in_bounds(configs[i], bounds));
        assert forall|k: int| 0 <= k < configs[i].len() implies (#[trigger] values[k]).contains(
            configs[i][k],
        ) by {
            lemma_dimension_range(configs, k, n);
            assert(occurs(configs, k, n, configs[i][k]));
        }
    }
}

/// Tells whether the hitting cost is defined for each of the configurations
/// at each time step of the horizon.
pub fn is_total(p: &Problem, configs: &Vec<Config>) -> (r: bool)
    ensures
        r == total_until(p@, rows(configs@), p@.t_end),
{
    if p.t_end < 1 {
        return true;
    }
    let mut t: i32 = 1;
    while t <= p.t_end
        invariant
            1 <= t,
            t <= p.t_end + 1,
            total_until(p@, rows(configs@), t - 1),
        decreases p.t_end + 1 - t,
    {
        let mut i: usize = 0;
        while i < configs.len()
            invariant
                i <= configs.len(),
                1 <= t <= p.t_end,
                total_until(p@, rows(configs@), t - 1),
                forall|j: int| 0 <= j < i ==> (#[trigger] p@.hitting(t as int, rows(configs@)[j])).is_some(),
            decreases configs.len() - i,
        {
            if p.hit_cost(t, &configs[i]).is_none() {
                assert(p@.hitting(t as int, rows(configs@)[i as int]).is_none());
                return false;
            }
            i = i + 1;
        }
        if t == i32::MAX {
            return true;
        }
        t = t + 1;
    }
    true
}

/// Considers each configuration, in order, as the start in layer `t` of a
/// subpath to `to`.
#[verifier::rlimit(40)]
fn sweep_froms(
    p: &Problem,
    values: &Vec<Vec<i32>>,
    configs: &Vec<Config>,
    paths: &mut PathCache,
    t: i32,
    to: &Vertice,
) -> (r: Result<(), Failure>)
    requires
        p@.wf(),
        values_wf(rows(values@), p@.bounds),
        forall|i: int|
            0 <= i < configs.len() ==> in_universe(#[trigger] rows(configs@)[i], rows(values@)),
        in_bounds(to@.config, p@.bounds),
        1 <= t <= p@.t_end,
        to@.t == t + 1,
        cache_wf(old(paths)@),
    ensures
        match r {
            Ok(_) => froms_sweep(
                old(paths)@,
                p@,
                rows(values@),
                rows(configs@),
                t as int,
                to@,
                configs.len() as int,
            ) == Ok::<CacheView, Failure>(final(paths)@),
            Err(e) => froms_sweep(
                old(paths)@,
                p@,
                rows(values@),
                rows(configs@),
                t as int,
                to@,
                configs.len() as int,
            ) == Err::<CacheView, Failure>(e),
        },
        cache_wf(final(paths)@),
        cache_sound(old(paths)@, p@.bounds) ==> cache_sound(final(paths)@, p@.bounds),
        cache_sound(old(paths)@, p@.bounds) && cache_priced(old(paths)@, p@) ==> cache_priced(
            final(paths)@,
            p@,
        ),
        r matches Err(e) ==> e == Failure::SubpathShouldBePresent || e
            == Failure::PathsShouldBeCached,
        !live(old(paths)@, rows(configs@), t as int) ==> r.is_ok() && final(paths)@ == old(paths)@,
        covers(final(paths)@, old(paths)@),
        cheaper(final(paths)@, old(paths)@),
        cache_within(old(paths)@, rows(values@)) ==> cache_within(final(paths)@, rows(values@)),
        live(old(paths)@, rows(configs@), t as int) && in_universe(to@.config, rows(values@))
            && joins_defined(p@, rows(configs@), to@.config, t as int) && (to@.phase
            == Phase::PoweringUp ==> t < p@.t_end) ==> r.is_ok() && cache_get(
            final(paths)@,
            to@,
        ).is_some(),
        r.is_ok() && lattice(p@, rows(configs@)) && layer_best(
            old(paths)@,
            p@,
            rows(configs@),
            t as int,
        ) && in_universe(to@.config, rows(values@)) && (to@.phase == Phase::PoweringUp ==> t
            < p@.t_end) ==> best_at(final(paths)@, p@, rows(configs@), to@, t as int),
{
    let ghost start = paths@;
    let ghost opt = lattice(p@, rows(configs@)) && layer_best(
        start,
        p@,
        rows(configs@),
        t as int,
    ) && in_universe(to@.config, rows(values@)) && (to@.phase == Phase::PoweringUp ==> t
        < p@.t_end);
    proof {
        assert(cheaper(start, start));
    }
    let ghost owed = in_universe(to@.config, rows(values@)) && joins_defined(
        p@,
        rows(configs@),
        to@.config,
        t as int,
    ) && (to@.phase == Phase::PoweringUp ==> t < p@.t_end);
    let mut j: usize = 0;
    while j < configs.len()
        invariant
            j <= configs.len(),
            start == old(paths)@,
            p@.wf(),
            values_wf(rows(values@), p@.bounds),
            forall|i: int|
                0 <= i < configs.len() ==> in_universe(
                    #[trigger] rows(configs@)[i],
                    rows(values@),
                ),
            in_bounds(to@.config, p@.bounds),
            1 <= t <= p@.t_end,
            to@.t == t + 1,
            cache_wf(paths@),
            cache_sound(old(paths)@, p@.bounds) ==> cache_sound(paths@, p@.bounds),
            cache_sound(old(paths)@, p@.bounds) && cache_priced(old(paths)@, p@) ==> cache_priced(
                paths@,
                p@,
            ),
            froms_sweep(start, p@, rows(values@), rows(configs@), t as int, to@, j as int) == Ok::<
                CacheView,
                Failure,
            >(paths@),
            covers(paths@, start),
            cheaper(paths@, start),
            !live(start, rows(configs@), t as int) ==> paths@ == start,
            cache_within(start, rows(values@)) ==> cache_within(paths@, rows(values@)),
            opt == (lattice(p@, rows(configs@)) && layer_best(start, p@, rows(configs@), t as int)
                && in_universe(to@.config, rows(values@)) && (to@.phase == Phase::PoweringUp ==> t
                < p@.t_end)),
            opt ==> forall|xs: Seq<Seq<i32>>, i: int|
                (#[trigger] fits(xs, rows(configs@), to@.config, t as int, p@.d)) && 0 <= i < j
                    && (#[trigger] starts_at(xs, rows(configs@), t as int, p@.d, i)) ==> beats(
                    paths@,
                    p@,
                    to@,
                    xs,
                    t as int,
                ),
            owed == (in_universe(to@.config, rows(values@)) && joins_defined(
                p@,
                rows(configs@),
                to@.config,
                t as int,
            ) && (to@.phase == Phase::PoweringUp ==> t < p@.t_end)),
            owed ==> forall|i: int|
                0 <= i < j && cache_get(start, #[trigger] up(t as int, rows(configs@)[i])).is_some()
                    ==> cache_get(paths@, to@).is_some(),
        decreases configs.len() - j,
    {
        let from = Vertice::new(t, copy_config(&configs[j]), Phase::PoweringUp);
        assert(from@ == up(t as int, rows(configs@)[j as int]));
        assert(in_universe(rows(configs@)[j as int], rows(values@)));
        let ghost before = paths@;
        proof {
            if owed {
                assert(p@.hitting(t as int, join(rows(configs@)[j as int], to@.config)).is_some());
            }
            assert(cache_get(start, from@).is_some() ==> cache_get(before, from@).is_some());
            if !live(start, rows(configs@), t as int) {
                assert(cache_get(start, up(t as int, rows(configs@)[j as int])).is_none());
            }
        }
        if paths.contains(&from) {
            match find_shortest_subpath(p, values, paths, &from, to) {
                Ok(_) => {},
                Err(e) => {
                    proof {
                        assert(pair_step(before, p@, rows(values@), from@, to@) == Err::<
                            CacheView,
                            Failure,
                        >(e));
                        assert(froms_sweep(
                            start,
                            p@,
                            rows(values@),
                            rows(configs@),
                            t as int,
                            to@,
                            j + 1,
                        ) == Err::<CacheView, Failure>(e));
                        lemma_froms_error(
                            start,
                            p@,
                            rows(values@),
                            rows(configs@),
                            t as int,
                            to@,
                            j + 1,
                            configs.len() as int,
                        );
                    }
                    return Err(e);
                },
            }
        }
        assert(pair_step(before, p@, rows(values@), from@, to@) == Ok::<CacheView, Failure>(
            paths@,
        ));
        assert(covers(paths@, start)) by {
            assert forall|k: VerticeView| cache_get(start, k).is_some() implies (
            #[trigger] cache_get(paths@, k)).is_some() by {
                assert(cache_get(before, k).is_some());
            }
        }
        proof {
            lemma_cheaper_chain(paths@, before, start);
            if opt {
                assert(best_at(start, p@, rows(configs@), up(t as int, rows(configs@)[j as int]), t - 1));
                lemma_best_cheaper(start, before, p@, rows(configs@), from@, t - 1);
                assert forall|xs: Seq<Seq<i32>>, i: int|
                    (#[trigger] fits(xs, rows(configs@), to@.config, t as int, p@.d)) && 0 <= i < j
                        + 1 && (#[trigger] starts_at(
                        xs,
                        rows(configs@),
                        t as int,
                        p@.d,
                        i,
                    )) implies beats(paths@, p@, to@, xs, t as int) by {
                    if i < j {
                        assert(beats(before, p@, to@, xs, t as int));
                        assert(cache_get(before, to@).is_some());
                    } else {
                        lemma_step_best(
                            before,
                            paths@,
                            p@,
                            rows(configs@),
                            rows(values@),
                            from@,
                            to@,
                            xs,
                            t as int,
                        );
                    }
                }
            }
        }
        assert(owed ==> forall|i: int|
            0 <= i < j + 1 && cache_get(start, #[trigger] up(t as int, rows(configs@)[i])).is_some()
                ==> cache_get(paths@, to@).is_some()) by {
            if owed {
                assert forall|i: int|
                    0 <= i < j + 1 && cache_get(
                        start,
                        #[trigger] up(t as int, rows(configs@)[i]),
                    ).is_some() implies cache_get(paths@, to@).is_some() by {
                    if i < j {
                        assert(cache_get(before, to@).is_some());
                    }
                }
            }
        }
        j = j + 1;
    }
    proof {
        if opt {
            assert forall|xs: Seq<Seq<i32>>| #[trigger]
                fits(xs, rows(configs@), to@.config, t as int, p@.d) implies beats(
                paths@,
                p@,
                to@,
                xs,
                t as int,
            ) by {
                lemma_lattice_levels(p@, rows(configs@));
                lemma_via_listed(xs, rows(configs@), to@.config, t as int, p@.d);
                let i = choose|i: int|
                    0 <= i < configs.len() && #[trigger] starts_at(xs, rows(configs@), t as int, p@.d, i);
                assert(starts_at(xs, rows(configs@), t as int, p@.d, i));
            }
        }
    }
    Ok(())
}

/// Considers each configuration, in order, as the end in layer `t + 1` of
/// the subpaths that start in layer `t`.
#[verifier::rlimit(40)]
fn sweep_tos(
    p: &Problem,
    values: &Vec<Vec<i32>>,
    configs: &Vec<Config>,
    paths: &mut PathCache,
    t: i32,
) -> (r: Result<(), Failure>)
    requires
        p@.wf(),
        values_wf(rows(values@), p@.bounds),
        forall|i: int|
            0 <= i < configs.len() ==> in_universe(#[trigger] rows(configs@)[i], rows(values@)),
        universe_wf(rows(configs@), p@),
        1 <= t < p@.t_end,
        cache_wf(old(paths)@),
    ensures
        match r {
            Ok(_) => tos_sweep(
                old(paths)@,
                p@,
                rows(values@),
                rows(configs@),
                t as int,
                configs.len() as int,
            ) == Ok::<CacheView, Failure>(final(paths)@),
            Err(e) => tos_sweep(
                old(paths)@,
                p@,
                rows(values@),
                rows(configs@),
                t as int,
                configs.len() as int,
            ) == Err::<CacheView, Failure>(e),
        },
        cache_wf(final(paths)@),
        cache_sound(old(paths)@, p@.bounds) ==> cache_sound(final(paths)@, p@.bounds),
        cache_sound(old(paths)@, p@.bounds) && cache_priced(old(paths)@, p@) ==> cache_priced(
            final(paths)@,
            p@,
        ),
        covers(final(paths)@, old(paths)@),
        live(old(paths)@, rows(configs@), t as int) && (forall|i: int|
            0 <= i < configs.len() ==> #[trigger] joins_defined(
                p@,
                rows(configs@),
                rows(configs@)[i],
                t as int,
            )) ==> r.is_ok() && full(final(paths)@, rows(configs@), t + 1),
        r matches Err(e) ==> e == Failure::SubpathShouldBePresent || e
            == Failure::PathsShouldBeCached,
        !live(old(paths)@, rows(configs@), t as int) ==> r.is_ok() && final(paths)@ == old(paths)@,
        cheaper(final(paths)@, old(paths)@),
        cache_within(old(paths)@, rows(values@)) ==> cache_within(final(paths)@, rows(values@)),
        r.is_ok() && lattice(p@, rows(configs@)) && layer_best(
            old(paths)@,
            p@,
            rows(configs@),
            t as int,
        ) ==> layer_best(final(paths)@, p@, rows(configs@), t + 1),
{
    let ghost start = paths@;
    let ghost opt = lattice(p@, rows(configs@)) && layer_best(
        start,
        p@,
        rows(configs@),
        t as int,
    );
    proof {
        assert(cheaper(start, start));
    }
    let ghost owed = live(start, rows(configs@), t as int) && (forall|i: int|
        0 <= i < configs.len() ==> #[trigger] joins_defined(
            p@,
            rows(configs@),
            rows(configs@)[i],
            t as int,
        ));
    let mut m: usize = 0;
    while m < configs.len()
        invariant
            m <= configs.len(),
            start == old(paths)@,
            p@.wf(),
            values_wf(rows(values@), p@.bounds),
            forall|i: int|
                0 <= i < configs.len() ==> in_universe(
                    #[trigger] rows(configs@)[i],
                    rows(values@),
                ),
            universe_wf(rows(configs@), p@),
            1 <= t < p@.t_end,
            cache_wf(paths@),
            cache_sound(old(paths)@, p@.bounds) ==> cache_sound(paths@, p@.bounds),
            cache_sound(old(paths)@, p@.bounds) && cache_priced(old(paths)@, p@) ==> cache_priced(
                paths@,
                p@,
            ),
            tos_sweep(start, p@, rows(values@), rows(configs@), t as int, m as int) == Ok::<
                CacheView,
                Failure,
            >(paths@),
            covers(paths@, start),
            cheaper(paths@, start),
            !live(start, rows(configs@), t as int) ==> paths@ == start,
            cache_within(start, rows(values@)) ==> cache_within(paths@, rows(values@)),
            opt == (lattice(p@, rows(configs@)) && layer_best(start, p@, rows(configs@), t as int)),
            opt ==> forall|i: int|
                0 <= i < m ==> best_at(
                    paths@,
                    p@,
                    rows(configs@),
                    #[trigger] up(t + 1, rows(configs@)[i]),
                    t as int,
                ),
            owed == (live(start, rows(configs@), t as int) && (forall|i: int|
                0 <= i < configs.len() ==> #[trigger] joins_defined(
                    p@,
                    rows(configs@),
                    rows(configs@)[i],
                    t as int,
                ))),
            owed ==> forall|i: int|
                0 <= i < m ==> cache_get(paths@, #[trigger] up(t + 1, rows(configs@)[i])).is_some(),
        decreases configs.len() - m,
    {
        let to = Vertice::new(t + 1, copy_config(&configs[m]), Phase::PoweringUp);
        assert(to@ == up(t + 1, rows(configs@)[m as int]));
        assert(in_bounds(rows(configs@)[m as int], p@.bounds));
        assert(in_universe(rows(configs@)[m as int], rows(values@)));
        let ghost before = paths@;
        proof {
            if owed {
                assert(joins_defined(p@, rows(configs@), rows(configs@)[m as int], t as int));
                let j = choose|j: int|
                    0 <= j < configs.len() && cache_get(
                        start,
                        #[trigger] up(t as int, rows(configs@)[j]),
                    ).is_some();
                assert(cache_get(before, up(t as int, rows(configs@)[j])).is_some());
                assert(live(before, rows(configs@), t as int));
            }
            if opt {
                lemma_layer_cheaper(start, before, p@, rows(configs@), t as int);
            }
        }
        match sweep_froms(p, values, configs, paths, t, &to) {
            Ok(_) => {},
            Err(e) => {
                proof {
                    assert(tos_sweep(
                        start,
                        p@,
                        rows(values@),
                        rows(configs@),
                        t as int,
                        m + 1,
                    ) == Err::<CacheView, Failure>(e));
                    lemma_tos_error(
                        start,
                        p@,
                        rows(values@),
                        rows(configs@),
                        t as int,
                        m + 1,
                        configs.len() as int,
                    );
                }
                return Err(e);
            },
        }
        assert(covers(paths@, start)) by {
            assert forall|k: VerticeView| cache_get(start, k).is_some() implies (
            #[trigger] cache_get(paths@, k)).is_some() by {
                assert(cache_get(before, k).is_some());
            }
        }
        proof {
            lemma_cheaper_chain(paths@, before, start);
            if opt {
                assert forall|i: int| 0 <= i < m + 1 implies best_at(
                    paths@,
                    p@,
                    rows(configs@),
                    #[trigger] up(t + 1, rows(configs@)[i]),
                    t as int,
                ) by {
                    if i < m {
                        lemma_best_cheaper(
                            before,
                            paths@,
                            p@,
                            rows(configs@),
                            up(t + 1, rows(configs@)[i]),
                            t as int,
                        );
                    }
                }
            }
        }
        assert(owed ==> forall|i: int|
            0 <= i < m + 1 ==> cache_get(
                paths@,
                #[trigger] up(t + 1, rows(configs@)[i]),
            ).is_some()) by {
            if owed {
                assert forall|i: int| 0 <= i < m + 1 implies cache_get(
                    paths@,
                    #[trigger] up(t + 1, rows(configs@)[i]),
                ).is_some() by {
                    if i < m {
                        assert(cache_get(before, up(t + 1, rows(configs@)[i])).is_some());
                    }
                }
            }
        }
        m = m + 1;
    }
    Ok(())
}

/// Searches a schedule of least cost over the candidate configurations.
///
/// The candidate levels of a dimension are the levels that the
/// configurations hold in it. The sweep starts from the empty path at all
/// zeros. In each layer but the last it takes every configuration as an end
/// in the next layer and every configuration to which a path is cached as a
/// start, and caches for the end the cheapest extension found. In the last
/// layer every start is led to the terminal vertice, whose path is the
/// result.
///
/// The search fails where the hitting cost is undefined for one of the
/// configurations at a time step of the horizon. For a combination of
/// candidate levels that is not one of the configurations the hitting cost
/// need not be defined: without a hitting cost no schedule holds it. A
/// schedule that the search returns covers the horizon with combinations
/// of the candidate levels, and its objective is at most the returned
/// cost. Where the configurations hold all zeros, the search succeeds if
/// the hitting cost is defined on the join of any two of them, as it is
/// where they hold every such join; and if they hold the meet of any two
/// of them, no schedule over them has an objective of less than the
/// returned cost, which is the objective of the returned schedule where
/// that is a schedule over them. In one dimension all of this holds of any
/// configurations that hold zero.
#[verifier::rlimit(40)]
pub fn graph_search(p: &Problem, configs: &Vec<Config>) -> (r: Result<Path, Failure>)
    requires
        p@.wf(),
        universe_wf(rows(configs@), p@),
    ensures
        match r {
            Ok(path) => spec_graph_search(p@, rows(configs@)) == Ok::<PathView, Failure>(path@),
            Err(e) => spec_graph_search(p@, rows(configs@)) == Err::<PathView, Failure>(e),
        },
        r matches Ok(path) ==> schedule_valid(path@.schedule, p@.t_end, p@.bounds),
        r matches Ok(path) ==> forall|s: int|
            0 <= s < path@.schedule.len() ==> in_universe(
                #[trigger] path@.schedule[s],
                dimension_ranges(rows(configs@), p@.d as int),
            ),
        r matches Ok(path) ==> (match objective(p@, path@.schedule, p@.t_end) {
            Some(o) => o <= path@.cost,
            None => false,
        }),
        r == Err::<Path, Failure>(Failure::CostFunctionNotTotal) <==> !total_until(
            p@,
            rows(configs@),
            p@.t_end,
        ),
        has_zero(rows(configs@), p@.d) && join_total(p@, rows(configs@)) ==> r.is_ok(),
        !has_zero(rows(configs@), p@.d) && total_until(p@, rows(configs@), p@.t_end) ==> r
            == Err::<Path, Failure>(Failure::PathsShouldBeCached),
        has_zero(rows(configs@), p@.d) && meet_closed(rows(configs@)) ==> (r matches Ok(path)
            ==> least(path@.cost, p@, rows(configs@))),
        has_zero(rows(configs@), p@.d) && meet_closed(rows(configs@)) ==> (r matches Ok(path)
            ==> (schedule_in(path@.schedule, rows(configs@)) ==> objective(
            p@,
            path@.schedule,
            p@.t_end,
        ) == Some(path@.cost))),
        has_zero(rows(configs@), p@.d) && join_closed(rows(configs@)) ==> (r.is_ok()
            <==> total_until(p@, rows(configs@), p@.t_end)),
        p@.d == 1 && has_zero(rows(configs@), 1) ==> (r.is_ok() <==> total_until(
            p@,
            rows(configs@),
            p@.t_end,
        )) && (r matches Ok(path) ==> schedule_in(path@.schedule, rows(configs@)) && objective(
            p@,
            path@.schedule,
            p@.t_end,
        ) == Some(path@.cost) && least(path@.cost, p@, rows(configs@))),
{
    proof {
        if p@.d == 1 {
            assert forall|i: int| 0 <= i < configs.len() implies (#[trigger] rows(
                configs@,
            )[i]).len() == 1 by {
                assert(in_bounds(rows(configs@)[i], p@.bounds));
            }
            lemma_one_dimension_closed(rows(configs@));
        }
        if join_closed(rows(configs@)) && total_until(p@, rows(configs@), p@.t_end) {
            lemma_join_closed_total(p@, rows(configs@));
        }
    }
    let ghost owed = has_zero(rows(configs@), p@.d) && join_total(p@, rows(configs@));
    let ghost opt = has_zero(rows(configs@), p@.d) && meet_closed(rows(configs@));
    if !is_total(p, configs) {
        proof {
            if owed {
                lemma_join_total(p@, rows(configs@));
            }
        }
        return Err(Failure::CostFunctionNotTotal);
    }
    assert forall|i: int| 0 <= i < configs.len() implies (#[trigger] configs[i]).len() == p.d by {
        assert(in_bounds(rows(configs@)[i], p@.bounds));
    }
    let values = collect_ranges(configs, p.d);
    proof {
        lemma_ranges_wf(rows(configs@), p@.bounds);
    }
    let mut paths = PathCache::new();
    let initial = Vertice::new(1, zero_config(p.d), Phase::PoweringUp);
    paths.put(initial, Path::empty());
    assert(paths@ =~= initial_cache(p@.d));
    assert(cache_sound(paths@, p@.bounds));
    assert(cache_priced(paths@, p@)) by {
        let first = paths@[0];
        assert(first.1.schedule.len() == 0);
        assert(objective(p@, first.1.schedule, 0) == Some(0int));
        assert(before(first.1.schedule, 1, p@.d) == zeros(p@.d));
    }
    let ghost start = paths@;
    proof {
        if owed {
            let i = choose|i: int| 0 <= i < configs.len() && #[trigger] rows(configs@)[i] == zeros(
                p@.d,
            );
            assert(paths@[0].0 == up(1, rows(configs@)[i]));
            lemma_cache_find(paths@, up(1, rows(configs@)[i]));
            assert(live(paths@, rows(configs@), 1));
        }
        if opt {
            assert forall|i: int| 0 <= i < configs.len() implies best_at(
                paths@,
                p@,
                rows(configs@),
                #[trigger] up(1, rows(configs@)[i]),
                0,
            ) by {
                let x = rows(configs@)[i];
                assert forall|xs: Seq<Seq<i32>>| #[trigger]
                    fits(xs, rows(configs@), x, 0, p@.d) implies beats(
                    paths@,
                    p@,
                    up(1, x),
                    xs,
                    0,
                ) by {
                    assert(in_bounds(x, p@.bounds));
                    assert(x =~= zeros(p@.d)) by {
                        assert forall|k: int| 0 <= k < x.len() implies x[k] == 0 by {
                            assert(x[k] <= before(xs, 1, p@.d)[k]);
                            assert(0 <= x[k]);
                        }
                    }
                    assert(paths@[0].0 == up(1, x));
                    lemma_cache_find(paths@, up(1, x));
                }
            }
        }
    }
    let mut t: i32 = 1;
    while t < p.t_end
        invariant
            1 <= t <= p.t_end,
            p@.wf(),
            values_wf(rows(values@), p@.bounds),
            forall|i: int|
                0 <= i < configs.len() ==> in_universe(
                    #[trigger] rows(configs@)[i],
                    rows(values@),
                ),
            universe_wf(rows(configs@), p@),
            cache_wf(paths@),
            cache_sound(paths@, p@.bounds),
            cache_within(paths@, rows(values@)),
            cache_priced(paths@, p@),
            owed == (has_zero(rows(configs@), p@.d) && join_total(p@, rows(configs@))),
            owed ==> live(paths@, rows(configs@), t as int),
            opt == (has_zero(rows(configs@), p@.d) && meet_closed(rows(configs@))),
            opt ==> layer_best(paths@, p@, rows(configs@), t as int),
            join_closed(rows(configs@)) ==> join_total(p@, rows(configs@)),
            p@.d == 1 ==> join_closed(rows(configs@)) && meet_closed(rows(configs@)),
            !has_zero(rows(configs@), p@.d) ==> paths@ == start,
            start == initial_cache(p@.d),
            total_until(p@, rows(configs@), p@.t_end),
            rows(values@) == dimension_ranges(rows(configs@), p@.d as int),
            layers_sweep(start, p@, rows(values@), rows(configs@), t - 1) == Ok::<
                CacheView,
                Failure,
            >(paths@),
        decreases p.t_end - t,
    {
        proof {
            if owed {
                assert forall|i: int| 0 <= i < configs.len() implies #[trigger] joins_defined(
                    p@,
                    rows(configs@),
                    rows(configs@)[i],
                    t as int,
                ) by {}
            }
        }
        proof {
            if !has_zero(rows(configs@), p@.d) {
                lemma_initial_dead(p@.d, rows(configs@), t as int);
            }
        }
        match sweep_tos(p, &values, configs, &mut paths, t) {
            Ok(_) => {
                proof {
                    if owed {
                        let i = choose|i: int|
                            0 <= i < configs.len() && #[trigger] rows(configs@)[i] == zeros(p@.d);
                        assert(cache_get(paths@, up(t + 1, rows(configs@)[i])).is_some());
                    }
                }
            },
            Err(e) => {
                proof {
                    assert(layers_sweep(start, p@, rows(values@), rows(configs@), t as int)
                        == Err::<CacheView, Failure>(e));
                    lemma_layers_error(
                        start,
                        p@,
                        rows(values@),
                        rows(configs@),
                        t as int,
                        p@.t_end - 1,
                    );
                }
                return Err(e);
            },
        }
        t = t + 1;
    }
    let last = Vertice::new(p.t_end + 1, zero_config(p.d), Phase::PoweringDown);
    assert(last@ == terminal(p@.t_end, p@.d));
    assert(in_bounds(zeros(p@.d), p@.bounds));
    proof {
        if owed {
            let i = choose|i: int| 0 <= i < configs.len() && #[trigger] rows(configs@)[i] == zeros(
                p@.d,
            );
            assert(in_universe(rows(configs@)[i], rows(values@)));
            assert(joins_defined(p@, rows(configs@), rows(configs@)[i], p@.t_end));
        }
    }
    proof {
        if !has_zero(rows(configs@), p@.d) {
            lemma_initial_dead(p@.d, rows(configs@), p@.t_end);
        }
    }
    match sweep_froms(p, &values, configs, &mut paths, p.t_end, &last) {
        Ok(_) => {},
        Err(e) => {
            return Err(e);
        },
    }
    proof {
        if !has_zero(rows(configs@), p@.d) {
            lemma_cache_find(paths@, last@);
        }
        if opt {
            assert(best_at(paths@, p@, rows(configs@), last@, p@.t_end));
            assert forall|xs: Seq<Seq<i32>>|
                xs.len() == p@.t_end && #[trigger] schedule_in(xs, rows(configs@)) implies beats(
                paths@,
                p@,
                last@,
                xs,
                p@.t_end,
            ) by {
                let m = xs[p@.t_end - 1];
                assert(listed(rows(configs@), m));
                let mi = choose|i: int| 0 <= i < configs.len() && #[trigger] rows(configs@)[i] == m;
                assert(in_bounds(rows(configs@)[mi], p@.bounds));
                assert(fits(xs, rows(configs@), zeros(p@.d), p@.t_end, p@.d));
            }
        }
    }
    proof {
        lemma_cache_get_sound(paths@, last@, p@.bounds);
        lemma_cache_get_within(paths@, last@, rows(values@));
        lemma_cache_get_priced(paths@, last@, p@);
        if p@.d == 1 && cache_get(paths@, last@).is_some() {
            let found = cache_get(paths@, last@).unwrap();
            assert forall|s: int| 0 <= s < found.schedule.len() implies listed(
                rows(configs@),
                #[trigger] found.schedule[s],
            ) by {
                lemma_one_dimension_listed(rows(configs@), found.schedule[s]);
            }
        }
    }
    match paths.get(&last) {
        Some(path) => Ok(path),
        None => Err(Failure::PathsShouldBeCached),
    }
}

/// Every level from zero to its bound is a candidate of its dimension.
pub proof fn lemma_all_values_wf(bounds: Seq<i32>)
    requires
        forall|k: int| 0 <= k < bounds.len() ==> #[trigger] bounds[k] >= 0,
    ensures
        values_wf(all_values(bounds), bounds),
{
    let values = all_values(bounds);
    assert forall|k: int| 0 <= k < values.len() implies increasing(#[trigger] values[k]) by {
        assert(bounds[k] >= 0);
    }
    assert forall|k: int, i: int| 0 <= k < values.len() && 0 <= i < values[k].len() implies 0
        <= #[trigger] values[k][i] <= bounds[k] by {
        assert(bounds[k] >= 0);
    }
}

/// Zero is a candidate level of every dimension.
pub open spec fn zero_listed(values: Seq<Seq<i32>>) -> bool {
    forall|k: int| 0 <= k < values.len() ==> (#[trigger] values[k]).contains(0i32)
}

/// Where zero is a candidate level of every dimension and the hitting cost
/// is defined on every combination of candidate levels, the combinations
/// hold all zeros, and the hitting cost is defined on all their joins.
pub proof fn lemma_product_joins(p: ProblemView, values: Seq<Seq<i32>>)
    requires
        values.len() == p.d,
        zero_listed(values),
        total_until(p, product(values, p.d as int), p.t_end),
    ensures
        has_zero(product(values, p.d as int), p.d),
        join_total(p, product(values, p.d as int)),
{
    let d = p.d as int;
    let configs = product(values, d);
    assert(values.take(d) =~= values);
    assert(in_universe(zeros(p.d), values));
    lemma_product_complete(values, d, zeros(p.d));
    assert forall|t: int, i: int| 1 <= t <= p.t_end && 0 <= i < configs.len() implies #[trigger] joins_defined(
        p,
        configs,
        configs[i],
        t,
    ) by {
        assert forall|j: int| 0 <= j < configs.len() implies p.hitting(
            t,
            #[trigger] join(configs[j], configs[i]),
        ).is_some() by {
            lemma_product_in_universe(values, d, i);
            lemma_product_in_universe(values, d, j);
            let m = join(configs[j], configs[i]);
            assert(in_universe(m, values)) by {
                assert forall|k: int| 0 <= k < m.len() implies (#[trigger] values[k]).contains(
                    m[k],
                ) by {
                    assert(values[k].contains(configs[j][k]));
                    assert(values[k].contains(configs[i][k]));
                }
            }
            lemma_product_complete(values, d, m);
            let c = choose|c: int| 0 <= c < configs.len() && #[trigger] configs[c] == m;
            assert(p.hitting(t, configs[c]).is_some());
        }
    }
}

/// Where zero is a candidate level of every dimension, the combinations of
/// candidate levels hold all zeros and the meet of any two of them.
pub proof fn lemma_product_meets(d: nat, values: Seq<Seq<i32>>)
    requires
        values.len() == d,
        zero_listed(values),
    ensures
        has_zero(product(values, d as int), d),
        meet_closed(product(values, d as int)),
{
    let configs = product(values, d as int);
    assert(values.take(d as int) =~= values);
    assert(in_universe(zeros(d), values));
    lemma_product_complete(values, d as int, zeros(d));
    assert forall|i: int, j: int| 0 <= i < configs.len() && 0 <= j < configs.len() implies listed(
        configs,
        #[trigger] meet(configs[i], configs[j]),
    ) by {
        lemma_product_in_universe(values, d as int, i);
        lemma_product_in_universe(values, d as int, j);
        let m = meet(configs[i], configs[j]);
        assert(in_universe(m, values)) by {
            assert forall|k: int| 0 <= k < m.len() implies (#[trigger] values[k]).contains(m[k]) by {
                assert(values[k].contains(configs[i][k]));
                assert(values[k].contains(configs[j][k]));
            }
        }
        lemma_product_complete(values, d as int, m);
    }
}

/// A configuration of the levels that the combinations hold is one of the
/// combinations.
pub proof fn lemma_product_ranges(d: nat, values: Seq<Seq<i32>>, x: Seq<i32>)
    requires
        values.len() == d,
        in_universe(x, dimension_ranges(product(values, d as int), d as int)),
    ensures
        listed(product(values, d as int), x),
{
    let configs = product(values, d as int);
    assert(values.take(d as int) =~= values);
    assert(in_universe(x, values)) by {
        assert forall|k: int| 0 <= k < x.len() implies (#[trigger] values[k]).contains(x[k]) by {
            lemma_dimension_range(configs, k, configs.len() as int);
            assert(dimension_ranges(configs, d as int)[k].contains(x[k]));
            assert(occurs(configs, k, configs.len() as int, x[k]));
            let i = choose|i: int| 0 <= i < configs.len() && #[trigger] configs[i][k] == x[k];
            lemma_product_in_universe(values, d as int, i);
            assert(values[k].contains(configs[i][k]));
        }
    }
    lemma_product_complete(values, d as int, x);
}

/// Searches a schedule over every combination of the given candidate
/// levels: the approximate search, whose candidate levels thin out toward
/// the bounds.
///
/// The search succeeds if and only if zero is a candidate level of every
/// dimension and the hitting cost is defined on every combination at every
/// time step of the horizon. Then the returned cost is the objective of the
/// returned schedule and the least objective of all schedules over the
/// combinations.
pub fn approx_graph_search(p: &Problem, all_values: &Vec<Vec<i32>>) -> (r: Result<Path, Failure>)
    requires
        p@.wf(),
        values_wf(rows(all_values@), p@.bounds),
    ensures
        match r {
            Ok(path) => spec_graph_search(p@, product(rows(all_values@), p@.d as int)) == Ok::<
                PathView,
                Failure,
            >(path@),
            Err(e) => spec_graph_search(p@, product(rows(all_values@), p@.d as int)) == Err::<
                PathView,
                Failure,
            >(e),
        },
        r matches Ok(path) ==> schedule_valid(path@.schedule, p@.t_end, p@.bounds),
        r matches Ok(path) ==> (match objective(p@, path@.schedule, p@.t_end) {
            Some(o) => o <= path@.cost,
            None => false,
        }),
        r == Err::<Path, Failure>(Failure::CostFunctionNotTotal) <==> !total_until(
            p@,
            product(rows(all_values@), p@.d as int),
            p@.t_end,
        ),
        r.is_ok() <==> zero_listed(rows(all_values@)) && total_until(
            p@,
            product(rows(all_values@), p@.d as int),
            p@.t_end,
        ),
        r.is_err() ==> r == Err::<Path, Failure>(Failure::CostFunctionNotTotal) || r == Err::<
            Path,
            Failure,
        >(Failure::PathsShouldBeCached),
        zero_listed(rows(all_values@)) ==> (r matches Ok(path) ==> schedule_in(
            path@.schedule,
            product(rows(all_values@), p@.d as int),
        ) && objective(p@, path@.schedule, p@.t_end) == Some(path@.cost) && least(
            path@.cost,
            p@,
            product(rows(all_values@), p@.d as int),
        )),
{
    let configs = build_configs(all_values);
    proof {
        if zero_listed(rows(all_values@)) {
            lemma_product_meets(p@.d, rows(all_values@));
        } else if has_zero(rows(configs@), p@.d) {
            let i = choose|i: int|
                0 <= i < configs.len() && #[trigger] rows(configs@)[i] == zeros(p@.d);
            lemma_product_in_universe(rows(all_values@), p@.d as int, i);
            assert(rows(all_values@).take(p@.d as int) =~= rows(all_values@));
            assert forall|k: int| 0 <= k < rows(all_values@).len() implies (
            #[trigger] rows(all_values@)[k]).contains(0i32) by {
                assert(rows(all_values@)[k].contains(zeros(p@.d)[k]));
            }
        }
    }
    proof {
        if zero_listed(rows(all_values@)) && total_until(
            p@,
            product(rows(all_values@), p@.d as int),
            p@.t_end,
        ) {
            lemma_product_joins(p@, rows(all_values@));
        }
    }
    proof {
        assert forall|i: int| 0 <= i < configs.len() implies in_bounds(
            #[trigger] rows(configs@)[i],
            p@.bounds,
        ) by {
            lemma_product_in_bounds(rows(all_values@), p@.bounds, i);
        }
    }
    let r = graph_search(p, &configs);
    proof {
        if zero_listed(rows(all_values@)) {
            match &r {
                Ok(path) => {
                    assert forall|s: int| 0 <= s < path@.schedule.len() implies listed(
                        rows(configs@),
                        #[trigger] path@.schedule[s],
                    ) by {
                        lemma_product_ranges(p@.d, rows(all_values@), path@.schedule[s]);
                    }
                    assert(schedule_in(path@.schedule, rows(configs@)));
                },
                Err(_) => {},
            }
        }
    }
    r
}

/// Searches a schedule over every configuration within the bounds: the
/// exact search.
///
/// The search succeeds if and only if the hitting cost is defined on every
/// configuration within the bounds at every time step of the horizon, and
/// the returned cost is the objective of the returned schedule and the
/// least objective of all schedules within the bounds.
pub fn optimal_graph_search(p: &Problem) -> (r: Result<Path, Failure>)
    requires
        p@.wf(),
    ensures
        match r {
            Ok(path) => spec_graph_search(p@, product(all_values(p@.bounds), p@.d as int)) == Ok::<
                PathView,
                Failure,
            >(path@),
            Err(e) => spec_graph_search(p@, product(all_values(p@.bounds), p@.d as int)) == Err::<
                PathView,
                Failure,
            >(e),
        },
        r matches Ok(path) ==> schedule_valid(path@.schedule, p@.t_end, p@.bounds),
        r matches Ok(path) ==> (match objective(p@, path@.schedule, p@.t_end) {
            Some(o) => o <= path@.cost,
            None => false,
        }),
        r.is_ok() <==> total_until(p@, product(all_values(p@.bounds), p@.d as int), p@.t_end),
        r.is_err() ==> r == Err::<Path, Failure>(Failure::CostFunctionNotTotal),
        r matches Ok(path) ==> schedule_in(
            path@.schedule,
            product(all_values(p@.bounds), p@.d as int),
        ) && objective(p@, path@.schedule, p@.t_end) == Some(path@.cost) && least(
            path@.cost,
            p@,
            product(all_values(p@.bounds), p@.d as int),
        ),
{
    let levels = build_all_exact_values(&p.bounds);
    proof {
        lemma_all_values_wf(p@.bounds);
        assert forall|k: int| 0 <= k < all_values(p@.bounds).len() implies (
        #[trigger] all_values(p@.bounds)[k]).contains(0i32) by {
            assert(p@.bounds[k] >= 0);
            assert(all_values(p@.bounds)[k][0] == 0i32);
        }
    }
    approx_graph_search(p, &levels)
}

/// Two searches on the same problem and the same candidate configurations
/// give the same schedule at the same cost, or fail alike.
pub proof fn lemma_search_is_deterministic(
    p: ProblemView,
    configs: Seq<Seq<i32>>,
    first: Result<PathView, Failure>,
    second: Result<PathView, Failure>,
)
    requires
        first == spec_graph_search(p, configs),
        second == spec_graph_search(p, configs),
    ensures
        first == second,
{
}

/// In a dimension whose bound is zero a valid schedule stays at zero for
/// the whole horizon.
pub proof fn lemma_zero_bound_stays_zero(xs: Seq<Seq<i32>>, t_end: int, bounds: Seq<i32>, k: int)
    requires
        schedule_valid(xs, t_end, bounds),
        0 <= k < bounds.len(),
        bounds[k] == 0,
    ensures
        forall|t: int| 0 <= t < xs.len() ==> (#[trigger] xs[t])[k] == 0,
{
    assert forall|t: int| 0 <= t < xs.len() implies (#[trigger] xs[t])[k] == 0 by {
        assert(in_bounds(xs[t], bounds));
        assert(0 <= xs[t][k] <= bounds[k]);
    }
}

/// Finer candidate levels cost no more: where each candidate level of
/// `coarse` is one of `fine` in its dimension, the least cost over the
/// combinations of `fine` is at most the objective of any schedule over the
/// combinations of `coarse`. The exact search, whose levels are all levels,
/// is the finest.
pub proof fn lemma_finer_levels_cost_no_more(
    p: ProblemView,
    coarse: Seq<Seq<i32>>,
    fine: Seq<Seq<i32>>,
    coarse_cost: int,
    coarse_xs: Seq<Seq<i32>>,
    fine_cost: int,
)
    requires
        coarse.len() == p.d,
        fine.len() == p.d,
        forall|k: int, x: i32|
            0 <= k < p.d && (#[trigger] coarse[k]).contains(x) ==> #[trigger] fine[k].contains(x),
        coarse_xs.len() == p.t_end,
        schedule_in(coarse_xs, product(coarse, p.d as int)),
        objective(p, coarse_xs, p.t_end) == Some(coarse_cost),
        least(fine_cost, p, product(fine, p.d as int)),
    ensures
        fine_cost <= coarse_cost,
{
    let d = p.d as int;
    let a = product(coarse, d);
    let b = product(fine, d);
    assert(coarse.take(d) =~= coarse);
    assert(fine.take(d) =~= fine);
    assert forall|i: int| 0 <= i < a.len() implies listed(b, #[trigger] a[i]) by {
        lemma_product_in_universe(coarse, d, i);
        assert(in_universe(a[i], fine)) by {
            assert forall|k: int| 0 <= k < a[i].len() implies (#[trigger] fine[k]).contains(
                a[i][k],
            ) by {
                assert(coarse[k].contains(a[i][k]));
            }
        }
        lemma_product_complete(fine, d, a[i]);
    }
    lemma_finer_costs_no_more(p, a, b, p.t_end, coarse_cost, coarse_xs, fine_cost);
}

} // verus!

//! Device programs during which a paged cache changes.
//!
//! Such a program is a sequence of stages. While a stage runs the bookkeeping of
//! the cache stays as it is; it changes from one stage to the next.
use crate::base::backend::DeviceEvent;
use crate::base::error::FractureError;
use crate::base::program::{
    failed_with, joined, programs_fail_with_the_device, ran, ran_short, ran_then,
};
use crate::engine::paged_kv_cache::CacheModel;
use vstd::prelude::*;

verus! {

/// Running `stages` took the trace from `before` to `after` and left the cache as
/// `cache`: that of the last stage where all ran, else that of the stage in which
/// the device failed.
pub open spec fn ran_staged(
    stages: Seq<Seq<DeviceEvent>>,
    caches: Seq<CacheModel>,
    before: Seq<DeviceEvent>,
    after: Seq<DeviceEvent>,
    cache: CacheModel,
    err: Option<FractureError>,
) -> bool {
    match err {
        None => after == before + joined(stages) && cache == caches.last(),
        Some(e) => exists|k: int|
            0 <= k < stages.len() && cache == #[trigger] caches[k] && ran(
                before + joined(stages.take(k)),
                after,
                stages[k],
                Some(e),
            ),
    }
}

/// The stages ran and ended with the error `e`: either the device failed, or all
/// stages ran and what followed was refused.
pub open spec fn ended_staged(
    stages: Seq<Seq<DeviceEvent>>,
    caches: Seq<CacheModel>,
    before: Seq<DeviceEvent>,
    after: Seq<DeviceEvent>,
    cache: CacheModel,
    e: FractureError,
    refused: bool,
) -> bool {
    ||| ran_staged(stages, caches, before, after, cache, Some(e))
    ||| ran_staged(stages, caches, before, after, cache, None) && refused
}

/// Stages that did not run to their end were stopped by a call that the device failed.
pub(crate) proof fn stages_fail_with_the_device(
    stages: Seq<Seq<DeviceEvent>>,
    caches: Seq<CacheModel>,
    before: Seq<DeviceEvent>,
    after: Seq<DeviceEvent>,
    cache: CacheModel,
    e: FractureError,
)
    requires
        ran_staged(stages, caches, before, after, cache, Some(e)),
    ensures
        failed_with(before, after, e),
{
    let k = choose|k: int|
        0 <= k < stages.len() && cache == #[trigger] caches[k] && ran(
            before + joined(stages.take(k)),
            after,
            stages[k],
            Some(e),
        );
    programs_fail_with_the_device(before + joined(stages.take(k)), after, stages[k], e);
}

/// A device failure within stage `k` ends the stages there.
pub(crate) proof fn stage_stops(
    stages: Seq<Seq<DeviceEvent>>,
    caches: Seq<CacheModel>,
    k: int,
    before: Seq<DeviceEvent>,
    middle: Seq<DeviceEvent>,
    after: Seq<DeviceEvent>,
    ran_before: Seq<DeviceEvent>,
    part: Seq<DeviceEvent>,
    rest: Seq<DeviceEvent>,
    e: FractureError,
)
    requires
        0 <= k < stages.len(),
        caches.len() == stages.len(),
        middle == before + joined(stages.take(k)) + ran_before,
        ran(middle, after, part, Some(e)),
        stages[k] == ran_before + part + rest,
    ensures
        ran(before + joined(stages.take(k)), after, stages[k], Some(e)),
        ran_staged(stages, caches, before, after, caches[k], Some(e)),
{
    let at = before + joined(stages.take(k));
    ran_then(at, middle, after, ran_before, part, Some(e));
    ran_short(at, after, ran_before + part, rest, e);
    assert(caches[k] == caches[k]);
}

/// The stages, with `prefix` before the first one.
pub open spec fn prefixed(stages: Seq<Seq<DeviceEvent>>, prefix: Seq<DeviceEvent>) -> Seq<
    Seq<DeviceEvent>,
> {
    stages.update(0, prefix + stages[0])
}

/// The stages, with `suffix` behind the last one.
pub open spec fn suffixed(stages: Seq<Seq<DeviceEvent>>, suffix: Seq<DeviceEvent>) -> Seq<
    Seq<DeviceEvent>,
> {
    stages.update(stages.len() - 1, stages.last() + suffix)
}

/// One row more.
proof fn joined_next<T>(rows: Seq<Seq<T>>, k: int)
    requires
        0 < k <= rows.len(),
    ensures
        joined(rows.take(k)) == joined(rows.take(k - 1)) + rows[k - 1],
{
    let some = rows.take(k);
    assert(some.drop_last() =~= rows.take(k - 1));
    assert(some.last() == rows[k - 1]);
    assert(joined(some) == joined(some.drop_last()) + some.last());
}

/// What comes before the first stage comes before all of them.
pub(crate) proof fn joined_prefixed(
    stages: Seq<Seq<DeviceEvent>>,
    prefix: Seq<DeviceEvent>,
    k: int,
)
    requires
        0 < k <= stages.len(),
    ensures
        joined(prefixed(stages, prefix).take(k)) == prefix + joined(stages.take(k)),
    decreases k,
{
    let all = prefixed(stages, prefix);
    let none = Seq::<DeviceEvent>::empty();
    joined_next(all, k);
    joined_next(stages, k);
    if k == 1 {
        assert(all.take(0) =~= Seq::empty());
        assert(stages.take(0) =~= Seq::empty());
        assert(joined(all.take(0)) == none);
        assert(joined(stages.take(0)) == none);
        assert(all[0] == prefix + stages[0]);
        assert(none + (prefix + stages[0]) =~= prefix + (none + stages[0]));
    } else {
        let sofar = joined(stages.take(k - 1));
        joined_prefixed(stages, prefix, k - 1);
        assert(all[k - 1] == stages[k - 1]);
        assert(prefix + sofar + stages[k - 1] =~= prefix + (sofar + stages[k - 1]));
    }
}

/// Stages that ran after `prefix` ran are stages that begin with it.
proof fn prefix_stages(
    stages: Seq<Seq<DeviceEvent>>,
    caches: Seq<CacheModel>,
    prefix: Seq<DeviceEvent>,
    before: Seq<DeviceEvent>,
    after: Seq<DeviceEvent>,
    cache: CacheModel,
    err: Option<FractureError>,
)
    requires
        stages.len() > 0,
        caches.len() == stages.len(),
        ran_staged(stages, caches, before + prefix, after, cache, err),
    ensures
        ran_staged(prefixed(stages, prefix), caches, before, after, cache, err),
{
    let all = prefixed(stages, prefix);
    match err {
        None => {
            joined_prefixed(stages, prefix, stages.len() as int);
            assert(all.take(all.len() as int) =~= all);
            assert(stages.take(stages.len() as int) =~= stages);
            assert(before + prefix + joined(stages) =~= before + joined(all));
        },
        Some(e) => {
            let k = choose|k: int|
                0 <= k < stages.len() && cache == #[trigger] caches[k] && ran(
                    before + prefix + joined(stages.take(k)),
                    after,
                    stages[k],
                    Some(e),
                );
            if k == 0 {
                assert(stages.take(0) =~= Seq::empty());
                assert(all.take(0) =~= Seq::empty());
                assert(before + prefix + joined(stages.take(0)) =~= before + prefix);
                ran_then(before, before + prefix, after, prefix, stages[0], Some(e));
                assert(before + joined(all.take(0)) =~= before);
            } else {
                joined_prefixed(stages, prefix, k);
                assert(before + prefix + joined(stages.take(k)) =~= before + joined(all.take(k)));
            }
            assert(cache == caches[k]);
        },
    }
}

/// A failure within the stages is one however they go on.
proof fn suffix_stops(
    stages: Seq<Seq<DeviceEvent>>,
    caches: Seq<CacheModel>,
    suffix: Seq<DeviceEvent>,
    before: Seq<DeviceEvent>,
    after: Seq<DeviceEvent>,
    cache: CacheModel,
    e: FractureError,
)
    requires
        stages.len() > 0,
        caches.len() == stages.len(),
        ran_staged(stages, caches, before, after, cache, Some(e)),
    ensures
        ran_staged(suffixed(stages, suffix), caches, before, after, cache, Some(e)),
{
    let all = suffixed(stages, suffix);
    let k = choose|k: int|
        0 <= k < stages.len() && cache == #[trigger] caches[k] && ran(
            before + joined(stages.take(k)),
            after,
            stages[k],
            Some(e),
        );
    assert(all.take(k) =~= stages.take(k));
    if k == stages.len() - 1 {
        ran_short(before + joined(stages.take(k)), after, stages[k], suffix, e);
    }
    assert(cache == caches[k]);
}

/// A program that ran after all stages continues the last of them.
proof fn suffix_stages(
    stages: Seq<Seq<DeviceEvent>>,
    caches: Seq<CacheModel>,
    suffix: Seq<DeviceEvent>,
    before: Seq<DeviceEvent>,
    middle: Seq<DeviceEvent>,
    after: Seq<DeviceEvent>,
    cache: CacheModel,
    err: Option<FractureError>,
)
    requires
        stages.len() > 0,
        caches.len() == stages.len(),
        ran_staged(stages, caches, before, middle, cache, None),
        ran(middle, after, suffix, err),
    ensures
        ran_staged(suffixed(stages, suffix), caches, before, after, cache, err),
{
    let all = suffixed(stages, suffix);
    let last = stages.len() - 1;
    assert(all.take(last) =~= stages.take(last));
    assert(all.drop_last() =~= all.take(last));
    assert(stages.drop_last() =~= stages.take(last));
    let start = before + joined(stages.take(last));
    assert(middle =~= start + stages[last]);
    ran_then(start, middle, after, stages[last], suffix, err);
    match err {
        None => {
            assert(after =~= before + joined(all));
        },
        Some(e) => {
            assert(cache == caches[last]);
        },
    }
}

/// Stages during which the cache does not change are one program.
pub(crate) proof fn stages_are_program(
    stages: Seq<Seq<DeviceEvent>>,
    caches: Seq<CacheModel>,
    before: Seq<DeviceEvent>,
    after: Seq<DeviceEvent>,
    cache: CacheModel,
    err: Option<FractureError>,
)
    requires
        ran_staged(stages, caches, before, after, cache, err),
    ensures
        ran(before, after, joined(stages), err),
{
    if let Some(e) = err {
        let k = choose|k: int|
            0 <= k < stages.len() && cache == #[trigger] caches[k] && ran(
                before + joined(stages.take(k)),
                after,
                stages[k],
                Some(e),
            );
        ran_then(
            before,
            before + joined(stages.take(k)),
            after,
            joined(stages.take(k)),
            stages[k],
            Some(e),
        );
        assert(stages.take(k + 1).drop_last() =~= stages.take(k));
        joined_split(stages, k + 1);
        let rest = joined(stages.skip(k + 1));
        ran_short(before, after, joined(stages.take(k + 1)), rest, e);
    }
}

/// The first rows and the others are all rows.
pub(crate) proof fn joined_split<T>(rows: Seq<Seq<T>>, k: int)
    requires
        0 <= k <= rows.len(),
    ensures
        joined(rows) == joined(rows.take(k)) + joined(rows.skip(k)),
    decreases rows.len(),
{
    if k == rows.len() {
        assert(rows.take(k) =~= rows);
        assert(rows.skip(k) =~= Seq::empty());
        assert(joined(rows) + Seq::<T>::empty() =~= joined(rows));
    } else {
        joined_split(rows.drop_last(), k);
        assert(rows.drop_last().take(k) =~= rows.take(k));
        assert(rows.drop_last().skip(k) =~= rows.skip(k).drop_last());
        assert(joined(rows) =~= joined(rows.take(k)) + joined(rows.skip(k)));
    }
}

/// How stages end of which only the first `limit` can run, because the cache lacks
/// blocks for what would follow them.
///
/// Where all can run, they do, unless the device fails. Else the device fails in one
/// of the first, or those run and the error is `exhausted`.
#[verifier::opaque]
pub open spec fn staged_outcome(
    stages: Seq<Seq<DeviceEvent>>,
    caches: Seq<CacheModel>,
    limit: int,
    exhausted: FractureError,
    before: Seq<DeviceEvent>,
    after: Seq<DeviceEvent>,
    cache: CacheModel,
    err: Option<FractureError>,
) -> bool {
    match err {
        None => limit == stages.len() && ran_staged(stages, caches, before, after, cache, None),
        Some(e) => ended_staged(
            stages.take(limit),
            caches.take(limit),
            before,
            after,
            cache,
            e,
            limit < stages.len() && e == exhausted,
        ),
    }
}

/// A device failure in stage `k` ends the stages.
pub(crate) proof fn outcome_stops(
    stages: Seq<Seq<DeviceEvent>>,
    caches: Seq<CacheModel>,
    limit: int,
    exhausted: FractureError,
    k: int,
    before: Seq<DeviceEvent>,
    after: Seq<DeviceEvent>,
    e: FractureError,
)
    requires
        0 <= k < limit <= stages.len(),
        caches.len() == stages.len(),
        ran(before + joined(stages.take(k)), after, stages[k], Some(e)),
    ensures
        staged_outcome(stages, caches, limit, exhausted, before, after, caches[k], Some(e)),
{
    reveal(staged_outcome);
    let some = stages.take(limit);
    assert(some.take(k) =~= stages.take(k));
    assert(some[k] == stages[k]);
    assert(caches.take(limit)[k] == caches[k]);
    assert(ran_staged(some, caches.take(limit), before, after, caches[k], Some(e)));
}

/// Stages that ended after `prefix` ran are stages that begin with it.
pub(crate) proof fn prefix_outcome(
    stages: Seq<Seq<DeviceEvent>>,
    caches: Seq<CacheModel>,
    limit: int,
    exhausted: FractureError,
    prefix: Seq<DeviceEvent>,
    before: Seq<DeviceEvent>,
    after: Seq<DeviceEvent>,
    cache: CacheModel,
    err: Option<FractureError>,
)
    requires
        0 < limit <= stages.len(),
        caches.len() == stages.len(),
        staged_outcome(
            stages,
            caches,
            limit,
            exhausted,
            before + prefix,
            after,
            cache,
            err,
        ),
    ensures
        staged_outcome(
            prefixed(stages, prefix),
            caches,
            limit,
            exhausted,
            before,
            after,
            cache,
            err,
        ),
{
    reveal(staged_outcome);
    match err {
        None => {
            prefix_stages(stages, caches, prefix, before, after, cache, None);
        },
        Some(e) => {
            let some = stages.take(limit);
            let held = caches.take(limit);
            assert(prefixed(stages, prefix).take(limit) =~= prefixed(some, prefix));
            if ran_staged(some, held, before + prefix, after, cache, Some(e)) {
                prefix_stages(some, held, prefix, before, after, cache, Some(e));
            } else {
                prefix_stages(some, held, prefix, before, after, cache, None);
            }
        },
    }
}

/// A device failure before the stages ends them where they begin.
pub(crate) proof fn prefix_fails(
    stages: Seq<Seq<DeviceEvent>>,
    caches: Seq<CacheModel>,
    limit: int,
    exhausted: FractureError,
    prefix: Seq<DeviceEvent>,
    before: Seq<DeviceEvent>,
    after: Seq<DeviceEvent>,
    e: FractureError,
)
    requires
        0 < limit <= stages.len(),
        caches.len() == stages.len(),
        ran(before, after, prefix, Some(e)),
    ensures
        staged_outcome(
            prefixed(stages, prefix),
            caches,
            limit,
            exhausted,
            before,
            after,
            caches[0],
            Some(e),
        ),
{
    let all = prefixed(stages, prefix);
    ran_short(before, after, prefix, stages[0], e);
    assert(all.take(0) =~= Seq::empty());
    assert(before + joined(all.take(0)) =~= before);
    outcome_stops(all, caches, limit, exhausted, 0, before, after, e);
}

/// Stages that did not all run end as they do however they would go on.
pub(crate) proof fn suffix_fails(
    stages: Seq<Seq<DeviceEvent>>,
    caches: Seq<CacheModel>,
    limit: int,
    exhausted: FractureError,
    suffix: Seq<DeviceEvent>,
    before: Seq<DeviceEvent>,
    after: Seq<DeviceEvent>,
    cache: CacheModel,
    e: FractureError,
)
    requires
        0 < limit <= stages.len(),
        caches.len() == stages.len(),
        staged_outcome(stages, caches, limit, exhausted, before, after, cache, Some(e)),
    ensures
        staged_outcome(
            suffixed(stages, suffix),
            caches,
            limit,
            exhausted,
            before,
            after,
            cache,
            Some(e),
        ),
{
    reveal(staged_outcome);
    let all = suffixed(stages, suffix);
    if limit == stages.len() {
        assert(stages.take(limit) =~= stages);
        assert(all.take(limit) =~= all);
        assert(caches.take(limit) =~= caches);
        suffix_stops(stages, caches, suffix, before, after, cache, e);
    } else {
        assert(all.take(limit) =~= stages.take(limit));
    }
}

/// A program that ran after all stages continues the last of them.
pub(crate) proof fn suffix_outcome(
    stages: Seq<Seq<DeviceEvent>>,
    caches: Seq<CacheModel>,
    limit: int,
    exhausted: FractureError,
    suffix: Seq<DeviceEvent>,
    before: Seq<DeviceEvent>,
    middle: Seq<DeviceEvent>,
    after: Seq<DeviceEvent>,
    cache: CacheModel,
    err: Option<FractureError>,
)
    requires
        0 < limit <= stages.len(),
        caches.len() == stages.len(),
        staged_outcome(stages, caches, limit, exhausted, before, middle, cache, None),
        ran(middle, after, suffix, err),
    ensures
        staged_outcome(
            suffixed(stages, suffix),
            caches,
            limit,
            exhausted,
            before,
            after,
            cache,
            err,
        ),
{
    reveal(staged_outcome);
    let all = suffixed(stages, suffix);
    suffix_stages(stages, caches, suffix, before, middle, after, cache, err);
    assert(all.take(limit) =~= all);
    assert(caches.take(limit) =~= caches);
}

} // verus!

//! What a cache takes from the device, it gives back.
use crate::base::backend::{DeviceCall, DeviceEvent};
use crate::base::dataflow::{
    fresh_parts, fresh_tensors, gives_fresh_memory, ids, in_use, in_use_add,
};
use crate::base::program::{all_allocated, all_done, frees};
use crate::base::tensor::{TensorId, TensorInfo};
use crate::engine::cache_backend::{contiguous_added, contiguous_removed};
use crate::engine::kv_cache::{CacheHandle, KvCacheManager};
use vstd::prelude::*;

verus! {

/// Tensors that are released are no longer in use, and the others are.
proof fn releases_end_use(used: Set<TensorId>, ts: Seq<TensorInfo>)
    ensures
        in_use(used, all_done(frees(ts))) == used.difference(ids(ts).to_set()),
    decreases ts.len(),
{
    let gone = ids(ts).to_set();
    if ts.len() > 0 {
        let rest = ts.drop_last();
        releases_end_use(used, rest);
        assert(all_done(frees(ts)).drop_last() =~= all_done(frees(rest)));
        assert(ids(rest) =~= ids(ts).drop_last());
        assert(ids(ts) =~= ids(rest).push(ts.last().id));
        assert forall|id: TensorId| gone.contains(id) <==> ids(rest).to_set().contains(id) || id
            == ts.last().id by {
            if ids(rest).contains(id) {
                let i = choose|i: int| 0 <= i < ids(rest).len() && ids(rest)[i] == id;
                assert(ids(ts)[i] == id);
            }
            if ids(ts).contains(id) && id != ts.last().id {
                let i = choose|i: int| 0 <= i < ids(ts).len() && ids(ts)[i] == id;
                assert(ids(rest)[i] == id);
            }
            assert(ids(ts)[ts.len() - 1] == ts.last().id);
        }
        assert(all_done(frees(ts)).last().call == DeviceCall::Free { tensor: ts.last() });
        assert(in_use(used, all_done(frees(ts))) =~= used.difference(gone));
    } else {
        assert(in_use(used, all_done(frees(ts))) =~= used.difference(gone));
    }
}

/// A sequence that leaves a cache takes its own tensors with it, and no others.
pub proof fn removed_sequences_release_their_tensors(
    used: Set<TensorId>,
    a: KvCacheManager,
    b: KvCacheManager,
    handle: CacheHandle,
    before: Seq<DeviceEvent>,
    after: Seq<DeviceEvent>,
    id: TensorId,
)
    requires
        contiguous_removed(a, b, handle, before, after, Ok(())),
    ensures
        a.sequences().contains_key(handle.0),
        in_use(used, after).contains(id) <==> in_use(used, before).contains(id) && !ids(
            a.sequences()[handle.0].tensors,
        ).contains(id),
{
    let ts = a.sequences()[handle.0].tensors;
    in_use_add(used, before, all_done(frees(ts)));
    releases_end_use(in_use(used, before), ts);
}

/// A sequence that is added to a cache and removed leaves everything as it was: the same
/// tensors are in use, and the cache has the same sequences.
pub proof fn removed_sequences_leave_nothing(
    used: Set<TensorId>,
    a: KvCacheManager,
    b: KvCacheManager,
    c: KvCacheManager,
    handle: CacheHandle,
    first: Seq<DeviceEvent>,
    second: Seq<DeviceEvent>,
    third: Seq<DeviceEvent>,
)
    requires
        !a.sequences().contains_key(a.next_handle()),
        contiguous_added(a, b, first, second, Ok(handle)),
        contiguous_removed(b, c, handle, second, third, Ok(())),
        gives_fresh_memory(used, third),
    ensures
        c.sequences() == a.sequences(),
        in_use(used, third) == in_use(used, first),
{
    let ts = b.sequences()[handle.0].tensors;
    assert(second == first + all_allocated(ts));
    assert(c.sequences() =~= a.sequences());
    fresh_parts(used, second, all_done(frees(ts)));
    fresh_parts(used, first, all_allocated(ts));
    let u = in_use(used, first);
    fresh_tensors(u, ts);
    in_use_add(used, first, all_allocated(ts));
    in_use_add(used, second, all_done(frees(ts)));
    releases_end_use(in_use(used, second), ts);
    assert(in_use(used, third) =~= u) by {
        assert forall|id: TensorId| ids(ts).to_set().contains(id) implies !u.contains(id) by {
            let i = choose|i: int| 0 <= i < ids(ts).len() && ids(ts)[i] == id;
            assert(ts[i].id == id);
        }
    }
}

} // verus!

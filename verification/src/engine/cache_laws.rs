//! Laws on caches and the device: what a cache allocates it frees again, and an append fails
//! only where the device does.
use crate::base::backend::{allocated, DeviceEvent};
use crate::base::dtype::DType;
use crate::base::error::{FractureError, Result};
use crate::base::program::{
    all_allocated, all_done, failed_with, frees, joined, laid_out, programs_fail_with_the_device,
    ran, shaped, upload_events, uploads,
};
use crate::base::tally::{holds, tally, tally_add, tally_one, tally_tensors};
use crate::base::tensor::TensorInfo;
use crate::base::turboquant::TurboQuantConfig;
use crate::engine::block_table::{chunks_from, has_slot, slot};
use crate::engine::kv_cache::CacheHandle;
use crate::engine::paged_kv_cache::{sequence_added, BlockPool, CacheState};
use crate::engine::quantized_paged_kv_cache::{packed_calls, QuantizedKvCacheManager};
use crate::engine::quantized_pool::{codebook_data, rotation_data, QuantTables, QuantizedBlockPool};
use vstd::prelude::*;

verus! {

/// How often a tensor occurs in a list.
pub open spec fn times(ts: Seq<TensorInfo>, t: TensorInfo) -> int
    decreases ts.len(),
{
    if ts.len() == 0 {
        0
    } else {
        times(ts.drop_last(), t) + if ts.last() == t {
            1int
        } else {
            0
        }
    }
}

proof fn times_add(a: Seq<TensorInfo>, b: Seq<TensorInfo>, t: TensorInfo)
    ensures
        times(a + b, t) == times(a, t) + times(b, t),
    decreases b.len(),
{
    if b.len() == 0 {
        assert(a + b =~= a);
    } else {
        times_add(a, b.drop_last(), t);
        assert((a + b).drop_last() =~= a + b.drop_last());
    }
}

/// Allocating tensors holds each as often as it occurs, and freeing them releases it as
/// often.
proof fn held_times(ts: Seq<TensorInfo>, t: TensorInfo)
    ensures
        tally(all_allocated(ts), holds(t)) == times(ts, t),
        tally(all_done(frees(ts)), holds(t)) == -times(ts, t),
    decreases ts.len(),
{
    tally_tensors(ts, holds(t));
    if ts.len() == 0 {
        assert(all_allocated(ts) =~= Seq::empty());
    } else {
        held_times(ts.drop_last(), t);
        assert(all_allocated(ts).drop_last() =~= all_allocated(ts.drop_last()));
        assert(all_allocated(ts).last() == allocated(ts.last()));
    }
}

/// Uploads hold each tensor as often as it occurs.
proof fn uploaded_times(ts: Seq<TensorInfo>, data: Seq<Seq<u8>>, t: TensorInfo)
    ensures
        tally(uploads(ts, data), holds(t)) == times(ts, t),
    decreases ts.len(),
{
    if ts.len() > 0 {
        let last = upload_events(ts.last(), data[ts.len() - 1]);
        uploaded_times(ts.drop_last(), data, t);
        tally_add(uploads(ts.drop_last(), data), last, holds(t));
        assert(last =~= seq![last[0]] + seq![last[1]]);
        tally_one(last[0], holds(t));
        tally_one(last[1], holds(t));
        tally_add(seq![last[0]], seq![last[1]], holds(t));
        assert(last[1].call is CopyToDevice);
    }
}

/// Rows that are made up of two parts each are made up of the parts together.
proof fn times_of_parts(
    rows: Seq<Seq<TensorInfo>>,
    a: Seq<Seq<TensorInfo>>,
    b: Seq<Seq<TensorInfo>>,
    t: TensorInfo,
)
    requires
        rows.len() == a.len() == b.len(),
        forall|i: int|
            0 <= i < rows.len() ==> times(#[trigger] rows[i], t) == times(a[i], t) + times(b[i], t),
    ensures
        times(joined(rows), t) == times(joined(a), t) + times(joined(b), t),
    decreases rows.len(),
{
    if rows.len() > 0 {
        let front = rows.drop_last();
        assert forall|i: int| 0 <= i < front.len() implies times(#[trigger] front[i], t) == times(
            a.drop_last()[i],
            t,
        ) + times(b.drop_last()[i], t) by {
            assert(front[i] == rows[i]);
        }
        times_of_parts(front, a.drop_last(), b.drop_last(), t);
        times_add(joined(front), rows.last(), t);
        times_add(joined(a.drop_last()), a.last(), t);
        times_add(joined(b.drop_last()), b.last(), t);
        assert(rows[rows.len() - 1] == rows.last());
    }
}

/// Every second tensor of a row, from `off` on.
spec fn every_second(row: Seq<TensorInfo>, n: int, off: int) -> Seq<TensorInfo> {
    Seq::new(n as nat, |i: int| row[2 * i + off])
}

/// A row is made up of its tensors at even and at odd places.
proof fn times_of_halves(row: Seq<TensorInfo>, n: int, t: TensorInfo)
    requires
        0 <= n,
        row.len() == 2 * n,
    ensures
        times(row, t) == times(every_second(row, n, 0), t) + times(every_second(row, n, 1), t),
    decreases n,
{
    if n > 0 {
        let front = row.take(2 * n - 2);
        let x = row[2 * n - 2];
        let y = row[2 * n - 1];
        times_of_halves(front, n - 1, t);
        assert(row =~= front + seq![x] + seq![y]);
        assert(every_second(row, n, 0) =~= every_second(front, n - 1, 0) + seq![x]);
        assert(every_second(row, n, 1) =~= every_second(front, n - 1, 1) + seq![y]);
        times_add(front, seq![x], t);
        times_add(front + seq![x], seq![y], t);
        times_add(every_second(front, n - 1, 0), seq![x], t);
        times_add(every_second(front, n - 1, 1), seq![y], t);
    }
}

/// Two of each four tensors of a row, from `off` on.
spec fn two_of_four(row: Seq<TensorInfo>, n: int, off: int) -> Seq<TensorInfo> {
    Seq::new((2 * n) as nat, |i: int| row[4 * (i / 2) + off + i % 2])
}

/// A row is made up of the first two and the last two of each four tensors.
proof fn times_of_pairs(row: Seq<TensorInfo>, n: int, t: TensorInfo)
    requires
        0 <= n,
        row.len() == 4 * n,
    ensures
        times(row, t) == times(two_of_four(row, n, 0), t) + times(two_of_four(row, n, 2), t),
    decreases n,
{
    if n > 0 {
        let front = row.take(4 * n - 4);
        let a = seq![row[4 * n - 4], row[4 * n - 3]];
        let b = seq![row[4 * n - 2], row[4 * n - 1]];
        times_of_pairs(front, n - 1, t);
        assert(row =~= front + a + b);
        assert(two_of_four(row, n, 0) =~= two_of_four(front, n - 1, 0) + a);
        assert(two_of_four(row, n, 2) =~= two_of_four(front, n - 1, 2) + b);
        times_add(front, a, t);
        times_add(front + a, b, t);
        times_add(two_of_four(front, n - 1, 0), a, t);
        times_add(two_of_four(front, n - 1, 2), b, t);
    }
}

/// Freeing the cache of a sequence frees just the tensors that were allocated for it:
/// `a` to `b` is the allocation of tensors, `c` to `d` their release.
pub proof fn caches_free_what_they_allocate(
    ts: Seq<TensorInfo>,
    a: Seq<DeviceEvent>,
    b: Seq<DeviceEvent>,
    c: Seq<DeviceEvent>,
    d: Seq<DeviceEvent>,
    t: TensorInfo,
)
    requires
        ran(a, b, all_allocated(ts), None::<FractureError>),
        ran(c, d, all_done(frees(ts)), None::<FractureError>),
    ensures
        tally(b, holds(t)) - tally(a, holds(t)) == tally(c, holds(t)) - tally(d, holds(t)),
{
    held_times(ts, t);
    tally_add(a, all_allocated(ts), holds(t));
    tally_add(c, all_done(frees(ts)), holds(t));
}

/// Destroying a block pool frees just the tensors that its creation allocated: `a` to `b`
/// is the creation, `c` to `d` the destruction.
pub proof fn pools_free_what_they_allocate(
    pool: BlockPool,
    num_blocks: usize,
    num_layers: usize,
    num_kv_heads: usize,
    head_dim: usize,
    a: Seq<DeviceEvent>,
    b: Seq<DeviceEvent>,
    c: Seq<DeviceEvent>,
    d: Seq<DeviceEvent>,
    t: TensorInfo,
)
    requires
        BlockPool::created(num_blocks, num_layers, num_kv_heads, head_dim, a, b, Ok(pool)),
        ran(
            c,
            d,
            all_done(frees(joined(pool.k_rows()) + joined(pool.v_rows()))),
            None::<FractureError>,
        ),
    ensures
        tally(b, holds(t)) - tally(a, holds(t)) == tally(c, holds(t)) - tally(d, holds(t)),
{
    let rows = pool.tensors();
    let ks = pool.k_rows();
    let vs = pool.v_rows();
    let n = pool.layers() as int;
    assert forall|i: int| 0 <= i < rows.len() implies times(#[trigger] rows[i], t) == times(
        ks[i],
        t,
    ) + times(vs[i], t) by {
        assert(shaped(
            rows[i],
            BlockPool::shapes(pool.layers(), pool.kv_heads(), pool.dim()),
            DType::FP16,
        ));
        times_of_halves(rows[i], n, t);
        assert(ks[i] =~= every_second(rows[i], n, 0));
        assert(vs[i] =~= every_second(rows[i], n, 1));
    }
    times_of_parts(rows, ks, vs, t);
    let made = joined(rows);
    let dropped = joined(ks) + joined(vs);
    times_add(joined(ks), joined(vs), t);
    held_times(made, t);
    held_times(dropped, t);
    tally_add(a, all_allocated(made), holds(t));
    tally_add(c, all_done(frees(dropped)), holds(t));
}

/// What a quantized pool holds is what it releases.
proof fn quantized_pool_times(pool: QuantizedBlockPool, t: TensorInfo)
    requires
        pool.wf(),
    ensures
        times(pool.all_tensors(), t) == times(joined(pool.tensors()), t) + times(
            pool.rotation_tensors(),
            t,
        ) + times(pool.codebook_tensors(), t),
{
    let rows = pool.tensors();
    let ks = pool.block_rows(0);
    let vs = pool.block_rows(2);
    let n = pool.layers() as int;
    assert forall|i: int| 0 <= i < rows.len() implies times(#[trigger] rows[i], t) == times(
        ks[i],
        t,
    ) + times(vs[i], t) by {
        assert(laid_out(rows[i], pool.layouts()));
        times_of_pairs(rows[i], n, t);
        assert(ks[i] =~= two_of_four(rows[i], n, 0));
        assert(vs[i] =~= two_of_four(rows[i], n, 2));
    }
    times_of_parts(rows, ks, vs, t);
    let rs = pool.rotation_tensors();
    times_of_halves(rs, n, t);
    let rk = Seq::new(pool.layers() as nat, |i: int| rs[2 * i]);
    let rv = Seq::new(pool.layers() as nat, |i: int| rs[2 * i + 1]);
    assert(rk =~= every_second(rs, n, 0));
    assert(rv =~= every_second(rs, n, 1));
    let blocks = joined(ks) + joined(vs);
    times_add(joined(ks), joined(vs), t);
    times_add(blocks, rk, t);
    times_add(blocks + rk, rv, t);
    times_add(blocks + rk + rv, pool.codebook_tensors(), t);
}

/// Destroying a quantized block pool frees just the tensors that its creation allocated:
/// `a` to `b` is the creation, `c` to `d` the destruction.
pub proof fn quantized_pools_free_what_they_allocate(
    pool: QuantizedBlockPool,
    num_blocks: usize,
    num_layers: usize,
    num_kv_heads: usize,
    head_dim: usize,
    config: TurboQuantConfig,
    tables: QuantTables,
    a: Seq<DeviceEvent>,
    b: Seq<DeviceEvent>,
    c: Seq<DeviceEvent>,
    d: Seq<DeviceEvent>,
    t: TensorInfo,
)
    requires
        QuantizedBlockPool::created(
            num_blocks,
            num_layers,
            num_kv_heads,
            head_dim,
            config,
            tables,
            a,
            b,
            Ok(pool),
        ),
        ran(c, d, all_done(frees(pool.all_tensors())), None::<FractureError>),
    ensures
        tally(b, holds(t)) - tally(a, holds(t)) == tally(c, holds(t)) - tally(d, holds(t)),
{
    let blocks = all_allocated(joined(pool.tensors()));
    let rotations = uploads(pool.rotation_tensors(), rotation_data(tables));
    let codebooks = uploads(pool.codebook_tensors(), codebook_data(tables));
    quantized_pool_times(pool, t);
    held_times(joined(pool.tensors()), t);
    uploaded_times(pool.rotation_tensors(), rotation_data(tables), t);
    uploaded_times(pool.codebook_tensors(), codebook_data(tables), t);
    held_times(pool.all_tensors(), t);
    tally_add(a, blocks, holds(t));
    tally_add(a + blocks, rotations, holds(t));
    tally_add(a + blocks + rotations, codebooks, holds(t));
    tally_add(c, all_done(frees(pool.all_tensors())), holds(t));
}

/// Destroying a quantized cache frees just the tensors that its creation allocated: `a` to
/// `b` is the creation, `c` to `d` the destruction.
pub proof fn quantized_caches_free_what_they_allocate(
    cache: QuantizedKvCacheManager,
    num_blocks: usize,
    num_layers: usize,
    num_kv_heads: usize,
    head_dim: usize,
    max_compress_tokens: usize,
    config: TurboQuantConfig,
    tables: QuantTables,
    a: Seq<DeviceEvent>,
    b: Seq<DeviceEvent>,
    c: Seq<DeviceEvent>,
    d: Seq<DeviceEvent>,
    t: TensorInfo,
)
    requires
        QuantizedKvCacheManager::created(
            num_blocks,
            num_layers,
            num_kv_heads,
            head_dim,
            max_compress_tokens,
            config,
            tables,
            a,
            b,
            Ok(cache),
        ),
        ran(
            c,
            d,
            all_done(frees(cache.scratch_tensors())) + all_done(
                frees(cache.blocks().all_tensors()),
            ),
            None::<FractureError>,
        ),
    ensures
        tally(b, holds(t)) - tally(a, holds(t)) == tally(c, holds(t)) - tally(d, holds(t)),
{
    let pool = cache.blocks();
    let scratch = cache.scratch_tensors();
    let middle = choose|middle: Seq<DeviceEvent>|
        b == #[trigger] (middle + all_allocated(scratch)) && QuantizedBlockPool::created(
            num_blocks,
            num_layers,
            num_kv_heads,
            head_dim,
            config,
            tables,
            a,
            middle,
            Ok(pool),
        );
    let first = c + all_done(frees(scratch));
    let rest = all_done(frees(pool.all_tensors()));
    assert(d =~= first + rest);
    quantized_pools_free_what_they_allocate(
        pool,
        num_blocks,
        num_layers,
        num_kv_heads,
        head_dim,
        config,
        tables,
        a,
        middle,
        first,
        d,
        t,
    );
    held_times(scratch, t);
    tally_add(middle, all_allocated(scratch), holds(t));
    tally_add(c, all_done(frees(scratch)), holds(t));
}

/// Appending to a known sequence for which there are blocks fails only where the device
/// does, with the device's error: where every call succeeds, so does the append.
pub proof fn quantized_appends_fail_only_with_the_device(
    cache: QuantizedKvCacheManager,
    after: QuantizedKvCacheManager,
    handle: CacheHandle,
    layer: usize,
    keys: TensorInfo,
    values: TensorInfo,
    trace_before: Seq<DeviceEvent>,
    trace_after: Seq<DeviceEvent>,
    res: Result<()>,
)
    requires
        cache.appended(after, handle, layer, keys, values, trace_before, trace_after, res),
        cache.sequences().contains_key(handle.0),
        cache.model().has_room(handle, layer as int, keys.shape[0] as int),
    ensures
        res matches Err(e) ==> failed_with(trace_before, trace_after, e),
{
    if let Err(e) = res {
        let compress = all_done(cache.compress_calls(layer as int, keys, values));
        if ran(trace_before, trace_after, compress, Some(e)) {
            programs_fail_with_the_device(trace_before, trace_after, compress, e);
        } else {
            let n = keys.shape[0] as int;
            let s = cache.model().append(handle, layer as int, n).seqs[handle.0];
            let writes = all_done(
                packed_calls(
                    cache.blocks().tensors(),
                    cache.scratch_tensors(),
                    s.table,
                    layer as int,
                    chunks_from(s.len - n, n, 0),
                ),
            );
            programs_fail_with_the_device(trace_before + compress, trace_after, writes, e);
        }
    }
}

/// A sequence that is added has a handle that no sequence has, no tokens, and one block that
/// no other sequence holds; one block fewer is free. Where no block is free nothing is
/// added. The other sequences are unchanged either way.
pub proof fn added_sequences_are_empty(
    before: CacheState,
    after: CacheState,
    exhausted: FractureError,
    res: Result<CacheHandle>,
    size: usize,
)
    requires
        before.in_order(size),
        sequence_added(before, after, exhausted, res),
    ensures
        ({
            let old_seqs = before.model.seqs;
            let seqs = after.model.seqs;
            let f = before.model.free.len();
            if f > 0 {
                &&& res matches Ok(h) && h.0 == before.next
                &&& !old_seqs.contains_key(before.next)
                &&& seqs.contains_key(before.next)
                &&& seqs[before.next].len == 0
                &&& seqs[before.next].last_fill == 0
                &&& seqs[before.next].table.len() == 1
                &&& forall|id: u64, i: int| #[trigger]
                    has_slot(old_seqs, id, i) ==> slot(old_seqs, id, i)
                        != seqs[before.next].table[0]
                &&& seqs.remove(before.next) == old_seqs
                &&& after.model.free.len() == f - 1
            } else {
                &&& res == Err::<CacheHandle, FractureError>(exhausted)
                &&& after.model.free.len() == 0
                &&& seqs == old_seqs
            }
        }),
{
    let m = before.model;
    if m.free.len() > 0 {
        assert(after.model.seqs.remove(before.next) =~= m.seqs);
        assert(m.free.contains(m.free.last()));
    }
}

/// The states of a cache between calls. A call either adds a sequence and gives `results`,
/// or leaves the next handle as it was.
pub open spec fn cache_history(
    states: Seq<CacheState>,
    results: Seq<Option<Result<CacheHandle>>>,
    exhausted: FractureError,
) -> bool {
    &&& states.len() == results.len() + 1
    &&& forall|i: int|
        0 <= i < results.len() ==> match #[trigger] results[i] {
            Some(r) => sequence_added(states[i], states[i + 1], exhausted, r),
            None => states[i + 1].next == states[i].next,
        }
}

proof fn next_handles_ascend(
    states: Seq<CacheState>,
    results: Seq<Option<Result<CacheHandle>>>,
    exhausted: FractureError,
    i: int,
    j: int,
)
    requires
        cache_history(states, results, exhausted),
        0 <= i <= j < states.len(),
    ensures
        states[i].next <= states[j].next,
        i < j && results[i] is Some ==> states[i].next < states[j].next,
    decreases j - i,
{
    if i < j {
        let r = results[i];
        next_handles_ascend(states, results, exhausted, i + 1, j);
    }
}

/// No handle is given twice, whatever becomes of the sequences: of two that were given, the
/// later one is larger.
pub proof fn handles_are_never_reused(
    states: Seq<CacheState>,
    results: Seq<Option<Result<CacheHandle>>>,
    exhausted: FractureError,
    i: int,
    j: int,
)
    requires
        cache_history(states, results, exhausted),
        0 <= i < j < results.len(),
        results[i] matches Some(Ok(_)),
        results[j] matches Some(Ok(_)),
    ensures
        results[i]->0->Ok_0.0 < results[j]->0->Ok_0.0,
{
    next_handles_ascend(states, results, exhausted, i, j);
}

} // verus!

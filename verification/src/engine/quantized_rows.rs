//! What a quantized cache holds of a sequence: each row compressed, in its place.
use crate::base::backend::{DeviceCall, DeviceEvent};
use crate::base::dataflow::{
    after_allocations, after_call, after_calls, after_calls_add, after_done, after_events,
    after_events_add, changes_only, ids, operand, row_shape, with_rows, Kernels, Memory, Operand,
    Rows,
};
use crate::base::numeric::encoded;
use crate::base::program::{all_allocated, all_done, joined, upload_events, uploads};
use crate::base::tensor::{TensorId, TensorInfo};
use crate::base::turboquant::TurboQuantConfig;
use crate::engine::block_rows::{
    block_tensor, pool_is_apart, pool_memory, row_at, row_is_written, table_is_sound,
};
use crate::engine::block_table::{chunks_from, Chunk};
use crate::engine::kv_cache::CacheHandle;
use crate::engine::model::after_push;
use crate::engine::model_laws::after_one;
use crate::engine::quantized_paged_kv_cache::{
    packed_calls, packed_chunk_calls, QuantizedKvCacheManager,
};
use crate::engine::quantized_pool::{
    codebook_bits, codebook_data, rotation_data, tables_match, QuantTables, QuantizedBlockPool,
};
use vstd::prelude::*;

verus! {

proof fn packed_calls_add(
    tensors: Seq<Seq<TensorInfo>>,
    scratch: Seq<TensorInfo>,
    table: Seq<usize>,
    layer: int,
    a: Seq<Chunk>,
    b: Seq<Chunk>,
)
    ensures
        packed_calls(tensors, scratch, table, layer, a + b) == packed_calls(
            tensors,
            scratch,
            table,
            layer,
            a,
        ) + packed_calls(tensors, scratch, table, layer, b),
    decreases b.len(),
{
    if b.len() == 0 {
        assert(a + b =~= a);
    } else {
        packed_calls_add(tensors, scratch, table, layer, a, b.drop_last());
        assert((a + b).drop_last() =~= a + b.drop_last());
    }
    assert(packed_calls(tensors, scratch, table, layer, a + b) =~= packed_calls(
        tensors,
        scratch,
        table,
        layer,
        a,
    ) + packed_calls(tensors, scratch, table, layer, b));
}

/// The four scratch tensors have memory of their own, apart from the pool.
pub open spec fn scratch_is_apart(
    scratch: Seq<TensorInfo>,
    tensors: Seq<Seq<TensorInfo>>,
) -> bool {
    &&& scratch.len() == 4
    &&& ids(scratch).no_duplicates()
    &&& forall|i: int| 0 <= i < 4 ==> !pool_memory(tensors).contains((#[trigger] scratch[i]).id)
}

/// Tokens `from..to` of a batch that follows `start` others lie at their positions in the four
/// tensors of a layer, and nothing else of the sequence differs.
pub open spec fn rows_are_packed<R>(
    before: Memory<R>,
    after: Memory<R>,
    tensors: Seq<Seq<TensorInfo>>,
    scratch: Seq<TensorInfo>,
    table: Seq<usize>,
    layer: int,
    start: int,
    from: int,
    to: int,
) -> bool {
    &&& forall|i: int, p: int|
        0 <= i < 4 && 0 <= p < 16 * table.len() ==> #[trigger] row_is_written(
            before,
            after,
            tensors,
            table,
            4 * layer + i,
            scratch[i].id,
            start,
            from,
            to,
            p,
        )
    &&& changes_only(before, after, quantized_memory(tensors, table, layer))
}

/// The memory that a layer of a sequence has in its blocks.
pub open spec fn quantized_memory(
    tensors: Seq<Seq<TensorInfo>>,
    table: Seq<usize>,
    layer: int,
) -> Set<TensorId> {
    Set::new(
        |id: TensorId|
            exists|x: int, i: int|
                0 <= x < table.len() && 0 <= i < 4 && #[trigger] block_tensor(
                    tensors,
                    table[x] as int,
                    4 * layer + i,
                ) == id,
    )
}

/// One chunk is written to its positions.
proof fn chunk_is_packed<R>(
    k: Kernels<R>,
    mem: Memory<R>,
    tensors: Seq<Seq<TensorInfo>>,
    layers: int,
    scratch: Seq<TensorInfo>,
    table: Seq<usize>,
    layer: int,
    start: int,
    c: Chunk,
)
    requires
        0 <= layer < layers,
        pool_is_apart(tensors, 2 * layers),
        scratch_is_apart(scratch, tensors),
        table_is_sound(tensors, table),
        0 <= start,
        c.block_index < table.len(),
        start + c.written == 16 * c.block_index + c.offset,
        c.offset + c.count <= 16,
    ensures
        rows_are_packed(
            mem,
            after_calls(k, mem, packed_chunk_calls(tensors, scratch, table, layer, c)),
            tensors,
            scratch,
            table,
            layer,
            start,
            c.written as int,
            c.written + c.count,
        ),
{
    let calls = packed_chunk_calls(tensors, scratch, table, layer, c);
    let e = Seq::<DeviceCall>::empty();
    after_push(k, mem, e, calls[0]);
    after_push(k, mem, e.push(calls[0]), calls[1]);
    after_push(k, mem, e.push(calls[0]).push(calls[1]), calls[2]);
    after_push(k, mem, e.push(calls[0]).push(calls[1]).push(calls[2]), calls[3]);
    assert(e.push(calls[0]).push(calls[1]).push(calls[2]).push(calls[3]) =~= calls);
    let block = table[c.block_index as int] as int;
    assert(tensors[block].len() >= 4 * layers);
    let m = after_calls(k, mem, calls);
    assert forall|i: int| 0 <= i < 4 implies pool_memory(tensors).contains(
        #[trigger] block_tensor(tensors, block, 4 * layer + i),
    ) by {}
    assert forall|i: int, j: int| 0 <= i < 4 && 0 <= j < 4 && i != j implies #[trigger]
        block_tensor(tensors, block, 4 * layer + i) != #[trigger] block_tensor(
        tensors,
        block,
        4 * layer + j,
    ) by {}
    let t0 = block_tensor(tensors, block, 4 * layer + 0);
    let t1 = block_tensor(tensors, block, 4 * layer + 1);
    let t2 = block_tensor(tensors, block, 4 * layer + 2);
    let t3 = block_tensor(tensors, block, 4 * layer + 3);
    assert(!pool_memory(tensors).contains(scratch[0].id));
    assert(!pool_memory(tensors).contains(scratch[1].id));
    assert(!pool_memory(tensors).contains(scratch[2].id));
    assert(!pool_memory(tensors).contains(scratch[3].id));
    let m0 = after_call(k, mem, calls[0]);
    let m1 = after_call(k, m0, calls[1]);
    let m2 = after_call(k, m1, calls[2]);
    assert(m == after_call(k, m2, calls[3]));
    assert forall|i: int| 0 <= i < 4 implies m[#[trigger] block_tensor(
        tensors,
        block,
        4 * layer + i,
    )] == with_rows(
        mem[block_tensor(tensors, block, 4 * layer + i)],
        c.offset as int,
        mem[scratch[i].id],
        c.written as int,
        c.count as int,
    ) by {
        if i == 0 {
            assert(m0[t0] == with_rows(
                mem[t0],
                c.offset as int,
                mem[scratch[0].id],
                c.written as int,
                c.count as int,
            ));
        } else if i == 1 {
            assert(m1[t1] == with_rows(
                mem[t1],
                c.offset as int,
                mem[scratch[1].id],
                c.written as int,
                c.count as int,
            ));
        } else if i == 2 {
            assert(m2[t2] == with_rows(
                mem[t2],
                c.offset as int,
                mem[scratch[2].id],
                c.written as int,
                c.count as int,
            ));
        } else {
            assert(m[t3] == with_rows(
                mem[t3],
                c.offset as int,
                mem[scratch[3].id],
                c.written as int,
                c.count as int,
            ));
        }
    }
    assert forall|id: TensorId| id != t0 && id != t1 && id != t2 && id != t3 implies #[trigger]
        m[id] == mem[id] by {}
    assert forall|i: int, p: int|
        0 <= i < 4 && 0 <= p < 16 * table.len() implies #[trigger] row_is_written(
        mem,
        m,
        tensors,
        table,
        4 * layer + i,
        scratch[i].id,
        start,
        c.written as int,
        c.written + c.count,
        p,
    ) by {
        let b = table[p / 16] as int;
        assert(0 <= p / 16 < table.len());
        assert(b < tensors.len());
        let own = block_tensor(tensors, b, 4 * layer + i);
        if p / 16 == c.block_index {
            assert(p == 16 * c.block_index + p % 16);
            assert(b == block);
        } else {
            assert(b != block);
            assert(own != t0 && own != t1 && own != t2 && own != t3);
        }
    }
    let own = quantized_memory(tensors, table, layer);
    assert(own.contains(t0) && own.contains(t1) && own.contains(t2) && own.contains(t3)) by {
        let x = c.block_index as int;
        assert(block_tensor(tensors, table[x] as int, 4 * layer + 0) == t0);
        assert(block_tensor(tensors, table[x] as int, 4 * layer + 1) == t1);
        assert(block_tensor(tensors, table[x] as int, 4 * layer + 2) == t2);
        assert(block_tensor(tensors, table[x] as int, 4 * layer + 3) == t3);
    }
}

/// The blocks of a sequence lie in the pool.
proof fn quantized_memory_in_pool(
    tensors: Seq<Seq<TensorInfo>>,
    layers: int,
    table: Seq<usize>,
    layer: int,
)
    requires
        0 <= layer < layers,
        pool_is_apart(tensors, 2 * layers),
        table_is_sound(tensors, table),
    ensures
        quantized_memory(tensors, table, layer).subset_of(pool_memory(tensors)),
{
    assert forall|id: TensorId| quantized_memory(tensors, table, layer).contains(
        id,
    ) implies pool_memory(tensors).contains(id) by {
        let (x, i) = choose|x: int, i: int|
            0 <= x < table.len() && 0 <= i < 4 && #[trigger] block_tensor(
                tensors,
                table[x] as int,
                4 * layer + i,
            ) == id;
        assert(table[x] < tensors.len());
        assert(tensors[table[x] as int].len() >= 4 * layers);
    }
}

/// All chunks are written to their positions.
proof fn chunks_are_packed<R>(
    k: Kernels<R>,
    mem: Memory<R>,
    tensors: Seq<Seq<TensorInfo>>,
    layers: int,
    scratch: Seq<TensorInfo>,
    table: Seq<usize>,
    layer: int,
    start: int,
    n: int,
    written: int,
)
    requires
        0 <= layer < layers,
        pool_is_apart(tensors, 2 * layers),
        scratch_is_apart(scratch, tensors),
        table_is_sound(tensors, table),
        0 <= start,
        0 <= written <= n,
        start + n <= usize::MAX,
        start + n <= 16 * table.len(),
    ensures
        rows_are_packed(
            mem,
            after_calls(
                k,
                mem,
                packed_calls(tensors, scratch, table, layer, chunks_from(start, n, written)),
            ),
            tensors,
            scratch,
            table,
            layer,
            start,
            written,
            n,
        ),
    decreases n - written,
{
    let cs = chunks_from(start, n, written);
    if written < n {
        let c = cs[0];
        let rest = chunks_from(start, n, written + c.count);
        assert(cs =~= seq![c] + rest);
        packed_calls_add(tensors, scratch, table, layer, seq![c], rest);
        let one = packed_chunk_calls(tensors, scratch, table, layer, c);
        assert(packed_calls(tensors, scratch, table, layer, seq![c]) =~= one) by {
            reveal_with_fuel(packed_calls, 2);
            assert(seq![c].drop_last() =~= Seq::<Chunk>::empty());
        }
        let others = packed_calls(tensors, scratch, table, layer, rest);
        after_calls_add(k, mem, one, others);
        let m1 = after_calls(k, mem, one);
        let m = after_calls(k, m1, others);
        chunk_is_packed(k, mem, tensors, layers, scratch, table, layer, start, c);
        chunks_are_packed(
            k,
            m1,
            tensors,
            layers,
            scratch,
            table,
            layer,
            start,
            n,
            written + c.count,
        );
        quantized_memory_in_pool(tensors, layers, table, layer);
        assert forall|i: int, p: int|
            0 <= i < 4 && 0 <= p < 16 * table.len() implies #[trigger] row_is_written(
            mem,
            m,
            tensors,
            table,
            4 * layer + i,
            scratch[i].id,
            start,
            written,
            n,
            p,
        ) by {
            assert(m1[scratch[i].id] == mem[scratch[i].id]);
            assert(row_is_written(
                mem,
                m1,
                tensors,
                table,
                4 * layer + i,
                scratch[i].id,
                start,
                c.written as int,
                c.written + c.count,
                p,
            ));
            assert(row_is_written(
                m1,
                m,
                tensors,
                table,
                4 * layer + i,
                scratch[i].id,
                start,
                written + c.count,
                n,
                p,
            ));
        }
    } else {
        assert(cs =~= Seq::empty());
    }
}

/// The packed indices of compressed rows.
pub open spec fn packed_rows<R>(
    k: Kernels<R>,
    rows: Rows<R>,
    shape: Seq<usize>,
    rotation: Operand<R>,
    centroids: Operand<R>,
    bits: u8,
) -> Rows<R> {
    |r: int| (k.packed)(rows(r), shape, rotation, centroids, bits)
}

/// The norms of compressed rows.
pub open spec fn norm_rows<R>(
    k: Kernels<R>,
    rows: Rows<R>,
    shape: Seq<usize>,
    rotation: Operand<R>,
    centroids: Operand<R>,
    bits: u8,
) -> Rows<R> {
    |r: int| (k.norms)(rows(r), shape, rotation, centroids, bits)
}

/// What compression gives in each of the four tensors of a layer: packed keys, norms of keys,
/// packed values, norms of values, each with the rotation and the bit width of its layer, and
/// the codebook of that width.
pub open spec fn compressed<R>(
    k: Kernels<R>,
    mem: Memory<R>,
    pool: QuantizedBlockPool,
    layer: int,
    keys: TensorInfo,
    values: TensorInfo,
    i: int,
) -> Rows<R> {
    let key_bits = pool.key_widths()[layer];
    let value_bits = pool.value_widths()[layer];
    let key_rotation = operand(mem, pool.rotation_tensors()[2 * layer]);
    let value_rotation = operand(mem, pool.rotation_tensors()[2 * layer + 1]);
    let key_table = operand(mem, pool.codebook_for(key_bits));
    let value_table = operand(mem, pool.codebook_for(value_bits));
    let key_shape = row_shape(keys.shape);
    let value_shape = row_shape(values.shape);
    if i == 0 {
        packed_rows(k, mem[keys.id], key_shape, key_rotation, key_table, key_bits)
    } else if i == 1 {
        norm_rows(k, mem[keys.id], key_shape, key_rotation, key_table, key_bits)
    } else if i == 2 {
        packed_rows(k, mem[values.id], value_shape, value_rotation, value_table, value_bits)
    } else {
        norm_rows(k, mem[values.id], value_shape, value_rotation, value_table, value_bits)
    }
}

/// What compression reads lies apart from what it writes.
pub open spec fn inputs_are_apart(
    c: QuantizedKvCacheManager,
    layer: int,
    keys: TensorInfo,
    values: TensorInfo,
) -> bool {
    let pool = c.blocks();
    let own = ids(c.scratch_tensors()).to_set();
    &&& !own.contains(keys.id)
    &&& !own.contains(values.id)
    &&& !own.contains(pool.rotation_tensors()[2 * layer].id)
    &&& !own.contains(pool.rotation_tensors()[2 * layer + 1].id)
    &&& !own.contains(pool.codebook_for(pool.key_widths()[layer]).id)
    &&& !own.contains(pool.codebook_for(pool.value_widths()[layer]).id)
}

/// Compression fills the scratch tensors, and changes nothing else.
proof fn compression_fills_scratch<R>(
    k: Kernels<R>,
    mem: Memory<R>,
    c: QuantizedKvCacheManager,
    layer: int,
    keys: TensorInfo,
    values: TensorInfo,
)
    requires
        scratch_is_apart(c.scratch_tensors(), c.blocks().tensors()),
        inputs_are_apart(c, layer, keys, values),
    ensures
        ({
            let m = after_calls(k, mem, c.compress_calls(layer, keys, values));
            &&& forall|i: int|
                0 <= i < 4 ==> m[(#[trigger] c.scratch_tensors()[i]).id] == compressed(
                    k,
                    mem,
                    c.blocks(),
                    layer,
                    keys,
                    values,
                    i,
                )
            &&& changes_only(mem, m, ids(c.scratch_tensors()).to_set())
        }),
{
    let calls = c.compress_calls(layer, keys, values);
    let e = Seq::<DeviceCall>::empty();
    after_push(k, mem, e, calls[0]);
    after_push(k, mem, e.push(calls[0]), calls[1]);
    assert(e.push(calls[0]).push(calls[1]) =~= calls);
    let s = c.scratch_tensors();
    let l = ids(s);
    assert(l[0] == s[0].id && l[1] == s[1].id && l[2] == s[2].id && l[3] == s[3].id);
    assert(l[0] != l[1] && l[0] != l[2] && l[0] != l[3] && l[1] != l[2] && l[1] != l[3] && l[2]
        != l[3]);
    assert(l.contains(l[0]) && l.contains(l[1]) && l.contains(l[2]) && l.contains(l[3]));
    let m0 = after_call(k, mem, calls[0]);
    let m = after_call(k, m0, calls[1]);
    let pool = c.blocks();
    assert(m0[values.id] == mem[values.id]);
    assert(m[s[0].id] == compressed(k, mem, pool, layer, keys, values, 0));
    assert(m[s[1].id] == compressed(k, mem, pool, layer, keys, values, 1));
    assert(m[s[2].id] == compressed(k, mem, pool, layer, keys, values, 2));
    assert(m[s[3].id] == compressed(k, mem, pool, layer, keys, values, 3));
}

/// Appending to a quantized cache puts the new keys and values, compressed, behind those that
/// are there, in order: position `start + r` of the sequence then holds the compressed row `r`,
/// and every position before holds what it held.
pub proof fn quantized_appends_follow_the_others<R>(
    k: Kernels<R>,
    mem: Memory<R>,
    c: QuantizedKvCacheManager,
    after: QuantizedKvCacheManager,
    handle: CacheHandle,
    layer: usize,
    keys: TensorInfo,
    values: TensorInfo,
    before_trace: Seq<DeviceEvent>,
    after_trace: Seq<DeviceEvent>,
    i: int,
    p: int,
)
    requires
        c.appended(after, handle, layer, keys, values, before_trace, after_trace, Ok(())),
        c.sequences().contains_key(handle.0),
        layer < c.blocks().layers(),
        pool_is_apart(c.blocks().tensors(), 2 * c.blocks().layers() as int),
        scratch_is_apart(c.scratch_tensors(), c.blocks().tensors()),
        inputs_are_apart(c, layer as int, keys, values),
        table_is_sound(c.blocks().tensors(), after.sequences()[handle.0].table),
        keys.shape[0] <= after.sequences()[handle.0].len,
        after.sequences()[handle.0].len <= 16 * after.sequences()[handle.0].table.len(),
        0 <= i < 4,
        0 <= p < after.sequences()[handle.0].len,
    ensures
        ({
            let t = after.sequences()[handle.0];
            let start = t.len - keys.shape[0];
            let m = after_events(k, mem, after_trace.skip(before_trace.len() as int));
            let tensors = c.blocks().tensors();
            let at = 4 * layer + i;
            row_at(m, tensors, t.table, at, p) == if p < start {
                row_at(mem, tensors, t.table, at, p)
            } else {
                compressed(k, mem, c.blocks(), layer as int, keys, values, i)(p - start)
            }
        }),
{
    let n = keys.shape[0] as int;
    let t = after.sequences()[handle.0];
    let start = t.len - n;
    let tensors = c.blocks().tensors();
    let layers = c.blocks().layers() as int;
    let scratch = c.scratch_tensors();
    let compress = c.compress_calls(layer as int, keys, values);
    let pack = packed_calls(tensors, scratch, t.table, layer as int, chunks_from(start, n, 0));
    assert(after.model().seqs[handle.0] == t);
    assert(after_trace =~= before_trace + all_done(compress) + all_done(pack));
    let events = after_trace.skip(before_trace.len() as int);
    assert(events =~= all_done(compress) + all_done(pack));
    after_events_add(k, mem, all_done(compress), all_done(pack));
    after_done(k, mem, compress);
    let m1 = after_calls(k, mem, compress);
    after_done(k, m1, pack);
    let m = after_calls(k, m1, pack);
    compression_fills_scratch(k, mem, c, layer as int, keys, values);
    chunks_are_packed(k, m1, tensors, layers, scratch, t.table, layer as int, start, n, 0);
    assert(row_is_written(
        m1,
        m,
        tensors,
        t.table,
        4 * layer + i,
        scratch[i].id,
        start,
        0,
        n,
        p,
    ));
    assert(0 <= p / 16 < t.table.len());
    let b = t.table[p / 16] as int;
    assert(b < tensors.len());
    assert(tensors[b].len() >= 4 * layers);
    let id = block_tensor(tensors, b, 4 * layer + i);
    assert(pool_memory(tensors).contains(id));
    assert(!ids(scratch).contains(id)) by {
        if ids(scratch).contains(id) {
            let x = ids(scratch).index_of(id);
            assert(scratch[x].id == id);
        }
    }
    assert(m1[id] == mem[id]);
}

/// Uploads put each piece of data into its tensor.
proof fn uploads_load<R>(
    k: Kernels<R>,
    mem: Memory<R>,
    ts: Seq<TensorInfo>,
    data: Seq<Seq<u8>>,
    i: int,
)
    requires
        ids(ts).no_duplicates(),
        0 <= i < ts.len(),
    ensures
        after_events(k, mem, uploads(ts, data))[ts[i].id] == (k.loaded)(data[i], ts[i].shape),
    decreases ts.len(),
{
    let rest = ts.drop_last();
    let last = ts.last();
    let x = ts.len() - 1;
    let events = upload_events(last, data[x]);
    after_events_add(k, mem, uploads(rest, data), events);
    let m = after_events(k, mem, uploads(rest, data));
    assert(events =~= seq![events[0]] + seq![events[1]]);
    after_events_add(k, m, seq![events[0]], seq![events[1]]);
    after_one(k, m, events[0]);
    after_one(k, m, events[1]);
    if i < x {
        assert(ids(rest) =~= ids(ts).drop_last());
        uploads_load(k, mem, rest, data, i);
        assert(ids(ts)[i] == ts[i].id && ids(ts)[x] == last.id);
    }
}

/// The keys and the values of each layer have the rotation that was made for them.
pub proof fn layers_have_their_rotations<R>(
    k: Kernels<R>,
    mem: Memory<R>,
    ts: Seq<TensorInfo>,
    tables: QuantTables,
    layer: int,
)
    requires
        ids(ts).no_duplicates(),
        ts.len() == 2 * tables.k_rotations@.len(),
        0 <= layer < tables.k_rotations@.len(),
    ensures
        ({
            let m = after_events(k, mem, uploads(ts, rotation_data(tables)));
            &&& m[ts[2 * layer].id] == (k.loaded)(
                encoded(tables.k_rotations@[layer]@),
                ts[2 * layer].shape,
            )
            &&& m[ts[2 * layer + 1].id] == (k.loaded)(
                encoded(tables.v_rotations@[layer]@),
                ts[2 * layer + 1].shape,
            )
        }),
{
    uploads_load(k, mem, ts, rotation_data(tables), 2 * layer);
    uploads_load(k, mem, ts, rotation_data(tables), 2 * layer + 1);
}

/// Uploads change no tensor but those that they fill.
proof fn uploads_change_own<R>(
    k: Kernels<R>,
    mem: Memory<R>,
    ts: Seq<TensorInfo>,
    data: Seq<Seq<u8>>,
    id: TensorId,
)
    requires
        !ids(ts).contains(id),
    ensures
        after_events(k, mem, uploads(ts, data))[id] == mem[id],
    decreases ts.len(),
{
    if ts.len() > 0 {
        let rest = ts.drop_last();
        let last = ts.last();
        let x = ts.len() - 1;
        let events = upload_events(last, data[x]);
        assert(ids(rest) =~= ids(ts).drop_last());
        assert(ids(ts)[x] == last.id);
        assert(!ids(rest).contains(id)) by {
            if ids(rest).contains(id) {
                let y = ids(rest).index_of(id);
                assert(ids(ts)[y] == id);
            }
        }
        uploads_change_own(k, mem, rest, data, id);
        after_events_add(k, mem, uploads(rest, data), events);
        let m = after_events(k, mem, uploads(rest, data));
        assert(events =~= seq![events[0]] + seq![events[1]]);
        after_events_add(k, m, seq![events[0]], seq![events[1]]);
        after_one(k, m, events[0]);
        after_one(k, m, events[1]);
    }
}

/// A pool that was made holds for each layer the rotations of its keys and of its values, and
/// for each bit width the codebook of that width.
pub proof fn pools_hold_their_tables<R>(
    k: Kernels<R>,
    mem: Memory<R>,
    pool: QuantizedBlockPool,
    num_blocks: usize,
    num_layers: usize,
    num_kv_heads: usize,
    head_dim: usize,
    config: TurboQuantConfig,
    tables: QuantTables,
    before: Seq<DeviceEvent>,
    after: Seq<DeviceEvent>,
    layer: int,
    i: int,
)
    requires
        QuantizedBlockPool::created(
            num_blocks,
            num_layers,
            num_kv_heads,
            head_dim,
            config,
            tables,
            before,
            after,
            Ok(pool),
        ),
        tables_match(tables, config, num_layers),
        ids(pool.rotation_tensors() + pool.codebook_tensors()).no_duplicates(),
        0 <= layer < num_layers,
        0 <= i < tables.codebooks@.len(),
    ensures
        ({
            let m = after_events(k, mem, after.skip(before.len() as int));
            let rs = pool.rotation_tensors();
            let table = pool.codebook_for(tables.codebooks@[i].bits);
            &&& m[rs[2 * layer].id] == (k.loaded)(
                encoded(tables.k_rotations@[layer]@),
                seq![head_dim, head_dim],
            )
            &&& m[rs[2 * layer + 1].id] == (k.loaded)(
                encoded(tables.v_rotations@[layer]@),
                seq![head_dim, head_dim],
            )
            &&& m[table.id] == (k.loaded)(encoded(tables.codebooks@[i].centroids@), table.shape)
        }),
{
    let rs = pool.rotation_tensors();
    let cs = pool.codebook_tensors();
    let grants = all_allocated(joined(pool.tensors()));
    let first = uploads(rs, rotation_data(tables));
    let second = uploads(cs, codebook_data(tables));
    assert(after.skip(before.len() as int) =~= grants + first + second);
    after_events_add(k, mem, grants + first, second);
    after_events_add(k, mem, grants, first);
    after_allocations(k, mem, joined(pool.tensors()));
    let all = ids(rs + cs);
    assert forall|x: int| 0 <= x < rs.len() implies all[x] == ids(rs)[x] by {}
    assert forall|x: int| 0 <= x < cs.len() implies all[rs.len() + x] == ids(cs)[x] by {}
    assert(ids(rs).no_duplicates()) by {
        assert forall|x: int, y: int|
            0 <= x < rs.len() && 0 <= y < rs.len() && x != y implies ids(rs)[x] != ids(rs)[y] by {
            assert(all[x] != all[y]);
        }
    }
    assert(ids(cs).no_duplicates()) by {
        assert forall|x: int, y: int|
            0 <= x < cs.len() && 0 <= y < cs.len() && x != y implies ids(cs)[x] != ids(cs)[y] by {
            assert(all[rs.len() + x] != all[rs.len() + y]);
        }
    }
    layers_have_their_rotations(k, mem, rs, tables, layer);
    let m1 = after_events(k, mem, first);
    assert forall|x: int| 0 <= x < rs.len() implies !ids(cs).contains(#[trigger] rs[x].id) by {
        if ids(cs).contains(rs[x].id) {
            let y = ids(cs).index_of(rs[x].id);
            assert(all[x] != all[rs.len() + y]);
        }
    }
    uploads_change_own(k, m1, cs, codebook_data(tables), rs[2 * layer].id);
    uploads_change_own(k, m1, cs, codebook_data(tables), rs[2 * layer + 1].id);
    let bits = codebook_bits(tables);
    let b = tables.codebooks@[i].bits;
    assert(bits[i] == b);
    assert(bits.contains(b));
    bits.index_of_first_ensures(b);
    assert(bits.index_of_first(b)->0 == i);
    assert(pool.codebook_for(b) == cs[i]);
    uploads_load(k, m1, cs, codebook_data(tables), i);
}

} // verus!

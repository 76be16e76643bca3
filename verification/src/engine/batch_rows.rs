//! What a batch does with the rows of each of its sequences.
use crate::base::backend::{allocated, DeviceEvent};
use crate::base::dataflow::{
    after_call, after_calls, after_done, after_events, after_events_add, after_releases,
    changes_only, first, fresh_first, fresh_parts, gives_fresh_memory, in_use, in_use_add,
    row_shape, rows_of, use_stays, with_rows, Kernels, Memory, Rows,
};
use crate::base::model_config::ModelConfig;
use crate::base::program::{all_done, frees, joined};
use crate::base::tensor::{TensorId, TensorInfo};
use crate::engine::batch_layers::{
    appended, attend_events, is_slice, slice_events, store_events, AppendInfo, AttendInfo, Part,
};
use crate::engine::batch_pass::{part_closes, parts_consecutive, Batch};
use crate::engine::block_rows::{
    appends_follow_the_others, attention_gathers, block_tensor, paged, pool_is_apart, pool_memory,
    row_at, table_is_sound, table_memory, table_memory_in_pool,
};
use crate::engine::block_table::{chunks_from, has_slot, partitioned, slot, BlocksInfo};
use crate::engine::model::Past;
use crate::engine::model_laws::{after_one, use_one};
use crate::engine::paged_kv_cache::{write_calls, CacheModel};
use crate::engine::paged_model_laws::{
    holds_tokens, pool_stays, sequences_hold_tokens, writes_keep_use,
};
use crate::engine::transformer::HeadViewsInfo;
use vstd::prelude::*;

verus! {

/// Rows from `offset` on.
pub open spec fn shifted<R>(rows: Rows<R>, offset: int) -> Rows<R> {
    |r: int| rows(offset + r)
}

/// Tensors that are in use are as they were, but for some memory.
pub open spec fn used_stay<R>(
    before: Memory<R>,
    after: Memory<R>,
    used: Set<TensorId>,
    written: Set<TensorId>,
) -> bool {
    forall|id: TensorId|
        used.contains(id) && !written.contains(id) ==> #[trigger] after[id] == before[id]
}

/// The events of two new tensors, and what they leave in use.
proof fn two_tensors(used: Set<TensorId>, a: TensorInfo, b: TensorInfo)
    requires
        gives_fresh_memory(used, seq![allocated(a), allocated(b)]),
    ensures
        !used.contains(a.id),
        !used.contains(b.id),
        a.id != b.id,
        in_use(used, seq![allocated(a), allocated(b)]) == used.insert(a.id).insert(b.id),
{
    let x = seq![allocated(a)];
    let y = seq![allocated(b)];
    assert(seq![allocated(a), allocated(b)] =~= x + y);
    fresh_parts(used, x, y);
    fresh_first(used, x, a);
    use_one(used, x[0]);
    fresh_first(used.insert(a.id), y, b);
    in_use_add(used, x, y);
    use_one(used.insert(a.id), y[0]);
}

/// The release of two tensors.
pub(crate) proof fn two_releases(used: Set<TensorId>, a: TensorInfo, b: TensorInfo)
    ensures
        in_use(used, all_done(frees(seq![a, b]))) == used.remove(a.id).remove(b.id),
{
    let events = all_done(frees(seq![a, b]));
    let x = seq![events[0]];
    let y = seq![events[1]];
    assert(events =~= x + y);
    in_use_add(used, x, y);
    reveal_with_fuel(in_use, 2);
    assert(x.drop_last() =~= Seq::empty());
    assert(y.drop_last() =~= Seq::empty());
}

/// Slicing copies the keys and values of a part out of the batch.
proof fn slicing_copies<R>(
    k: Kernels<R>,
    mem: Memory<R>,
    views: HeadViewsInfo,
    part: Part,
    kt: TensorInfo,
    vt: TensorInfo,
    used: Set<TensorId>,
)
    requires
        used.contains(views.k.id),
        used.contains(views.v.id),
        gives_fresh_memory(used, slice_events(views, part, kt, vt)),
    ensures
        ({
            let m = after_events(k, mem, slice_events(views, part, kt, vt));
            &&& first(m[kt.id], part.n as int) == first(
                shifted(mem[views.k.id], part.offset as int),
                part.n as int,
            )
            &&& first(m[vt.id], part.n as int) == first(
                shifted(mem[views.v.id], part.offset as int),
                part.n as int,
            )
            &&& changes_only(mem, m, set![kt.id, vt.id])
            &&& !used.contains(kt.id)
            &&& !used.contains(vt.id)
            &&& kt.id != vt.id
            &&& in_use(used, slice_events(views, part, kt, vt)) == used.insert(kt.id).insert(
                vt.id,
            )
        }),
{
    let events = slice_events(views, part, kt, vt);
    let grants = seq![allocated(kt), allocated(vt)];
    let copies = seq![events[2], events[3]];
    assert(events =~= grants + copies);
    fresh_parts(used, grants, copies);
    two_tensors(used, kt, vt);
    in_use_add(used, grants, copies);
    use_stays(in_use(used, grants), copies);
    after_events_add(k, mem, grants, copies);
    assert(after_events(k, mem, grants) == mem) by {
        assert(grants =~= seq![grants[0]] + seq![grants[1]]);
        after_events_add(k, mem, seq![grants[0]], seq![grants[1]]);
        after_one(k, mem, grants[0]);
        after_one(k, mem, grants[1]);
    }
    assert(copies =~= seq![copies[0]] + seq![copies[1]]);
    after_events_add(k, mem, seq![copies[0]], seq![copies[1]]);
    after_one(k, mem, copies[0]);
    let m0 = after_call(k, mem, copies[0].call);
    after_one(k, m0, copies[1]);
    let m = after_call(k, m0, copies[1].call);
    let n = part.n as int;
    assert(m[kt.id] == with_rows(mem[kt.id], 0, mem[views.k.id], part.offset as int, n));
    assert(m[vt.id] == with_rows(mem[vt.id], 0, mem[views.v.id], part.offset as int, n));
    assert(first(m[kt.id], n) =~= first(shifted(mem[views.k.id], part.offset as int), n));
    assert(first(m[vt.id], n) =~= first(shifted(mem[views.v.id], part.offset as int), n));
}

/// What a sequence has cached, with the keys and values of a part of the batch behind it.
pub open spec fn with_part<R>(past: Past<R>, keys: Rows<R>, values: Rows<R>, part: Part) -> Past<R> {
    Past {
        keys: past.keys + first(shifted(keys, part.offset as int), part.n as int),
        values: past.values + first(shifted(values, part.offset as int), part.n as int),
    }
}

/// A part is appended to its sequence: the rows that lie behind what was cached are those that
/// the part has in the batch. `t` is the sequence with the new tokens counted in.
proof fn part_is_appended<R>(
    k: Kernels<R>,
    mem: Memory<R>,
    views: HeadViewsInfo,
    tensors: Seq<Seq<TensorInfo>>,
    layers: int,
    t: BlocksInfo,
    layer: int,
    part: Part,
    kt: TensorInfo,
    vt: TensorInfo,
    used: Set<TensorId>,
)
    requires
        0 <= layer < layers,
        pool_is_apart(tensors, layers),
        holds_tokens(tensors, t, part.n as int),
        pool_memory(tensors).subset_of(used),
        used.contains(views.k.id),
        used.contains(views.v.id),
        gives_fresh_memory(
            used,
            slice_events(views, part, kt, vt) + store_events(tensors, t, layer, part, kt, vt),
        ),
    ensures
        ({
            let events = slice_events(views, part, kt, vt) + store_events(
                tensors,
                t,
                layer,
                part,
                kt,
                vt,
            );
            let m = after_events(k, mem, events);
            &&& paged(m, tensors, t.table, layer, t.len as int) == with_part(
                paged(mem, tensors, t.table, layer, t.len - part.n),
                mem[views.k.id],
                mem[views.v.id],
                part,
            )
            &&& used_stay(mem, m, used, table_memory(tensors, t.table, layer))
            &&& in_use(used, events) == used
        }),
{
    let slicing = slice_events(views, part, kt, vt);
    let storing = store_events(tensors, t, layer, part, kt, vt);
    let writes = write_calls(tensors, t, layer, kt, vt, part.n as int);
    let releases = frees(seq![kt, vt]);
    let start = t.len - part.n;
    let n = part.n as int;
    fresh_parts(used, slicing, storing);
    slicing_copies(k, mem, views, part, kt, vt, used);
    let used1 = used.insert(kt.id).insert(vt.id);
    let m1 = after_events(k, mem, slicing);
    after_events_add(k, mem, slicing, storing);
    after_events_add(k, m1, all_done(writes), all_done(releases));
    after_done(k, m1, writes);
    let m2 = after_calls(k, m1, writes);
    after_done(k, m2, releases);
    after_releases(k, m2, seq![kt, vt]);
    appends_follow_the_others(k, m1, tensors, layers, t.table, layer, kt, vt, start, n);
    pool_stays(mem, m1, tensors, layers, t.table, layer, start);
    assert(used_stay(mem, m2, used, table_memory(tensors, t.table, layer)));
    in_use_add(used, slicing, storing);
    in_use_add(used1, all_done(writes), all_done(releases));
    writes_keep_use(tensors, t.table, layer, kt, vt, chunks_from(start, n, 0));
    use_stays(used1, all_done(writes));
    two_releases(used1, kt, vt);
    assert(used1.remove(kt.id).remove(vt.id) =~= used);
}

/// The sequence of part `j`, with the new tokens of the batch counted in.
pub open spec fn part_blocks(b: Batch, j: int) -> BlocksInfo {
    b.grown().seqs[b.parts[j].handle.0]
}

/// The parts of the batch are of different sequences.
pub open spec fn parts_differ(b: Batch) -> bool {
    forall|i: int, j: int|
        0 <= i < b.parts.len() && 0 <= j < b.parts.len() && i != j ==> (
        #[trigger] b.parts[i]).handle.0 != (#[trigger] b.parts[j]).handle.0
}

/// The cache of a batch is in order once all parts are counted in: no block is shared, and every
/// sequence has its tokens in its blocks. The pool has memory of its own, and block numbers that
/// the attention kernel can take.
pub open spec fn batch_is_sound(b: Batch) -> bool {
    &&& b.ready()
    &&& parts_differ(b)
    &&& pool_is_apart(b.tensors, b.layers.len() as int)
    &&& b.tensors.len() <= i32::MAX
    &&& b.layers.len() > 0 ==> partitioned(
        b.grown().seqs,
        b.grown().free,
        b.tensors.len() as usize,
    )
    &&& b.layers.len() > 0 ==> forall|j: int|
        0 <= j < b.parts.len() ==> (#[trigger] part_blocks(b, j)).wf()
}

/// Every part lies within the batch, before those that follow it.
pub(crate) proof fn parts_are_apart(b: Batch, i: int, j: int)
    requires
        parts_consecutive(b.parts, b.total),
        0 <= i <= j < b.parts.len(),
    ensures
        b.parts[j].offset + b.parts[j].n <= b.total,
        i < j ==> b.parts[i].offset + b.parts[i].n <= b.parts[j].offset,
    decreases b.parts.len() - i,
{
    assert(part_closes(b.parts, b.total, i));
    if i < j {
        parts_are_apart(b, i + 1, j);
        assert(part_closes(b.parts, b.total, i));
        assert(i + 1 < j ==> b.parts[i + 1].offset + b.parts[i + 1].n <= b.parts[j].offset);
    } else if j + 1 < b.parts.len() {
        parts_are_apart(b, j + 1, j + 1);
    }
}

/// Counting in other parts leaves a sequence as it is.
proof fn others_keep_sequence(b: Batch, i: int, j: int, id: u64)
    requires
        0 <= i <= j <= b.parts.len(),
        forall|x: int| i <= x < j ==> (#[trigger] b.parts[x]).handle.0 != id,
    ensures
        appended(b.cache, b.parts, 0, j).seqs.contains_key(id) <==> appended(
            b.cache,
            b.parts,
            0,
            i,
        ).seqs.contains_key(id),
        appended(b.cache, b.parts, 0, j).seqs[id] == appended(b.cache, b.parts, 0, i).seqs[id],
    decreases j - i,
{
    if i < j {
        others_keep_sequence(b, i, j - 1, id);
        assert(b.parts[j - 1].handle.0 != id);
    }
}

/// What is known of the sequence of a part once all parts are counted in: it has grown by the
/// part, and its tokens lie in its blocks.
pub(crate) proof fn part_is_counted(b: Batch, j: int)
    requires
        batch_is_sound(b),
        b.layers.len() > 0,
        0 <= j < b.parts.len(),
    ensures
        ({
            let t = part_blocks(b, j);
            let p = b.parts[j];
            let s = b.cache.seqs[p.handle.0];
            &&& t.len == p.start_pos + p.n
            &&& p.start_pos == s.len
            &&& holds_tokens(b.tensors, t, p.n as int)
            &&& appended(b.cache, b.parts, 0, j + 1).seqs[p.handle.0] == t
            &&& t == s.grown(appended(b.cache, b.parts, 0, j).free, p.n as int)
            &&& b.grown().seqs.contains_key(p.handle.0)
        }),
{
    let p = b.parts[j];
    let id = p.handle.0;
    parts_are_apart(b, j, j);
    others_keep_sequence(b, 0, j, id);
    assert(appended(b.cache, b.parts, 0, j + 1).seqs[id] == appended(
        b.cache,
        b.parts,
        0,
        j,
    ).seqs[id].grown(appended(b.cache, b.parts, 0, j).free, p.n as int));
    others_keep_sequence(b, j + 1, b.parts.len() as int, id);
    assert(part_blocks(b, j).wf());
    sequences_hold_tokens(
        b.tensors,
        b.grown().seqs,
        b.grown().free,
        id,
        p.n as int,
    );
}

/// Layers after the first count nothing in.
proof fn later_layers_count_nothing(m: CacheModel, parts: Seq<Part>, layer: int, j: int)
    requires
        layer != 0,
    ensures
        appended(m, parts, layer, j) == m,
    decreases j,
{
    if j > 0 {
        later_layers_count_nothing(m, parts, layer, j - 1);
    }
}

/// The blocks of different parts are different.
pub(crate) proof fn part_blocks_differ(b: Batch, i: int, j: int, layer: int)
    requires
        batch_is_sound(b),
        0 <= i < b.parts.len(),
        0 <= j < b.parts.len(),
        i != j,
        0 <= layer < b.layers.len(),
    ensures
        table_memory(b.tensors, part_blocks(b, i).table, layer).disjoint(
            table_memory(b.tensors, part_blocks(b, j).table, layer),
        ),
{
    let ti = part_blocks(b, i).table;
    let tj = part_blocks(b, j).table;
    let seqs = b.grown().seqs;
    part_is_counted(b, i);
    part_is_counted(b, j);
    assert forall|id: TensorId|
        table_memory(b.tensors, ti, layer).contains(id) && table_memory(
            b.tensors,
            tj,
            layer,
        ).contains(id) implies false by {
        let x = choose|x: int|
            #![trigger ti[x]]
            0 <= x < ti.len() && (block_tensor(b.tensors, ti[x] as int, 2 * layer) == id
                || block_tensor(b.tensors, ti[x] as int, 2 * layer + 1) == id);
        let y = choose|y: int|
            #![trigger tj[y]]
            0 <= y < tj.len() && (block_tensor(b.tensors, tj[y] as int, 2 * layer) == id
                || block_tensor(b.tensors, tj[y] as int, 2 * layer + 1) == id);
        assert(ti[x] < b.tensors.len() && tj[y] < b.tensors.len());
        assert(ti[x] == tj[y]);
        assert(b.parts[i].handle.0 != b.parts[j].handle.0);
        assert(has_slot(seqs, b.parts[i].handle.0, x));
        assert(has_slot(seqs, b.parts[j].handle.0, y));
        assert(slot(seqs, b.parts[i].handle.0, x) == slot(seqs, b.parts[j].handle.0, y));
    }
}

/// Rows of a sequence stay where its blocks do.
pub(crate) proof fn table_stays<R>(
    before: Memory<R>,
    after: Memory<R>,
    tensors: Seq<Seq<TensorInfo>>,
    layers: int,
    table: Seq<usize>,
    layer: int,
    n: int,
)
    requires
        pool_is_apart(tensors, layers),
        table_is_sound(tensors, table),
        0 <= layer < layers,
        0 <= n <= 16 * table.len(),
        forall|id: TensorId|
            table_memory(tensors, table, layer).contains(id) ==> #[trigger] after[id]
                == before[id],
    ensures
        paged(after, tensors, table, layer, n) == paged(before, tensors, table, layer, n),
{
    assert forall|at: int, p: int|
        (at == 2 * layer || at == 2 * layer + 1) && 0 <= p < n implies #[trigger] row_at(
        after,
        tensors,
        table,
        at,
        p,
    ) == row_at(before, tensors, table, at, p) by {
        assert(0 <= p / 16 < table.len());
        let b = table[p / 16] as int;
        assert(table_memory(tensors, table, layer).contains(block_tensor(tensors, b, at)));
    }
    assert(paged(after, tensors, table, layer, n).keys =~= paged(
        before,
        tensors,
        table,
        layer,
        n,
    ).keys);
    assert(paged(after, tensors, table, layer, n).values =~= paged(
        before,
        tensors,
        table,
        layer,
        n,
    ).values);
}

/// The memory that a layer has in the blocks of all parts.
pub open spec fn parts_memory(b: Batch, layer: int) -> Set<TensorId> {
    Set::new(
        |id: TensorId|
            exists|j: int|
                0 <= j < b.parts.len() && table_memory(
                    b.tensors,
                    (#[trigger] part_blocks(b, j)).table,
                    layer,
                ).contains(id),
    )
}

/// What is cached of part `j` before the batch.
pub open spec fn part_past<R>(mem: Memory<R>, b: Batch, layer: int, j: int) -> Past<R> {
    let t = part_blocks(b, j);
    paged(mem, b.tensors, t.table, layer, t.len - b.parts[j].n)
}

/// What is cached of part `j` with the tokens of the batch.
pub open spec fn part_cached<R>(mem: Memory<R>, b: Batch, layer: int, j: int) -> Past<R> {
    let t = part_blocks(b, j);
    paged(mem, b.tensors, t.table, layer, t.len as int)
}

/// The events that append the first `j` parts.
pub open spec fn appending(
    a: AppendInfo,
    ks: Seq<TensorInfo>,
    vs: Seq<TensorInfo>,
    j: int,
) -> Seq<DeviceEvent>
    decreases j,
{
    if j <= 0 {
        Seq::empty()
    } else {
        appending(a, ks, vs, j - 1) + (a.slicing(ks, vs, j - 1) + a.storing(ks, vs, j))
    }
}

/// The stages of appending are the parts, one after the other.
proof fn stages_append(a: AppendInfo, ks: Seq<TensorInfo>, vs: Seq<TensorInfo>, j: int)
    requires
        0 <= j <= a.parts.len(),
    ensures
        joined(a.stages(ks, vs).take(j + 1)) == appending(a, ks, vs, j) + a.slicing(ks, vs, j),
    decreases j,
{
    let stages = a.stages(ks, vs);
    assert(stages.take(j + 1).drop_last() =~= stages.take(j));
    assert(stages.take(j + 1).last() == a.storing(ks, vs, j) + a.slicing(ks, vs, j));
    let none = Seq::<DeviceEvent>::empty();
    if j == 0 {
        assert(stages.take(0) =~= Seq::<Seq<DeviceEvent>>::empty());
        assert(joined(stages.take(0)) == none);
        assert(none + (none + a.slicing(ks, vs, 0)) =~= none + a.slicing(ks, vs, 0));
    } else {
        stages_append(a, ks, vs, j - 1);
        let so_far = appending(a, ks, vs, j - 1);
        let x = a.slicing(ks, vs, j - 1);
        let y = a.storing(ks, vs, j);
        let z = a.slicing(ks, vs, j);
        assert(appending(a, ks, vs, j) == so_far + (x + y));
        assert((so_far + x) + (y + z) =~= (so_far + (x + y)) + z);
    }
}

pub(crate) proof fn all_stages_append(a: AppendInfo, ks: Seq<TensorInfo>, vs: Seq<TensorInfo>)
    ensures
        joined(a.stages(ks, vs)) == appending(a, ks, vs, a.parts.len() as int),
{
    let n = a.parts.len() as int;
    stages_append(a, ks, vs, n);
    assert(a.stages(ks, vs).take(n + 1) =~= a.stages(ks, vs));
    assert(appending(a, ks, vs, n) + a.slicing(ks, vs, n) =~= appending(a, ks, vs, n));
}

/// What the appending of the first `j` parts leaves.
pub open spec fn parts_appended<R>(
    mem: Memory<R>,
    m: Memory<R>,
    b: Batch,
    keys: Rows<R>,
    values: Rows<R>,
    layer: int,
    used: Set<TensorId>,
    j: int,
) -> bool {
    &&& used_stay(mem, m, used, parts_memory(b, layer))
    &&& forall|i: int|
        0 <= i < j ==> #[trigger] part_cached(m, b, layer, i) == with_part(
            part_past(mem, b, layer, i),
            keys,
            values,
            b.parts[i],
        )
    &&& forall|i: int|
        j <= i < b.parts.len() ==> #[trigger] part_past(m, b, layer, i) == part_past(
            mem,
            b,
            layer,
            i,
        )
}

/// Every row that is appended for a sequence is one of its own: row `r` of what a layer appends
/// for part `j` of a batch is row `offset + r` of the keys, or values, of the batch, where
/// `offset` is where the part begins. It lies behind what was cached of the sequence, and no
/// other sequence's cache changes.
pub proof fn batches_append_own_rows<R>(
    k: Kernels<R>,
    mem: Memory<R>,
    b: Batch,
    a: AppendInfo,
    ks: Seq<TensorInfo>,
    vs: Seq<TensorInfo>,
    used: Set<TensorId>,
    j: int,
)
    requires
        batch_is_sound(b),
        a.tensors == b.tensors,
        a.parts == b.parts,
        0 <= a.layer < b.layers.len(),
        a.cache == if a.layer == 0 {
            b.cache
        } else {
            b.grown()
        },
        0 <= j <= b.parts.len(),
        pool_memory(b.tensors).subset_of(used),
        used.contains(a.views.k.id),
        used.contains(a.views.v.id),
        !pool_memory(b.tensors).contains(a.views.k.id),
        !pool_memory(b.tensors).contains(a.views.v.id),
        gives_fresh_memory(used, appending(a, ks, vs, j)),
    ensures
        parts_appended(
            mem,
            after_events(k, mem, appending(a, ks, vs, j)),
            b,
            mem[a.views.k.id],
            mem[a.views.v.id],
            a.layer,
            used,
            j,
        ),
        in_use(used, appending(a, ks, vs, j)) == used,
    decreases j,
{
    let layer = a.layer;
    let layers = b.layers.len() as int;
    if j > 0 {
        let i = j - 1;
        let before = appending(a, ks, vs, i);
        let events = a.slicing(ks, vs, i) + a.storing(ks, vs, j);
        fresh_parts(used, before, events);
        batches_append_own_rows(k, mem, b, a, ks, vs, used, i);
        let m = after_events(k, mem, before);
        let m2 = after_events(k, m, events);
        after_events_add(k, mem, before, events);
        in_use_add(used, before, events);
        part_is_counted(b, i);
        let t = part_blocks(b, i);
        let part = b.parts[i];
        assert(a.after(j).seqs[part.handle.0] == t) by {
            if layer != 0 {
                later_layers_count_nothing(a.cache, a.parts, layer, j);
            }
        }
        part_is_appended(
            k,
            m,
            a.views,
            b.tensors,
            layers,
            t,
            layer,
            part,
            ks[i],
            vs[i],
            used,
        );
        pool_outside_parts(b, layer);
        assert(m[a.views.k.id] == mem[a.views.k.id]);
        assert(m[a.views.v.id] == mem[a.views.v.id]);
        assert(part_past(m, b, layer, i) == part_past(mem, b, layer, i));
        let own = table_memory(b.tensors, t.table, layer);
        assert forall|id: TensorId| own.contains(id) implies parts_memory(b, layer).contains(
            id,
        ) by {
            assert(part_blocks(b, i) == t);
        }
        assert(used_stay(mem, m2, used, parts_memory(b, layer)));
        assert forall|x: int| 0 <= x < j implies #[trigger] part_cached(m2, b, layer, x)
            == with_part(
            part_past(mem, b, layer, x),
            mem[a.views.k.id],
            mem[a.views.v.id],
            b.parts[x],
        ) by {
            if x < i {
                assert(part_cached(m, b, layer, x) == with_part(
                    part_past(mem, b, layer, x),
                    mem[a.views.k.id],
                    mem[a.views.v.id],
                    b.parts[x],
                ));
                other_part_stays(m, m2, b, layer, i, x, used);
            }
        }
        assert forall|x: int| j <= x < b.parts.len() implies #[trigger] part_past(m2, b, layer, x)
            == part_past(mem, b, layer, x) by {
            assert(part_past(m, b, layer, x) == part_past(mem, b, layer, x));
            other_part_stays(m, m2, b, layer, i, x, used);
        }
    }
}

/// The blocks of the parts lie in the pool.
pub(crate) proof fn pool_outside_parts(b: Batch, layer: int)
    requires
        batch_is_sound(b),
        0 <= layer < b.layers.len(),
    ensures
        parts_memory(b, layer).subset_of(pool_memory(b.tensors)),
{
    assert forall|id: TensorId| parts_memory(b, layer).contains(id) implies pool_memory(
        b.tensors,
    ).contains(id) by {
        let j = choose|j: int|
            0 <= j < b.parts.len() && table_memory(
                b.tensors,
                (#[trigger] part_blocks(b, j)).table,
                layer,
            ).contains(id);
        part_is_counted(b, j);
        table_memory_in_pool(b.tensors, b.layers.len() as int, part_blocks(b, j).table, layer);
    }
}

/// Writing to one part's blocks leaves what is cached of another.
proof fn other_part_stays<R>(
    before: Memory<R>,
    after: Memory<R>,
    b: Batch,
    layer: int,
    i: int,
    x: int,
    used: Set<TensorId>,
)
    requires
        batch_is_sound(b),
        0 <= layer < b.layers.len(),
        0 <= i < b.parts.len(),
        0 <= x < b.parts.len(),
        i != x,
        pool_memory(b.tensors).subset_of(used),
        used_stay(
            before,
            after,
            used,
            table_memory(b.tensors, part_blocks(b, i).table, layer),
        ),
    ensures
        part_cached(after, b, layer, x) == part_cached(before, b, layer, x),
        part_past(after, b, layer, x) == part_past(before, b, layer, x),
{
    let layers = b.layers.len() as int;
    let t = part_blocks(b, x);
    part_is_counted(b, x);
    part_blocks_differ(b, i, x, layer);
    table_memory_in_pool(b.tensors, layers, t.table, layer);
    assert forall|id: TensorId| table_memory(b.tensors, t.table, layer).contains(
        id,
    ) implies #[trigger] after[id] == before[id] by {
        assert(used.contains(id));
    }
    table_stays(before, after, b.tensors, layers, t.table, layer, t.len as int);
    table_stays(before, after, b.tensors, layers, t.table, layer, t.len - b.parts[x].n);
}

/// Attention for one part: its queries are taken from the batch, and the result is put in their
/// place.
proof fn part_attends<R>(
    k: Kernels<R>,
    mem: Memory<R>,
    cfg: ModelConfig,
    views: HeadViewsInfo,
    tensors: Seq<Seq<TensorInfo>>,
    t: BlocksInfo,
    layer: int,
    part: Part,
    q: TensorInfo,
    o: TensorInfo,
    used: Set<TensorId>,
)
    requires
        is_slice(q, part.n, cfg.num_q_heads, cfg.head_dim),
        tensors.len() <= i32::MAX,
        holds_tokens(tensors, t, part.n as int),
        t.len == part.start_pos + part.n,
        pool_memory(tensors).subset_of(used),
        forall|at: int, p: int|
            (at == 2 * layer || at == 2 * layer + 1) && 0 <= p < t.table.len() ==> used.contains(
                #[trigger] block_tensor(tensors, t.table[p] as int, at),
            ),
        used.contains(views.q.id),
        used.contains(views.attn.id),
        gives_fresh_memory(used, attend_events(cfg, views, tensors, t, layer, part, q, o)),
    ensures
        ({
            let events = attend_events(cfg, views, tensors, t, layer, part, q, o);
            let m = after_events(k, mem, events);
            let past = paged(mem, tensors, t.table, layer, t.len as int);
            let res = (k.attention)(
                first(shifted(mem[views.q.id], part.offset as int), part.n as int),
                seq![cfg.num_q_heads, cfg.head_dim],
                past.keys,
                past.values,
                cfg.num_kv_heads,
                part.start_pos,
            );
            &&& m[views.attn.id] == with_rows(
                mem[views.attn.id],
                part.offset as int,
                rows_of(res),
                0,
                part.n as int,
            )
            &&& used_stay(mem, m, used, set![views.attn.id])
            &&& in_use(used, events) == used
        }),
{
    let e = attend_events(cfg, views, tensors, t, layer, part, q, o);
    let n = part.n as int;
    let p0 = seq![e[0]];
    let p1 = seq![e[1]];
    let p2 = seq![e[2]];
    let p3 = seq![e[3]];
    let p4 = seq![e[4]];
    let p5 = seq![e[5], e[6]];
    let r1 = p1 + (p2 + (p3 + (p4 + p5)));
    let r2 = p2 + (p3 + (p4 + p5));
    let r3 = p3 + (p4 + p5);
    let r4 = p4 + p5;
    assert(e =~= p0 + r1);
    fresh_parts(used, p0, r1);
    fresh_first(used, p0, q);
    use_one(used, e[0]);
    let u1 = used.insert(q.id);
    fresh_parts(u1, p1, r2);
    use_stays(u1, p1);
    fresh_parts(u1, p2, r3);
    fresh_first(u1, p2, o);
    use_one(u1, e[2]);
    let u2 = u1.insert(o.id);
    use_stays(u2, p3);
    use_stays(u2, p4);
    assert(p5 =~= all_done(frees(seq![q, o])));
    two_releases(u2, q, o);
    in_use_add(used, p0, r1);
    in_use_add(u1, p1, r2);
    in_use_add(u1, p2, r3);
    in_use_add(u2, p3, r4);
    in_use_add(u2, p4, p5);
    assert(u2.remove(q.id).remove(o.id) =~= used);
    after_events_add(k, mem, p0, r1);
    after_one(k, mem, e[0]);
    after_events_add(k, mem, p1, r2);
    after_one(k, mem, e[1]);
    let m1 = after_call(k, mem, e[1].call);
    after_events_add(k, m1, p2, r3);
    after_one(k, m1, e[2]);
    after_events_add(k, m1, p3, r4);
    after_one(k, m1, e[3]);
    let m3 = after_call(k, m1, e[3].call);
    after_events_add(k, m3, p4, p5);
    after_one(k, m3, e[4]);
    let m4 = after_call(k, m3, e[4].call);
    after_done(k, m4, frees(seq![q, o]));
    after_releases(k, m4, seq![q, o]);
    assert(m1[q.id] == with_rows(mem[q.id], 0, mem[views.q.id], part.offset as int, n));
    assert(first(m1[q.id], n) =~= first(shifted(mem[views.q.id], part.offset as int), n));
    assert(row_shape(q.shape) =~= seq![cfg.num_q_heads, cfg.head_dim]);
    attention_gathers(m1, tensors, t.table, layer, t.len as int);
    let past = paged(mem, tensors, t.table, layer, t.len as int);
    let past1 = paged(m1, tensors, t.table, layer, t.len as int);
    assert forall|at: int, p: int|
        (at == 2 * layer || at == 2 * layer + 1) && 0 <= p < t.len implies #[trigger] row_at(
        m1,
        tensors,
        t.table,
        at,
        p,
    ) == row_at(mem, tensors, t.table, at, p) by {
        assert(0 <= p / 16 < t.table.len());
        assert(used.contains(block_tensor(tensors, t.table[p / 16] as int, at)));
    }
    assert(past1.keys =~= past.keys);
    assert(past1.values =~= past.values);
}

/// What attention gives for part `j` of a batch.
pub open spec fn part_attention<R>(
    k: Kernels<R>,
    mem: Memory<R>,
    b: Batch,
    queries: Rows<R>,
    layer: int,
    j: int,
) -> Seq<R> {
    let part = b.parts[j];
    let past = part_cached(mem, b, layer, j);
    (k.attention)(
        first(shifted(queries, part.offset as int), part.n as int),
        seq![b.cfg.num_q_heads, b.cfg.head_dim],
        past.keys,
        past.values,
        b.cfg.num_kv_heads,
        part.start_pos,
    )
}

/// What attention of the first `j` parts leaves.
pub open spec fn parts_attended<R>(
    k: Kernels<R>,
    mem: Memory<R>,
    m: Memory<R>,
    b: Batch,
    queries: Rows<R>,
    attn: TensorId,
    layer: int,
    used: Set<TensorId>,
    j: int,
) -> bool {
    &&& used_stay(mem, m, used, set![attn])
    &&& forall|i: int, r: int|
        0 <= i < j && 0 <= r < b.parts[i].n ==> m[attn](b.parts[i].offset + r)
            == #[trigger] part_attention(k, mem, b, queries, layer, i)[r]
}

/// Attention of a batch is attention of each of its sequences: the rows of part `j` get what
/// attention of its queries over its own keys and values gives.
pub proof fn batches_attend_to_own_rows<R>(
    k: Kernels<R>,
    mem: Memory<R>,
    b: Batch,
    a: AttendInfo,
    qs: Seq<TensorInfo>,
    os: Seq<TensorInfo>,
    used: Set<TensorId>,
    j: int,
)
    requires
        batch_is_sound(b),
        a.cfg == b.cfg,
        a.tensors == b.tensors,
        a.parts == b.parts,
        a.seqs == b.grown().seqs,
        0 <= a.layer < b.layers.len(),
        0 <= j <= b.parts.len(),
        forall|i: int|
            0 <= i < b.parts.len() ==> is_slice(
                #[trigger] qs[i],
                b.parts[i].n,
                b.cfg.num_q_heads,
                b.cfg.head_dim,
            ),
        pool_memory(b.tensors).subset_of(used),
        used.contains(a.views.q.id),
        used.contains(a.views.attn.id),
        a.views.q.id != a.views.attn.id,
        !pool_memory(b.tensors).contains(a.views.attn.id),
        gives_fresh_memory(used, joined(a.rows(qs, os).take(j))),
    ensures
        parts_attended(
            k,
            mem,
            after_events(k, mem, joined(a.rows(qs, os).take(j))),
            b,
            mem[a.views.q.id],
            a.views.attn.id,
            a.layer,
            used,
            j,
        ),
        in_use(used, joined(a.rows(qs, os).take(j))) == used,
    decreases j,
{
    let rows = a.rows(qs, os);
    let layer = a.layer;
    let attn = a.views.attn.id;
    let queries = mem[a.views.q.id];
    if j > 0 {
        let i = j - 1;
        let some = rows.take(j);
        assert(some.drop_last() =~= rows.take(i));
        assert(some.last() == a.row(qs[i], os[i], i));
        let before = joined(rows.take(i));
        let events = a.row(qs[i], os[i], i);
        fresh_parts(used, before, events);
        batches_attend_to_own_rows(k, mem, b, a, qs, os, used, i);
        after_events_add(k, mem, before, events);
        in_use_add(used, before, events);
        let m = after_events(k, mem, before);
        let m2 = after_events(k, m, events);
        part_is_counted(b, i);
        let t = part_blocks(b, i);
        let part = b.parts[i];
        table_memory_in_pool(b.tensors, b.layers.len() as int, t.table, layer);
        assert forall|at: int, p: int|
            (at == 2 * layer || at == 2 * layer + 1) && 0 <= p < t.table.len() implies used.contains(
            #[trigger] block_tensor(b.tensors, t.table[p] as int, at),
        ) by {
            assert(table_memory(b.tensors, t.table, layer).contains(
                block_tensor(b.tensors, t.table[p] as int, at),
            ));
        }
        part_attends(
            k,
            m,
            b.cfg,
            a.views,
            b.tensors,
            t,
            layer,
            part,
            qs[i],
            os[i],
            used,
        );
        assert(m[a.views.q.id] == queries);
        assert forall|id: TensorId| table_memory(b.tensors, t.table, layer).contains(
            id,
        ) implies #[trigger] m[id] == mem[id] by {
            assert(used.contains(id) && id != attn);
        }
        table_stays(
            mem,
            m,
            b.tensors,
            b.layers.len() as int,
            t.table,
            layer,
            t.len as int,
        );
        let res = part_attention(k, mem, b, queries, layer, i);
        assert forall|x: int, r: int|
            0 <= x < j && 0 <= r < b.parts[x].n implies m2[attn](b.parts[x].offset + r)
            == #[trigger] part_attention(k, mem, b, queries, layer, x)[r] by {
            if x < i {
                parts_are_apart(b, x, i);
            }
        }
    } else {
        assert(rows.take(0) =~= Seq::empty());
    }
}

} // verus!

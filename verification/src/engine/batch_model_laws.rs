//! A pass over a batch computes for each sequence what the model says.
use crate::base::backend::DeviceEvent;
use crate::base::dataflow::{
    after_calls, after_done, after_events, after_events_add, first, fresh_parts, gives_fresh_memory,
    ids, in_use, in_use_add, row_shape, rows_of, use_stays, Kernels, Memory, Rows,
};
use crate::base::program::{all_done, joined, joined_one, step_calls};
use crate::base::tensor::{TensorId, TensorInfo};
use crate::engine::batch_pass::{all_fit, Batch, LayerSlices};
use crate::engine::batch_rows::{
    all_stages_append, appending, batch_is_sound, batches_append_own_rows,
    batches_attend_to_own_rows, part_attention, part_blocks, part_cached, part_is_counted,
    part_past, parts_memory, pool_outside_parts, shifted, table_stays, used_stay, with_part,
};
use crate::engine::block_rows::{block_tensor, pool_memory, table_memory, table_memory_in_pool};
use crate::engine::model::{
    have_own_memory, layer_operands, own_memory, pass_memory, projections_compute,
    residuals_compute, scratch_rows, weights_outside, Layer, Past,
};
use crate::engine::model_laws::{calls_keep_use, layer_parts_release_nothing, weights_inside};
use crate::engine::staged::{joined_prefixed, prefixed, suffixed};
use crate::engine::transformer::{finish_steps, project_steps, ScratchInfo};
use vstd::prelude::*;

verus! {

/// Layer `l` of the model of a batch, for a hidden state with rows of some shape.
pub open spec fn batch_layer<R>(mem: Memory<R>, b: Batch, shape: Seq<usize>, l: int) -> Layer<R> {
    Layer { cfg: b.cfg, w: layer_operands(mem, b.layers[l]), shape }
}

/// The positions of the tokens of a part.
pub open spec fn part_positions(b: Batch, j: int) -> Seq<u32> {
    Seq::new(b.parts[j].n as nat, |r: int| b.positions[b.parts[j].offset + r])
}

/// The first `n` rows are the same.
pub open spec fn agree<R>(a: Rows<R>, b: Rows<R>, n: int) -> bool {
    forall|r: int| 0 <= r < n ==> #[trigger] a(r) == b(r)
}

/// What a layer makes of some tokens depends on those tokens alone.
pub(crate) proof fn layers_agree<R>(
    k: Kernels<R>,
    layer: Layer<R>,
    a: Rows<R>,
    b: Rows<R>,
    positions: Seq<u32>,
    n: int,
    past: Past<R>,
)
    requires
        0 <= n,
        agree(a, b, n),
    ensures
        layer.extended(k, a, positions, n, past) == layer.extended(k, b, positions, n, past),
        agree(
            layer.output(k, a, positions, n, past),
            layer.output(k, b, positions, n, past),
            n,
        ),
{
    let ka = layer.keys(k, a, positions);
    let kb = layer.keys(k, b, positions);
    let va = layer.values(k, a);
    let vb = layer.values(k, b);
    let qa = layer.queries(k, a, positions);
    let qb = layer.queries(k, b, positions);
    assert forall|r: int| 0 <= r < n implies #[trigger] ka(r) == kb(r) && va(r) == vb(r)
        && qa(r) == qb(r) by {
        assert(a(r) == b(r));
    }
    assert forall|r: int| 0 <= r < n implies #[trigger] va(r) == vb(r) by {
        assert(ka(r) == kb(r));
    }
    assert forall|r: int| 0 <= r < n implies #[trigger] qa(r) == qb(r) by {
        assert(ka(r) == kb(r));
    }
    assert(first(ka, n) =~= first(kb, n));
    assert(first(va, n) =~= first(vb, n));
    assert(first(qa, n) =~= first(qb, n));
    let oa = layer.output(k, a, positions, n, past);
    let ob = layer.output(k, b, positions, n, past);
    assert forall|r: int| 0 <= r < n implies #[trigger] oa(r) == ob(r) by {
        assert(a(r) == b(r));
    }
}

/// What layer `l` leaves of a batch.
pub open spec fn batch_layer_left<R>(
    k: Kernels<R>,
    mem: Memory<R>,
    m: Memory<R>,
    b: Batch,
    hidden: TensorInfo,
    l: int,
    j: int,
) -> bool {
    let layer = batch_layer(mem, b, row_shape(hidden.shape), l);
    let part = b.parts[j];
    let h = shifted(mem[hidden.id], part.offset as int);
    let past = part_past(mem, b, l, j);
    let n = part.n as int;
    &&& agree(
        shifted(m[hidden.id], part.offset as int),
        layer.output(k, h, part_positions(b, j), n, past),
        n,
    )
    &&& part_cached(m, b, l, j) == layer.extended(k, h, part_positions(b, j), n, past)
}

/// What the parts of a layer give, put together for one part of the batch.
proof fn part_is_computed<R>(
    k: Kernels<R>,
    mem: Memory<R>,
    cached: Memory<R>,
    b: Batch,
    shape: Seq<usize>,
    h: Rows<R>,
    attention: Rows<R>,
    l: int,
    j: int,
)
    requires
        batch_is_sound(b),
        0 <= l < b.layers.len(),
        0 <= j < b.parts.len(),
        part_cached(cached, b, l, j) == with_part(
            part_past(mem, b, l, j),
            batch_layer(mem, b, shape, l).keys(k, h, b.positions),
            batch_layer(mem, b, shape, l).values(k, h),
            b.parts[j],
        ),
        forall|r: int|
            0 <= r < b.parts[j].n ==> #[trigger] attention(b.parts[j].offset + r)
                == part_attention(
                k,
                cached,
                b,
                batch_layer(mem, b, shape, l).queries(k, h, b.positions),
                l,
                j,
            )[r],
    ensures
        ({
            let layer = batch_layer(mem, b, shape, l);
            let part = b.parts[j];
            let own = shifted(h, part.offset as int);
            let past = part_past(mem, b, l, j);
            let n = part.n as int;
            &&& part_cached(cached, b, l, j) == layer.extended(k, own, part_positions(b, j), n, past)
            &&& agree(
                shifted(
                    layer.with_feed_forward(k, layer.with_attention(k, h, attention)),
                    part.offset as int,
                ),
                layer.output(k, own, part_positions(b, j), n, past),
                n,
            )
        }),
{
    let layer = batch_layer(mem, b, shape, l);
    let part = b.parts[j];
    let offset = part.offset as int;
    let own = shifted(h, offset);
    let past = part_past(mem, b, l, j);
    let n = part.n as int;
    let positions = part_positions(b, j);
    part_is_counted(b, j);
    assert(first(shifted(layer.keys(k, h, b.positions), offset), n) =~= first(
        layer.keys(k, own, positions),
        n,
    ));
    assert(first(shifted(layer.values(k, h), offset), n) =~= first(layer.values(k, own), n));
    assert(first(shifted(layer.queries(k, h, b.positions), offset), n) =~= first(
        layer.queries(k, own, positions),
        n,
    ));
    assert(past.keys.len() == part.start_pos);
    let attended = layer.attended(k, own, positions, n, past);
    assert(part_attention(k, cached, b, layer.queries(k, h, b.positions), l, j) == attended);
    let got = layer.with_feed_forward(k, layer.with_attention(k, h, attention));
    let right = layer.output(k, own, positions, n, past);
    assert forall|r: int| 0 <= r < n implies #[trigger] shifted(got, offset)(r) == right(r) by {
        assert(attention(offset + r) == attended[r]);
        assert(layer.with_attention(k, h, attention)(offset + r) == layer.with_attention(
            k,
            own,
            rows_of(attended),
        )(r));
    }
}

/// The events of layer `l`: what comes before the appending, the appending, attention and
/// the rest.
pub open spec fn batch_layer_events(
    b: Batch,
    hidden: TensorInfo,
    s: ScratchInfo,
    l: int,
    sl: LayerSlices,
) -> Seq<DeviceEvent> {
    joined(b.layer_stages(hidden, s, l, sl))
}

pub(crate) proof fn suffixed_joins(stages: Seq<Seq<DeviceEvent>>, suffix: Seq<DeviceEvent>)
    requires
        stages.len() > 0,
    ensures
        joined(suffixed(stages, suffix)) == joined(stages) + suffix,
{
    let all = suffixed(stages, suffix);
    assert(all.drop_last() =~= stages.drop_last());
    assert(joined(all) == joined(stages.drop_last()) + (stages.last() + suffix));
    assert(joined(stages.drop_last()) + (stages.last() + suffix) =~= joined(stages.drop_last())
        + stages.last() + suffix);
}

proof fn layer_in_parts(b: Batch, hidden: TensorInfo, s: ScratchInfo, l: int, sl: LayerSlices)
    ensures
        batch_layer_events(b, hidden, s, l, sl) == b.project(hidden, s, l) + appending(
            b.append(s, l),
            sl.ks,
            sl.vs,
            b.parts.len() as int,
        ) + (joined(b.attend(s, l).rows(sl.qs, sl.os).take(b.parts.len() as int)) + b.finish(
            hidden,
            s,
            l,
        )),
{
    let stages = b.append(s, l).stages(sl.ks, sl.vs);
    let before = prefixed(stages, b.project(hidden, s, l));
    suffixed_joins(before, b.close(hidden, s, l, sl));
    joined_prefixed(stages, b.project(hidden, s, l), stages.len() as int);
    assert(before.take(stages.len() as int) =~= before);
    assert(stages.take(stages.len() as int) =~= stages);
    all_stages_append(b.append(s, l), sl.ks, sl.vs);
    let rows = b.attend(s, l).rows(sl.qs, sl.os);
    assert(rows.take(b.parts.len() as int) =~= rows);
}

/// A layer of a pass over a batch computes for each sequence what the model says of that
/// sequence alone, and appends to its cache the keys and values that the model says.
pub proof fn batched_layers_compute_the_model<R>(
    k: Kernels<R>,
    mem: Memory<R>,
    b: Batch,
    hidden: TensorInfo,
    s: ScratchInfo,
    l: int,
    sl: LayerSlices,
    used: Set<TensorId>,
)
    requires
        batch_is_sound(b),
        0 <= l < b.layers.len(),
        s.fits(b.cfg, b.total),
        sl.fits(b),
        have_own_memory(hidden, s),
        pass_memory(hidden, s).disjoint(pool_memory(b.tensors)),
        pass_memory(hidden, s).subset_of(used),
        pool_memory(b.tensors).subset_of(used),
        weights_inside(b.layers[l], used),
        weights_outside(b.layers[l], pass_memory(hidden, s)),
        weights_outside(b.layers[l], pool_memory(b.tensors)),
        gives_fresh_memory(used, batch_layer_events(b, hidden, s, l, sl)),
    ensures
        ({
            let events = batch_layer_events(b, hidden, s, l, sl);
            let m = after_events(k, mem, events);
            &&& forall|j: int|
                0 <= j < b.parts.len() ==> #[trigger] batch_layer_left(k, mem, m, b, hidden, l, j)
            &&& used_stay(mem, m, used, pass_memory(hidden, s).union(parts_memory(b, l)))
            &&& in_use(used, events) == used
        }),
{
    let count = b.parts.len() as int;
    let a = b.append(s, l);
    let t = b.attend(s, l);
    let v = b.views(s);
    let w = b.layers[l];
    let own = pass_memory(hidden, s);
    let pool = pool_memory(b.tensors);
    let shape = row_shape(hidden.shape);
    let project = step_calls(project_steps(b.cfg, w, hidden, s, b.total, b.positions));
    let finish = step_calls(finish_steps(b.cfg, w, hidden, s, b.total));
    let append = appending(a, sl.ks, sl.vs, count);
    let attend = joined(t.rows(sl.qs, sl.os).take(count));
    let p = all_done(project);
    let f = all_done(finish);
    own_memory(hidden, s);
    scratch_rows(b.cfg, s, b.total);
    let list = ids(seq![hidden] + s.list());
    assert(own.contains(list[0]) && own.contains(list[2]) && own.contains(list[3])
        && own.contains(list[4]) && own.contains(list[5]));
    assert(list[2] != list[5] && list[0] != list[5]);
    layer_in_parts(b, hidden, s, l, sl);
    fresh_parts(used, p + append, attend + f);
    fresh_parts(used, p, append);
    layer_parts_release_nothing(b.cfg, w, hidden, s, b.total, b.positions);
    calls_keep_use(project_steps(b.cfg, w, hidden, s, b.total, b.positions));
    calls_keep_use(finish_steps(b.cfg, w, hidden, s, b.total));
    use_stays(used, p);
    use_stays(used, f);
    in_use_add(used, p + append, attend + f);
    in_use_add(used, p, append);
    let m1 = after_calls(k, mem, project);
    let m2 = after_events(k, m1, append);
    let m3 = after_events(k, m2, attend);
    let m4 = after_calls(k, m3, finish);
    let m = after_events(k, mem, batch_layer_events(b, hidden, s, l, sl));
    assert(m == m4) by {
        after_events_add(k, mem, p + append, attend + f);
        after_events_add(k, mem, p, append);
        after_done(k, mem, project);
        after_events_add(k, m2, attend, f);
        after_done(k, m3, finish);
    }
    let layer = batch_layer(mem, b, shape, l);
    let h = mem[hidden.id];
    projections_compute(k, mem, b.cfg, w, hidden, s, b.total, b.positions);
    batches_append_own_rows(k, m1, b, a, sl.ks, sl.vs, used, count);
    fresh_parts(used, attend, f);
    in_use_add(used, attend, f);
    batches_attend_to_own_rows(k, m2, b, t, sl.qs, sl.os, used, count);
    pool_outside_parts(b, l);
    let keys = layer.keys(k, h, b.positions);
    let values = layer.values(k, h);
    let queries = layer.queries(k, h, b.positions);
    assert(m2[s.q_flat.id] == queries);
    assert(m3[hidden.id] == h);
    assert(layer_operands(m3, w) == layer.w);
    residuals_compute(k, m3, b.cfg, w, hidden, s, b.total);
    assert(m4[hidden.id] == layer.with_feed_forward(
        k,
        layer.with_attention(k, h, m3[s.attn_out.id]),
    ));
    assert forall|j: int| 0 <= j < count implies #[trigger] batch_layer_left(
        k,
        mem,
        m,
        b,
        hidden,
        l,
        j,
    ) by {
        let blocks = part_blocks(b, j);
        part_is_counted(b, j);
        table_memory_in_pool(b.tensors, b.layers.len() as int, blocks.table, l);
        let start = blocks.len - b.parts[j].n;
        table_stays(mem, m1, b.tensors, b.layers.len() as int, blocks.table, l, start);
        assert(part_past(m1, b, l, j) == part_past(mem, b, l, j));
        assert(part_cached(m2, b, l, j) == with_part(
            part_past(m1, b, l, j),
            keys,
            values,
            b.parts[j],
        ));
        let attention = m3[s.attn_out.id];
        assert forall|r: int| 0 <= r < b.parts[j].n implies #[trigger] attention(
            b.parts[j].offset + r,
        ) == part_attention(k, m2, b, queries, l, j)[r] by {}
        part_is_computed(k, mem, m2, b, shape, h, attention, l, j);
        assert forall|id: TensorId| table_memory(b.tensors, blocks.table, l).contains(
            id,
        ) implies #[trigger] m4[id] == m2[id] by {
            assert(pool.contains(id) && used.contains(id) && !own.contains(id));
            assert(m3[id] == m2[id]);
        }
        table_stays(
            m2,
            m4,
            b.tensors,
            b.layers.len() as int,
            blocks.table,
            l,
            blocks.len as int,
        );
    }
}

/// The hidden state of part `j` after `l` layers, from the hidden state `h` on: what the model
/// makes of the part's tokens and those that are cached of its sequence.
pub open spec fn part_hidden<R>(
    k: Kernels<R>,
    mem: Memory<R>,
    b: Batch,
    shape: Seq<usize>,
    j: int,
    h: Rows<R>,
    l: int,
) -> Rows<R>
    decreases l,
{
    if l <= 0 {
        h
    } else {
        batch_layer(mem, b, shape, l - 1).output(
            k,
            part_hidden(k, mem, b, shape, j, h, l - 1),
            part_positions(b, j),
            b.parts[j].n as int,
            part_past(mem, b, l - 1, j),
        )
    }
}

/// The keys and values of part `j` in layer `l`, behind those that are cached of its sequence.
pub open spec fn part_extended<R>(
    k: Kernels<R>,
    mem: Memory<R>,
    b: Batch,
    shape: Seq<usize>,
    j: int,
    h: Rows<R>,
    l: int,
) -> Past<R> {
    batch_layer(mem, b, shape, l).extended(
        k,
        part_hidden(k, mem, b, shape, j, h, l),
        part_positions(b, j),
        b.parts[j].n as int,
        part_past(mem, b, l, j),
    )
}

/// The events of the first `l` layers.
pub open spec fn batch_layers_events(
    b: Batch,
    hidden: TensorInfo,
    s: ScratchInfo,
    slices: Seq<LayerSlices>,
    l: int,
) -> Seq<DeviceEvent>
    decreases l,
{
    if l <= 0 {
        Seq::empty()
    } else {
        batch_layers_events(b, hidden, s, slices, l - 1) + batch_layer_events(
            b,
            hidden,
            s,
            l - 1,
            slices[l - 1],
        )
    }
}

proof fn first_and_later(
    b: Batch,
    hidden: TensorInfo,
    s: ScratchInfo,
    slices: Seq<LayerSlices>,
    l: int,
)
    requires
        1 <= l,
    ensures
        batch_layers_events(b, hidden, s, slices, l) == batch_layer_events(
            b,
            hidden,
            s,
            0,
            slices[0],
        ) + b.later(hidden, s, slices, 1, l),
    decreases l,
{
    let one = batch_layer_events(b, hidden, s, 0, slices[0]);
    if l == 1 {
        reveal_with_fuel(batch_layers_events, 2);
        assert(Seq::<DeviceEvent>::empty() + one =~= one + Seq::<DeviceEvent>::empty());
    } else {
        first_and_later(b, hidden, s, slices, l - 1);
        let rest = b.later(hidden, s, slices, 1, l - 1);
        let last = batch_layer_events(b, hidden, s, l - 1, slices[l - 1]);
        assert(one + rest + last =~= one + (rest + last));
    }
}

/// The stages of a batch are its layers, one after the other.
pub(crate) proof fn stages_are_layers(b: Batch, hidden: TensorInfo, s: ScratchInfo, slices: Seq<LayerSlices>)
    ensures
        b.stages(hidden, s, slices).len() > 0,
        joined(b.stages(hidden, s, slices)) == batch_layers_events(
            b,
            hidden,
            s,
            slices,
            b.layers.len() as int,
        ),
{
    if b.layers.len() == 0 {
        joined_one(Seq::<DeviceEvent>::empty());
    } else {
        let first = b.layer_stages(hidden, s, 0, slices[0]);
        suffixed_joins(first, b.later(hidden, s, slices, 1, b.layers.len() as int));
        first_and_later(b, hidden, s, slices, b.layers.len() as int);
    }
}

/// The weights of a batch, and the pool, are in use, and lie apart from each other and from the
/// memory of the pass.
pub open spec fn batch_is_apart(
    b: Batch,
    hidden: TensorInfo,
    s: ScratchInfo,
    used: Set<TensorId>,
) -> bool {
    &&& have_own_memory(hidden, s)
    &&& pass_memory(hidden, s).disjoint(pool_memory(b.tensors))
    &&& pass_memory(hidden, s).subset_of(used)
    &&& pool_memory(b.tensors).subset_of(used)
    &&& forall|l: int|
        0 <= l < b.layers.len() ==> weights_inside(#[trigger] b.layers[l], used)
            && weights_outside(b.layers[l], pass_memory(hidden, s)) && weights_outside(
            b.layers[l],
            pool_memory(b.tensors),
        )
}

/// What the first `l` layers leave of a batch.
pub open spec fn batch_layers_left<R>(
    k: Kernels<R>,
    mem: Memory<R>,
    m: Memory<R>,
    b: Batch,
    hidden: TensorInfo,
    s: ScratchInfo,
    used: Set<TensorId>,
    l: int,
) -> bool {
    let shape = row_shape(hidden.shape);
    &&& forall|j: int|
        0 <= j < b.parts.len() ==> agree(
            #[trigger] shifted(m[hidden.id], b.parts[j].offset as int),
            part_hidden(
                k,
                mem,
                b,
                shape,
                j,
                shifted(mem[hidden.id], b.parts[j].offset as int),
                l,
            ),
            b.parts[j].n as int,
        )
    &&& forall|i: int, j: int|
        0 <= i < l && 0 <= j < b.parts.len() ==> #[trigger] part_cached(m, b, i, j)
            == part_extended(
            k,
            mem,
            b,
            shape,
            j,
            shifted(mem[hidden.id], b.parts[j].offset as int),
            i,
        )
    &&& forall|i: int, j: int|
        l <= i < b.layers.len() && 0 <= j < b.parts.len() ==> #[trigger] part_past(m, b, i, j)
            == part_past(mem, b, i, j)
    &&& used_stay(mem, m, used, pass_memory(hidden, s).union(pool_memory(b.tensors)))
}

/// What a layer writes is not cached in another.
proof fn other_layer_stays<R>(
    before: Memory<R>,
    after: Memory<R>,
    b: Batch,
    own: Set<TensorId>,
    used: Set<TensorId>,
    l: int,
    i: int,
    j: int,
)
    requires
        batch_is_sound(b),
        0 <= l < b.layers.len(),
        0 <= i < b.layers.len(),
        i != l,
        0 <= j < b.parts.len(),
        pool_memory(b.tensors).subset_of(used),
        own.disjoint(pool_memory(b.tensors)),
        used_stay(before, after, used, own.union(parts_memory(b, l))),
    ensures
        part_cached(after, b, i, j) == part_cached(before, b, i, j),
        part_past(after, b, i, j) == part_past(before, b, i, j),
{
    let layers = b.layers.len() as int;
    let t = part_blocks(b, j);
    part_is_counted(b, j);
    table_memory_in_pool(b.tensors, layers, t.table, i);
    assert forall|id: TensorId| table_memory(b.tensors, t.table, i).contains(
        id,
    ) implies #[trigger] after[id] == before[id] by {
        assert(pool_memory(b.tensors).contains(id));
        if parts_memory(b, l).contains(id) {
            let x = choose|x: int|
                0 <= x < b.parts.len() && table_memory(
                    b.tensors,
                    (#[trigger] part_blocks(b, x)).table,
                    l,
                ).contains(id);
            part_is_counted(b, x);
            let other = part_blocks(b, x).table;
            let y = choose|y: int|
                #![trigger other[y]]
                0 <= y < other.len() && (block_tensor(b.tensors, other[y] as int, 2 * l) == id
                    || block_tensor(b.tensors, other[y] as int, 2 * l + 1) == id);
            let table = t.table;
            let z = choose|z: int|
                #![trigger table[z]]
                0 <= z < table.len() && (block_tensor(b.tensors, table[z] as int, 2 * i) == id
                    || block_tensor(b.tensors, table[z] as int, 2 * i + 1) == id);
            assert(other[y] < b.tensors.len() && table[z] < b.tensors.len());
            assert(false);
        }
        assert(!own.union(parts_memory(b, l)).contains(id));
    }
    table_stays(before, after, b.tensors, layers, t.table, i, t.len as int);
    table_stays(before, after, b.tensors, layers, t.table, i, t.len - b.parts[j].n);
}

/// The layers of a batch compute for each sequence what the model says of it, one after the
/// other.
pub(crate) proof fn batch_layers_compute<R>(
    k: Kernels<R>,
    mem: Memory<R>,
    b: Batch,
    hidden: TensorInfo,
    s: ScratchInfo,
    slices: Seq<LayerSlices>,
    l: int,
    used: Set<TensorId>,
)
    requires
        batch_is_sound(b),
        batch_is_apart(b, hidden, s, used),
        s.fits(b.cfg, b.total),
        all_fit(slices, b),
        0 <= l <= b.layers.len(),
        gives_fresh_memory(used, batch_layers_events(b, hidden, s, slices, l)),
    ensures
        batch_layers_left(
            k,
            mem,
            after_events(k, mem, batch_layers_events(b, hidden, s, slices, l)),
            b,
            hidden,
            s,
            used,
            l,
        ),
        in_use(used, batch_layers_events(b, hidden, s, slices, l)) == used,
    decreases l,
{
    let own = pass_memory(hidden, s);
    let pool = pool_memory(b.tensors);
    let shape = row_shape(hidden.shape);
    let h0 = mem[hidden.id];
    if l > 0 {
        let i = l - 1;
        let before = batch_layers_events(b, hidden, s, slices, i);
        let events = batch_layer_events(b, hidden, s, i, slices[i]);
        fresh_parts(used, before, events);
        batch_layers_compute(k, mem, b, hidden, s, slices, i, used);
        after_events_add(k, mem, before, events);
        in_use_add(used, before, events);
        let m = after_events(k, mem, before);
        let m2 = after_events(k, m, events);
        assert(weights_inside(b.layers[i], used));
        batched_layers_compute_the_model(k, m, b, hidden, s, i, slices[i], used);
        pool_outside_parts(b, i);
        assert(batch_layer(m, b, shape, i) == batch_layer(mem, b, shape, i));
        own_memory(hidden, s);
        assert forall|j: int| 0 <= j < b.parts.len() implies agree(
            #[trigger] shifted(m2[hidden.id], b.parts[j].offset as int),
            part_hidden(
                k,
                mem,
                b,
                shape,
                j,
                shifted(h0, b.parts[j].offset as int),
                l,
            ),
            b.parts[j].n as int,
        ) && part_cached(m2, b, i, j) == part_extended(
            k,
            mem,
            b,
            shape,
            j,
            shifted(h0, b.parts[j].offset as int),
            i,
        ) by {
            let offset = b.parts[j].offset as int;
            let n = b.parts[j].n as int;
            assert(batch_layer_left(k, m, m2, b, hidden, i, j));
            assert(part_past(m, b, i, j) == part_past(mem, b, i, j));
            let got = shifted(m[hidden.id], offset);
            let right = part_hidden(k, mem, b, shape, j, shifted(h0, offset), i);
            assert(agree(got, right, n));
            let layer = batch_layer(mem, b, shape, i);
            let positions = part_positions(b, j);
            let past = part_past(mem, b, i, j);
            layers_agree(k, layer, got, right, positions, n, past);
            let oa = layer.output(k, got, positions, n, past);
            let ob = layer.output(k, right, positions, n, past);
            let end = shifted(m2[hidden.id], offset);
            assert forall|r: int| 0 <= r < n implies #[trigger] end(r) == ob(r) by {
                assert(end(r) == oa(r));
                assert(oa(r) == ob(r));
            }
        }
        assert forall|x: int, j: int| 0 <= x < l && 0 <= j < b.parts.len() implies
            #[trigger] part_cached(m2, b, x, j) == part_extended(
            k,
            mem,
            b,
            shape,
            j,
            shifted(h0, b.parts[j].offset as int),
            x,
        ) by {
            if x < i {
                assert(part_cached(m, b, x, j) == part_extended(
                    k,
                    mem,
                    b,
                    shape,
                    j,
                    shifted(h0, b.parts[j].offset as int),
                    x,
                ));
                other_layer_stays(m, m2, b, own, used, i, x, j);
            } else {
                assert(agree(
                    shifted(m2[hidden.id], b.parts[j].offset as int),
                    part_hidden(
                        k,
                        mem,
                        b,
                        shape,
                        j,
                        shifted(h0, b.parts[j].offset as int),
                        l,
                    ),
                    b.parts[j].n as int,
                ));
            }
        }
        assert forall|x: int, j: int|
            l <= x < b.layers.len() && 0 <= j < b.parts.len() implies #[trigger] part_past(
            m2,
            b,
            x,
            j,
        ) == part_past(mem, b, x, j) by {
            assert(part_past(m, b, x, j) == part_past(mem, b, x, j));
            other_layer_stays(m, m2, b, own, used, i, x, j);
        }
    }
}

} // verus!

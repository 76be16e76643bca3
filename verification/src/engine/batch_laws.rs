//! Laws on batched passes.
use crate::base::backend::{allocated, done, DeviceCall, DeviceEvent};
use crate::base::error::{FractureError, Result};
use crate::base::program::{all_allocated, all_done, failed_with, frees, joined, joined_one};
use crate::base::tally::{
    calls, holds, paged_attentions, tally, tally_add, tally_nothing, tally_one, tally_tensors,
};
use crate::base::tensor::TensorInfo;
use crate::engine::batch_layers::{appended, have_room, limit_bounds, AppendInfo, Part};
use crate::engine::batch_pass::{Batch, BatchRun, LayerSlices};
use crate::engine::batched::{
    all_known, are_logits, batch_of, batched_end, batched_node_end, embed_events, is_hidden,
    node_accepts, node_can_hide, node_end_events, node_input_events, node_output, parts_of,
    position_runs, range_len, token_runs, BatchedOutput, SequenceSlice,
};
use crate::engine::logits::halves;
use crate::engine::node::{NodeConfig, NodeOutput, NodeOutputInfo};
use crate::engine::paged_kv_cache::{write_calls, CacheModel};
use crate::engine::paged_laws::writes_weigh_nothing;
use crate::engine::staged::{
    joined_prefixed, prefixed, staged_outcome, stages_fail_with_the_device, suffixed,
};
use crate::engine::transformer::{fetch_events, row_events, OutputInfo, ScratchInfo};
use crate::engine::weighing::{
    allocation_weighs, fetch_weighs, is_kernel, layer_work_weighs_nothing, row_weighs,
    skips_kernels,
};
use crate::engine::weights::WeightStore;
use vstd::prelude::*;

verus! {

/// A tensor that is allocated and freed weighs nothing.
pub open spec fn balances(weight: spec_fn(DeviceEvent) -> int) -> bool {
    forall|t: TensorInfo|
        #![trigger allocated(t)]
        weight(allocated(t)) + weight(done(DeviceCall::Free { tensor: t })) == 0
}

/// Rows that weigh the same.
proof fn equal_rows_weigh(
    rows: Seq<Seq<DeviceEvent>>,
    weight: spec_fn(DeviceEvent) -> int,
    each: int,
)
    requires
        forall|i: int| 0 <= i < rows.len() ==> tally(#[trigger] rows[i], weight) == each,
    ensures
        tally(joined(rows), weight) == rows.len() * each,
    decreases rows.len(),
{
    if rows.len() > 0 {
        let front = rows.drop_last();
        assert forall|i: int| 0 <= i < front.len() implies tally(#[trigger] front[i], weight)
            == each by {
            assert(front[i] == rows[i]);
        }
        equal_rows_weigh(front, weight, each);
        tally_add(joined(front), rows.last(), weight);
        assert((rows.len() - 1) * each + each == rows.len() * each) by (nonlinear_arith);
    } else {
        assert(rows.len() * each == 0) by (nonlinear_arith)
            requires
                rows.len() == 0,
        ;
    }
}

/// Stages weigh what they weigh together with what comes first and last.
proof fn framed_stages_weigh(
    stages: Seq<Seq<DeviceEvent>>,
    prefix: Seq<DeviceEvent>,
    suffix: Seq<DeviceEvent>,
    weight: spec_fn(DeviceEvent) -> int,
)
    requires
        stages.len() > 0,
    ensures
        tally(joined(suffixed(prefixed(stages, prefix), suffix)), weight) == tally(prefix, weight)
            + tally(joined(stages), weight) + tally(suffix, weight),
{
    let all = prefixed(stages, prefix);
    joined_prefixed(stages, prefix, stages.len() as int);
    assert(all.take(all.len() as int) =~= all);
    assert(stages.take(stages.len() as int) =~= stages);
    last_suffix_weighs(all, suffix, weight);
    tally_add(prefix, joined(stages), weight);
}

/// Stages weigh what they weigh together with what comes last.
proof fn last_suffix_weighs(
    stages: Seq<Seq<DeviceEvent>>,
    suffix: Seq<DeviceEvent>,
    weight: spec_fn(DeviceEvent) -> int,
)
    requires
        stages.len() > 0,
    ensures
        tally(joined(suffixed(stages, suffix)), weight) == tally(joined(stages), weight) + tally(
            suffix,
            weight,
        ),
{
    let all = suffixed(stages, suffix);
    assert(all.drop_last() =~= stages.drop_last());
    tally_add(joined(stages.drop_last()), stages.last() + suffix, weight);
    tally_add(joined(stages.drop_last()), stages.last(), weight);
    tally_add(stages.last(), suffix, weight);
}

/// The slicing of a part weighs what its two slices weigh.
proof fn slicing_weighs(
    a: AppendInfo,
    ks: Seq<TensorInfo>,
    vs: Seq<TensorInfo>,
    j: int,
    weight: spec_fn(DeviceEvent) -> int,
)
    requires
        skips_kernels(weight),
        0 <= j < a.parts.len(),
    ensures
        tally(a.slicing(ks, vs, j), weight) == weight(allocated(ks[j])) + weight(allocated(vs[j])),
{
    let events = a.slicing(ks, vs, j);
    assert(is_kernel(events[2].call) && is_kernel(events[3].call));
    assert(events =~= seq![events[0]] + seq![events[1]] + events.skip(2));
    tally_one(events[0], weight);
    tally_one(events[1], weight);
    tally_nothing(events.skip(2), weight);
    tally_add(seq![events[0]], seq![events[1]], weight);
    tally_add(seq![events[0]] + seq![events[1]], events.skip(2), weight);
}

/// The storing of a part weighs what the release of its two slices weighs.
proof fn storing_weighs(
    a: AppendInfo,
    ks: Seq<TensorInfo>,
    vs: Seq<TensorInfo>,
    j: int,
    weight: spec_fn(DeviceEvent) -> int,
)
    requires
        skips_kernels(weight),
        0 < j <= a.parts.len(),
    ensures
        tally(a.storing(ks, vs, j), weight) == weight(done(DeviceCall::Free { tensor: ks[j - 1] }))
            + weight(done(DeviceCall::Free { tensor: vs[j - 1] })),
{
    let t = a.after(j).seqs[a.parts[j - 1].handle.0];
    let n = a.parts[j - 1].n as int;
    let writes = all_done(
        write_calls(
            a.tensors,
            t,
            a.layer,
            ks[j - 1],
            vs[j - 1],
            n,
        ),
    );
    writes_weigh_nothing(a.tensors, t, a.layer, ks[j - 1], vs[j - 1], n, weight);
    let drops = all_done(frees(seq![ks[j - 1], vs[j - 1]]));
    assert(drops =~= seq![drops[0]] + seq![drops[1]]);
    tally_one(drops[0], weight);
    tally_one(drops[1], weight);
    tally_add(seq![drops[0]], seq![drops[1]], weight);
    tally_add(writes, drops, weight);
}

/// After `k` stages of appending, the slices of part `k - 1` are held, if there is one.
proof fn appending_weighs(
    a: AppendInfo,
    ks: Seq<TensorInfo>,
    vs: Seq<TensorInfo>,
    k: int,
    weight: spec_fn(DeviceEvent) -> int,
)
    requires
        skips_kernels(weight),
        balances(weight),
        0 < k <= a.parts.len() + 1,
    ensures
        tally(joined(a.stages(ks, vs).take(k)), weight) == if k <= a.parts.len() {
            weight(allocated(ks[k - 1])) + weight(allocated(vs[k - 1]))
        } else {
            0
        },
    decreases k,
{
    let stages = a.stages(ks, vs);
    let some = stages.take(k);
    let j = k - 1;
    assert(some.drop_last() =~= stages.take(j));
    assert(some.last() == a.storing(ks, vs, j) + a.slicing(ks, vs, j));
    tally_add(joined(stages.take(j)), some.last(), weight);
    tally_add(a.storing(ks, vs, j), a.slicing(ks, vs, j), weight);
    if j < a.parts.len() {
        slicing_weighs(a, ks, vs, j, weight);
    }
    if j > 0 {
        storing_weighs(a, ks, vs, j, weight);
        appending_weighs(a, ks, vs, j, weight);
    } else {
        assert(stages.take(0) =~= Seq::empty());
    }
}

/// Attention of one part weighs what the call weighs.
proof fn row_of_attention_weighs(
    b: Batch,
    s: ScratchInfo,
    l: int,
    q: TensorInfo,
    o: TensorInfo,
    j: int,
    weight: spec_fn(DeviceEvent) -> int,
    attention: int,
)
    requires
        skips_kernels(weight),
        balances(weight),
        forall|e: DeviceEvent| #[trigger] e.call is AttentionPaged ==> weight(e) == attention,
    ensures
        tally(b.attend(s, l).row(q, o, j), weight) == attention,
{
    let events = b.attend(s, l).row(q, o, j);
    assert(is_kernel(events[1].call) && is_kernel(events[4].call));
    assert(events[3].call is AttentionPaged);
    assert(weight(allocated(q)) + weight(done(DeviceCall::Free { tensor: q })) == 0);
    assert(weight(allocated(o)) + weight(done(DeviceCall::Free { tensor: o })) == 0);
    reveal_with_fuel(tally, 8);
    assert(events.drop_last() =~= events.take(6));
    assert(events.take(6).drop_last() =~= events.take(5));
    assert(events.take(5).drop_last() =~= events.take(4));
    assert(events.take(4).drop_last() =~= events.take(3));
    assert(events.take(3).drop_last() =~= events.take(2));
    assert(events.take(2).drop_last() =~= events.take(1));
    assert(events.take(1).drop_last() =~= Seq::<DeviceEvent>::empty());
}

/// A layer weighs what attention of all parts weighs.
proof fn batch_layer_weighs(
    b: Batch,
    hidden: TensorInfo,
    s: ScratchInfo,
    l: int,
    sl: LayerSlices,
    weight: spec_fn(DeviceEvent) -> int,
    attention: int,
)
    requires
        skips_kernels(weight),
        balances(weight),
        forall|e: DeviceEvent| #[trigger] e.call is AttentionPaged ==> weight(e) == attention,
    ensures
        tally(joined(b.layer_stages(hidden, s, l, sl)), weight) == b.parts.len() * attention,
{
    let a = b.append(s, l);
    let stages = a.stages(sl.ks, sl.vs);
    let project = b.project(hidden, s, l);
    let finish = b.finish(hidden, s, l);
    let rows = b.attend(s, l).rows(sl.qs, sl.os);
    layer_work_weighs_nothing(b.cfg, b.layers[l], hidden, s, b.total, b.positions, weight);
    appending_weighs(a, sl.ks, sl.vs, stages.len() as int, weight);
    assert(stages.take(stages.len() as int) =~= stages);
    assert forall|j: int| 0 <= j < rows.len() implies tally(#[trigger] rows[j], weight)
        == attention by {
        row_of_attention_weighs(b, s, l, sl.qs[j], sl.os[j], j, weight, attention);
    }
    equal_rows_weigh(rows, weight, attention);
    tally_add(joined(rows), finish, weight);
    framed_stages_weigh(stages, project, b.close(hidden, s, l, sl), weight);
}

/// What the layers after the first weigh.
proof fn later_layers_weigh(
    b: Batch,
    hidden: TensorInfo,
    s: ScratchInfo,
    slices: Seq<LayerSlices>,
    from: int,
    to: int,
    weight: spec_fn(DeviceEvent) -> int,
    attention: int,
)
    requires
        from <= to,
        skips_kernels(weight),
        balances(weight),
        forall|e: DeviceEvent| #[trigger] e.call is AttentionPaged ==> weight(e) == attention,
    ensures
        tally(b.later(hidden, s, slices, from, to), weight) == (to - from) * (b.parts.len()
            * attention),
    decreases to - from,
{
    let each = b.parts.len() * attention;
    if from < to {
        later_layers_weigh(b, hidden, s, slices, from, to - 1, weight, attention);
        batch_layer_weighs(b, hidden, s, to - 1, slices[to - 1], weight, attention);
        tally_add(
            b.later(hidden, s, slices, from, to - 1),
            joined(b.layer_stages(hidden, s, to - 1, slices[to - 1])),
            weight,
        );
        assert((to - 1 - from) * each + each == (to - from) * each) by (nonlinear_arith);
    } else {
        assert((to - from) * each == 0) by (nonlinear_arith)
            requires
                to == from,
        ;
    }
}

/// What all layers weigh.
proof fn batch_stages_weigh(
    b: Batch,
    hidden: TensorInfo,
    s: ScratchInfo,
    slices: Seq<LayerSlices>,
    weight: spec_fn(DeviceEvent) -> int,
    attention: int,
)
    requires
        skips_kernels(weight),
        balances(weight),
        forall|e: DeviceEvent| #[trigger] e.call is AttentionPaged ==> weight(e) == attention,
    ensures
        b.stages(hidden, s, slices).len() > 0,
        tally(joined(b.stages(hidden, s, slices)), weight) == b.layers.len() * (b.parts.len()
            * attention),
{
    let len = b.layers.len() as int;
    let each = b.parts.len() * attention;
    if len == 0 {
        joined_one(Seq::<DeviceEvent>::empty());
        assert(len * each == 0) by (nonlinear_arith)
            requires
                len == 0,
        ;
    } else {
        batch_layer_weighs(b, hidden, s, 0, slices[0], weight, attention);
        later_layers_weigh(b, hidden, s, slices, 1, len, weight, attention);
        last_suffix_weighs(
            b.layer_stages(hidden, s, 0, slices[0]),
            b.later(hidden, s, slices, 1, len),
            weight,
        );
        assert((len - 1) * each + each == len * each) by (nonlinear_arith);
    }
}

/// What a finished batch weighs.
proof fn batch_weighs(
    b: Batch,
    run: BatchRun,
    input: Seq<DeviceEvent>,
    end: Seq<DeviceEvent>,
    exhausted: FractureError,
    before: Seq<DeviceEvent>,
    after: Seq<DeviceEvent>,
    cache: CacheModel,
    weight: spec_fn(DeviceEvent) -> int,
    attention: int,
)
    requires
        run.ends(b, input, end, exhausted, before, after, cache, None),
        skips_kernels(weight),
        balances(weight),
        forall|e: DeviceEvent| #[trigger] e.call is AttentionPaged ==> weight(e) == attention,
    ensures
        tally(after, weight) - tally(before, weight) == tally(input, weight) + tally(
            all_allocated(run.scratch.list()),
            weight,
        ) + tally(end, weight) + b.layers.len() * (b.parts.len() * attention),
{
    reveal(staged_outcome);
    let stages = b.stages(run.hidden, run.scratch, run.slices);
    let prefix = input + all_allocated(run.scratch.list());
    batch_stages_weigh(b, run.hidden, run.scratch, run.slices, weight, attention);
    framed_stages_weigh(stages, prefix, end, weight);
    tally_add(input, all_allocated(run.scratch.list()), weight);
    tally_add(before, joined(suffixed(prefixed(stages, prefix), end)), weight);
}

/// The embedding of the tokens weighs what the hidden state weighs.
proof fn embedding_weighs(
    weights: WeightStore,
    ids: Seq<u32>,
    hidden: TensorInfo,
    weight: spec_fn(DeviceEvent) -> int,
)
    requires
        skips_kernels(weight),
    ensures
        tally(embed_events(weights, ids, hidden), weight) == weight(allocated(hidden)),
{
    let events = embed_events(weights, ids, hidden);
    assert(is_kernel(events[1].call));
    assert(events =~= seq![events[0]] + seq![events[1]]);
    tally_one(events[0], weight);
    tally_one(events[1], weight);
    tally_add(seq![events[0]], seq![events[1]], weight);
}

/// The release of the tensors of a pass weighs what they weigh, with the opposite sign.
proof fn release_weighs(
    b: Batch,
    hidden: TensorInfo,
    owned: bool,
    s: ScratchInfo,
    weight: spec_fn(DeviceEvent) -> int,
)
    requires
        skips_kernels(weight),
        balances(weight),
    ensures
        tally(b.release_events(hidden, owned, s), weight) + tally(all_allocated(s.list()), weight)
            + (if owned {
            weight(allocated(hidden))
        } else {
            0
        }) == 0,
{
    let own = if owned {
        seq![hidden]
    } else {
        Seq::empty()
    };
    let sync = done(DeviceCall::Synchronize);
    assert(is_kernel(sync.call));
    let drops = all_done(frees(own + s.list()));
    assert(b.release_events(hidden, owned, s) =~= seq![sync] + drops);
    tally_one(sync, weight);
    tally_add(seq![sync], drops, weight);
    tally_tensors(own + s.list(), weight);
    assert(all_allocated(own + s.list()) =~= all_allocated(own) + all_allocated(s.list()));
    tally_add(all_allocated(own), all_allocated(s.list()), weight);
    if owned {
        allocation_weighs(hidden, weight);
    } else {
        assert(all_allocated(own) =~= Seq::empty());
    }
}

/// The output phase weighs what the release of the tensors of the pass weighs.
proof fn batch_output_weighs(
    b: Batch,
    hidden: TensorInfo,
    owned: bool,
    s: ScratchInfo,
    rows: Seq<OutputInfo>,
    weight: spec_fn(DeviceEvent) -> int,
)
    requires
        skips_kernels(weight),
        balances(weight),
    ensures
        tally(b.output_events(hidden, owned, s, rows), weight) == tally(
            b.release_events(hidden, owned, s),
            weight,
        ),
{
    let events = b.output_events(hidden, owned, s, rows);
    let norm = events[0];
    assert(is_kernel(norm.call));
    let outs = b.output_rows(s, rows);
    assert forall|j: int| 0 <= j < outs.len() implies tally(#[trigger] outs[j], weight) == 0 by {
        let o = rows[j];
        let fetch = fetch_events(s.normed, b.last_row(j), o.last);
        let row = row_events(o.last, b.lm_head, o.logits, o.bytes);
        let drops = all_done(frees(seq![o.last, o.logits]));
        fetch_weighs(s.normed, b.last_row(j), o.last, weight);
        row_weighs(o.last, b.lm_head, o.logits, o.bytes, weight);
        assert(drops =~= seq![drops[0]] + seq![drops[1]]);
        tally_one(drops[0], weight);
        tally_one(drops[1], weight);
        tally_add(seq![drops[0]], seq![drops[1]], weight);
        tally_add(fetch, row, weight);
        tally_add(fetch + row, drops, weight);
        assert(weight(allocated(o.last)) + weight(done(DeviceCall::Free { tensor: o.last })) == 0);
        assert(weight(allocated(o.logits)) + weight(done(DeviceCall::Free { tensor: o.logits }))
            == 0);
    }
    equal_rows_weigh(outs, weight, 0);
    tally_one(norm, weight);
    assert(seq![norm] == seq![events[0]]);
    tally_add(seq![norm], joined(outs), weight);
    tally_add(seq![norm] + joined(outs), b.release_events(hidden, owned, s), weight);
    assert(events =~= seq![norm] + joined(outs) + b.release_events(hidden, owned, s));
}

/// A finished batched pass frees every tensor that it allocated as often as it
/// allocated it, and no other.
pub proof fn batches_free_what_they_allocate(
    weights: WeightStore,
    num_layers: int,
    seqs: Seq<SequenceSlice>,
    tensors: Seq<Seq<TensorInfo>>,
    exhausted: FractureError,
    m: CacheModel,
    before: Seq<DeviceEvent>,
    cache: CacheModel,
    after: Seq<DeviceEvent>,
    res: Result<BatchedOutput>,
    t: TensorInfo,
)
    requires
        batched_end(
            weights,
            num_layers,
            seqs,
            tensors,
            exhausted,
            m,
            before,
            cache,
            after,
            res,
        ),
        res is Ok,
    ensures
        tally(after, holds(t)) == tally(before, holds(t)),
{
    if seqs.len() > 0 {
        let b = batch_of(weights, num_layers, seqs, token_runs(seqs), m, tensors);
        let ids = joined(token_runs(seqs));
        let run = finished_batch(
            weights,
            num_layers,
            seqs,
            tensors,
            exhausted,
            m,
            before,
            cache,
            after,
            res,
        );
        let input = embed_events(weights, ids, run.hidden);
        let end = b.output_events(run.hidden, true, run.scratch, run.rows);
        batch_weighs(b, run, input, end, exhausted, before, after, cache, holds(t), 0);
        nothing_times(b.layers.len(), b.parts.len());
        embedding_weighs(weights, ids, run.hidden, holds(t));
        batch_output_weighs(b, run.hidden, true, run.scratch, run.rows, holds(t));
        release_weighs(b, run.hidden, true, run.scratch, holds(t));
    }
}

/// A product with nothing.
proof fn nothing_times(a: nat, b: nat)
    ensures
        a * (b * 0) == 0,
{
    assert(a * (b * 0) == 0) by (nonlinear_arith);
}

/// The device values that a finished batched pass met.
proof fn finished_batch(
    weights: WeightStore,
    num_layers: int,
    seqs: Seq<SequenceSlice>,
    tensors: Seq<Seq<TensorInfo>>,
    exhausted: FractureError,
    m: CacheModel,
    before: Seq<DeviceEvent>,
    cache: CacheModel,
    after: Seq<DeviceEvent>,
    res: Result<BatchedOutput>,
) -> (run: BatchRun)
    requires
        batched_end(
            weights,
            num_layers,
            seqs,
            tensors,
            exhausted,
            m,
            before,
            cache,
            after,
            res,
        ),
        seqs.len() > 0,
        res is Ok,
    ensures
        ({
            let b = batch_of(weights, num_layers, seqs, token_runs(seqs), m, tensors);
            run.ends(
                b,
                embed_events(weights, joined(token_runs(seqs)), run.hidden),
                b.output_events(run.hidden, true, run.scratch, run.rows),
                exhausted,
                before,
                after,
                cache,
                None,
            )
        }),
{
    let b = batch_of(weights, num_layers, seqs, token_runs(seqs), m, tensors);
    choose|run: BatchRun|
        is_hidden(run.hidden, b.cfg, b.total) && run.fits(b) && (res matches Ok(out) ==> are_logits(
            out.logits@,
            run.rows,
        )) && #[trigger] run.ends(
            b,
            embed_events(weights, joined(token_runs(seqs)), run.hidden),
            b.output_events(run.hidden, true, run.scratch, run.rows),
            exhausted,
            before,
            after,
            cache,
            None,
        )
}

/// A finished batched pass runs attention once for each layer and sequence.
pub proof fn batches_attend_once(
    weights: WeightStore,
    num_layers: int,
    seqs: Seq<SequenceSlice>,
    tensors: Seq<Seq<TensorInfo>>,
    exhausted: FractureError,
    m: CacheModel,
    before: Seq<DeviceEvent>,
    cache: CacheModel,
    after: Seq<DeviceEvent>,
    res: Result<BatchedOutput>,
)
    requires
        batched_end(
            weights,
            num_layers,
            seqs,
            tensors,
            exhausted,
            m,
            before,
            cache,
            after,
            res,
        ),
        res is Ok,
        num_layers >= 0,
    ensures
        tally(after, calls(paged_attentions())) - tally(before, calls(paged_attentions()))
            == num_layers * seqs.len(),
{
    let attends = calls(paged_attentions());
    if seqs.len() > 0 {
        let b = batch_of(weights, num_layers, seqs, token_runs(seqs), m, tensors);
        let ids = joined(token_runs(seqs));
        let run = finished_batch(
            weights,
            num_layers,
            seqs,
            tensors,
            exhausted,
            m,
            before,
            cache,
            after,
            res,
        );
        let input = embed_events(weights, ids, run.hidden);
        let end = b.output_events(run.hidden, true, run.scratch, run.rows);
        batch_weighs(b, run, input, end, exhausted, before, after, cache, attends, 1);
        embedding_weighs(weights, ids, run.hidden, attends);
        batch_output_weighs(b, run.hidden, true, run.scratch, run.rows, attends);
        release_weighs(b, run.hidden, true, run.scratch, attends);
    } else {
        assert(num_layers * seqs.len() == 0) by (nonlinear_arith)
            requires
                seqs.len() == 0,
        ;
    }
}

/// A finished batched pass of a node frees every tensor that it allocated as often as
/// it allocated it, and no other, but for the activations that it made and hands on.
pub proof fn node_batches_free_what_they_allocate(
    weights: WeightStore,
    node: NodeConfig,
    seqs: Seq<SequenceSlice>,
    input: Option<TensorInfo>,
    tensors: Seq<Seq<TensorInfo>>,
    exhausted: FractureError,
    m: CacheModel,
    before: Seq<DeviceEvent>,
    cache: CacheModel,
    after: Seq<DeviceEvent>,
    res: Result<NodeOutput>,
    t: TensorInfo,
)
    requires
        batched_node_end(
            weights,
            node,
            seqs,
            input,
            tensors,
            exhausted,
            m,
            before,
            cache,
            after,
            res,
        ),
        res is Ok,
    ensures
        tally(after, holds(t)) - tally(before, holds(t)) == if node.head() && res->Ok_0@
            == NodeOutputInfo::Activations(t) {
            1int
        } else {
            0
        },
{
    let b = batch_of(
        weights,
        range_len(node.layer_range),
        seqs,
        position_runs(seqs),
        m,
        tensors,
    );
    let run = finished_node_batch(
        weights,
        node,
        seqs,
        input,
        tensors,
        exhausted,
        m,
        before,
        cache,
        after,
        res,
    );
    let begin = node_input_events(weights, node, seqs, run.hidden);
    let end = node_end_events(b, node, run);
    batch_weighs(b, run, begin, end, exhausted, before, after, cache, holds(t), 0);
    nothing_times(b.layers.len(), b.parts.len());
    if node.head() {
        embedding_weighs(weights, joined(token_runs(seqs)), run.hidden, holds(t));
    }
    if node.tail() {
        batch_output_weighs(b, run.hidden, node.head(), run.scratch, run.rows, holds(t));
        release_weighs(b, run.hidden, node.head(), run.scratch, holds(t));
    } else {
        release_weighs(b, run.hidden, false, run.scratch, holds(t));
    }
}

/// A finished batched pass gives, for each sequence, one logit for each word of the
/// vocabulary.
pub proof fn batch_logits_cover_the_vocabulary(
    weights: WeightStore,
    num_layers: int,
    seqs: Seq<SequenceSlice>,
    tensors: Seq<Seq<TensorInfo>>,
    exhausted: FractureError,
    m: CacheModel,
    before: Seq<DeviceEvent>,
    cache: CacheModel,
    after: Seq<DeviceEvent>,
    res: Result<BatchedOutput>,
)
    requires
        batched_end(
            weights,
            num_layers,
            seqs,
            tensors,
            exhausted,
            m,
            before,
            cache,
            after,
            res,
        ),
        res is Ok,
    ensures
        res->Ok_0.logits@.len() == seqs.len(),
        forall|j: int|
            0 <= j < seqs.len() ==> (#[trigger] res->Ok_0.logits@[j])@.len()
                == weights.config.vocab_size,
{
}

/// The tokens that the first `j` parts hold of a sequence.
pub open spec fn tokens_for(parts: Seq<Part>, id: u64, j: int) -> int
    decreases j,
{
    if j <= 0 {
        0
    } else {
        tokens_for(parts, id, j - 1) + if parts[j - 1].handle.0 == id {
            parts[j - 1].n as int
        } else {
            0
        }
    }
}

/// Parts hold no negative number of tokens.
proof fn tokens_for_grows(parts: Seq<Part>, id: u64, i: int, j: int)
    requires
        i <= j,
    ensures
        tokens_for(parts, id, i) <= tokens_for(parts, id, j),
    decreases j - i,
{
    if i < j {
        tokens_for_grows(parts, id, i, j - 1);
    }
}

/// Counting parts in makes a sequence longer by the tokens that they hold of it.
proof fn appended_length(m: CacheModel, parts: Seq<Part>, id: u64, j: int)
    requires
        0 <= j <= parts.len(),
        m.seqs[id].len + tokens_for(parts, id, j) <= usize::MAX,
    ensures
        appended(m, parts, 0, j).seqs[id].len == m.seqs[id].len + tokens_for(parts, id, j),
        (forall|i: int| 0 <= i < j ==> (#[trigger] parts[i]).handle.0 != id) ==> appended(
            m,
            parts,
            0,
            j,
        ).seqs[id] == m.seqs[id],
    decreases j,
{
    if j > 0 {
        tokens_for_grows(parts, id, j - 1, j);
        tokens_for_grows(parts, id, 0, j - 1);
        appended_length(m, parts, id, j - 1);
    }
}

/// A finished batched pass through some layers makes every sequence longer by the
/// tokens that the batch holds of it, and leaves the sequences that are not in the
/// batch as they were.
pub proof fn batches_append_their_tokens(
    weights: WeightStore,
    num_layers: int,
    seqs: Seq<SequenceSlice>,
    tensors: Seq<Seq<TensorInfo>>,
    exhausted: FractureError,
    m: CacheModel,
    before: Seq<DeviceEvent>,
    cache: CacheModel,
    after: Seq<DeviceEvent>,
    res: Result<BatchedOutput>,
    id: u64,
)
    requires
        batched_end(
            weights,
            num_layers,
            seqs,
            tensors,
            exhausted,
            m,
            before,
            cache,
            after,
            res,
        ),
        res is Ok,
        num_layers > 0,
        ({
            let parts = batch_of(weights, num_layers, seqs, token_runs(seqs), m, tensors).parts;
            m.seqs[id].len + tokens_for(parts, id, seqs.len() as int) <= usize::MAX
        }),
    ensures
        ({
            let parts = batch_of(weights, num_layers, seqs, token_runs(seqs), m, tensors).parts;
            &&& cache.seqs[id].len == m.seqs[id].len + tokens_for(parts, id, seqs.len() as int)
            &&& (forall|j: int| 0 <= j < seqs.len() ==> (#[trigger] seqs[j]).handle.0 != id)
                ==> cache.seqs[id] == m.seqs[id]
        }),
{
    let b = batch_of(weights, num_layers, seqs, token_runs(seqs), m, tensors);
    if seqs.len() > 0 {
        let run = finished_batch(
            weights,
            num_layers,
            seqs,
            tensors,
            exhausted,
            m,
            before,
            cache,
            after,
            res,
        );
        reveal(staged_outcome);
        assert(cache == b.caches(run.scratch).last());
        assert(cache == appended(m, b.parts, 0, b.parts.len() as int));
        appended_length(m, b.parts, id, b.parts.len() as int);
    }
}

/// A batch with room for all its parts is stopped only by the device.
proof fn batch_fails_with_the_device(
    b: Batch,
    run: BatchRun,
    input: Seq<DeviceEvent>,
    end: Seq<DeviceEvent>,
    exhausted: FractureError,
    before: Seq<DeviceEvent>,
    after: Seq<DeviceEvent>,
    cache: CacheModel,
    e: FractureError,
)
    requires
        run.ends(b, input, end, exhausted, before, after, cache, Some(e)),
        b.layers.len() > 0 ==> have_room(b.cache, b.parts, 0, b.parts.len() as int),
    ensures
        failed_with(before, after, e),
{
    reveal(staged_outcome);
    let prefix = input + all_allocated(run.scratch.list());
    let inner = b.stages(run.hidden, run.scratch, run.slices);
    let stages = suffixed(prefixed(inner, prefix), end);
    let caches = b.caches(run.scratch);
    let limit = b.limit(run.scratch);
    if b.layers.len() > 0 {
        limit_bounds(b.append(run.scratch, 0));
    }
    assert(limit == stages.len());
    assert(stages.take(limit) =~= stages);
    stages_fail_with_the_device(
        stages.take(limit),
        caches.take(limit),
        before,
        after,
        cache,
        e,
    );
}

/// A batched pass of known sequences for which there are blocks fails only where the device
/// does, with the device's error: where every call succeeds, so does the pass.
pub proof fn batches_fail_only_with_the_device(
    weights: WeightStore,
    num_layers: int,
    seqs: Seq<SequenceSlice>,
    tensors: Seq<Seq<TensorInfo>>,
    exhausted: FractureError,
    m: CacheModel,
    before: Seq<DeviceEvent>,
    cache: CacheModel,
    after: Seq<DeviceEvent>,
    res: Result<BatchedOutput>,
)
    requires
        batched_end(
            weights,
            num_layers,
            seqs,
            tensors,
            exhausted,
            m,
            before,
            cache,
            after,
            res,
        ),
        all_known(seqs, m),
        num_layers >= 0,
        num_layers > 0 ==> have_room(
            m,
            parts_of(seqs, token_runs(seqs), m),
            0,
            seqs.len() as int,
        ),
    ensures
        res matches Err(e) ==> failed_with(before, after, e),
{
    if let Err(e) = res {
        let b = batch_of(weights, num_layers, seqs, token_runs(seqs), m, tensors);
        let ids = joined(token_runs(seqs));
        let run = choose|run: BatchRun|
            is_hidden(run.hidden, b.cfg, b.total) && run.fits(b) && (res matches Ok(out)
                ==> are_logits(out.logits@, run.rows)) && #[trigger] run.ends(
                b,
                embed_events(weights, ids, run.hidden),
                b.output_events(run.hidden, true, run.scratch, run.rows),
                exhausted,
                before,
                after,
                cache,
                Some(e),
            );
        batch_fails_with_the_device(
            b,
            run,
            embed_events(weights, ids, run.hidden),
            b.output_events(run.hidden, true, run.scratch, run.rows),
            exhausted,
            before,
            after,
            cache,
            e,
        );
    }
}

/// A batched pass of a node that takes its input, with known sequences for which there are
/// blocks, fails only where the device does, with the device's error: where every call
/// succeeds, so does the pass.
pub proof fn node_batches_fail_only_with_the_device(
    weights: WeightStore,
    node: NodeConfig,
    seqs: Seq<SequenceSlice>,
    input: Option<TensorInfo>,
    tensors: Seq<Seq<TensorInfo>>,
    exhausted: FractureError,
    m: CacheModel,
    before: Seq<DeviceEvent>,
    cache: CacheModel,
    after: Seq<DeviceEvent>,
    res: Result<NodeOutput>,
)
    requires
        batched_node_end(
            weights,
            node,
            seqs,
            input,
            tensors,
            exhausted,
            m,
            before,
            cache,
            after,
            res,
        ),
        node_accepts(weights, node, seqs, input),
        all_known(seqs, m),
        range_len(node.layer_range) > 0 ==> have_room(
            m,
            parts_of(seqs, position_runs(seqs), m),
            0,
            seqs.len() as int,
        ),
    ensures
        res matches Err(e) ==> failed_with(before, after, e),
{
    if let Err(e) = res {
        let b = batch_of(
            weights,
            range_len(node.layer_range),
            seqs,
            position_runs(seqs),
            m,
            tensors,
        );
        let run = choose|run: BatchRun|
            node_can_hide(b, node, input, run.hidden) && run.fits(b) && (res matches Ok(out)
                ==> out@ == node_output(node, run)) && #[trigger] run.ends(
                b,
                node_input_events(weights, node, seqs, run.hidden),
                node_end_events(b, node, run),
                exhausted,
                before,
                after,
                cache,
                Some(e),
            );
        batch_fails_with_the_device(
            b,
            run,
            node_input_events(weights, node, seqs, run.hidden),
            node_end_events(b, node, run),
            exhausted,
            before,
            after,
            cache,
            e,
        );
    }
}

/// The device values that a finished batched pass of a node met.
proof fn finished_node_batch(
    weights: WeightStore,
    node: NodeConfig,
    seqs: Seq<SequenceSlice>,
    input: Option<TensorInfo>,
    tensors: Seq<Seq<TensorInfo>>,
    exhausted: FractureError,
    m: CacheModel,
    before: Seq<DeviceEvent>,
    cache: CacheModel,
    after: Seq<DeviceEvent>,
    res: Result<NodeOutput>,
) -> (run: BatchRun)
    requires
        batched_node_end(
            weights,
            node,
            seqs,
            input,
            tensors,
            exhausted,
            m,
            before,
            cache,
            after,
            res,
        ),
        res is Ok,
    ensures
        ({
            let b = batch_of(
                weights,
                range_len(node.layer_range),
                seqs,
                position_runs(seqs),
                m,
                tensors,
            );
            &&& node_accepts(weights, node, seqs, input)
            &&& node_can_hide(b, node, input, run.hidden)
            &&& run.fits(b)
            &&& res->Ok_0@ == node_output(node, run)
            &&& run.ends(
                b,
                node_input_events(weights, node, seqs, run.hidden),
                node_end_events(b, node, run),
                exhausted,
                before,
                after,
                cache,
                None,
            )
        }),
{
    let b = batch_of(
        weights,
        range_len(node.layer_range),
        seqs,
        position_runs(seqs),
        m,
        tensors,
    );
    choose|run: BatchRun|
        node_can_hide(b, node, input, run.hidden) && run.fits(b) && (res matches Ok(out) ==> out@
            == node_output(node, run)) && #[trigger] run.ends(
            b,
            node_input_events(weights, node, seqs, run.hidden),
            node_end_events(b, node, run),
            exhausted,
            before,
            after,
            cache,
            None,
        )
}

/// Rows of one length are together as long as their number says.
proof fn equal_rows_length<T>(rows: Seq<Seq<T>>, n: int)
    requires
        forall|i: int| 0 <= i < rows.len() ==> (#[trigger] rows[i]).len() == n,
    ensures
        joined(rows).len() == rows.len() * n,
    decreases rows.len(),
{
    if rows.len() > 0 {
        equal_rows_length(rows.drop_last(), n);
        assert((rows.len() - 1) * n + n == rows.len() * n) by (nonlinear_arith);
    } else {
        assert(rows.len() * n == 0) by (nonlinear_arith)
            requires
                rows.len() == 0,
        ;
    }
}

/// How many logits the last node gives.
proof fn node_logits_length(b: Batch, node: NodeConfig, run: BatchRun)
    requires
        node.tail(),
        b.rows_fit(run.rows),
    ensures
        node_output(node, run) matches NodeOutputInfo::Logits(l) && l.len() == b.parts.len()
            * b.cfg.vocab_size,
{
    let v = b.cfg.vocab_size as int;
    let rows = run.rows.map_values(|o: OutputInfo| halves(o.bytes));
    assert forall|i: int| 0 <= i < rows.len() implies (#[trigger] rows[i]).len() == v by {
        assert(run.rows[i].fits(b.cfg));
    }
    equal_rows_length(rows, v);
}

/// A finished batched pass of the last node gives, for each sequence, one logit for each
/// word of the vocabulary; that of any other node gives the hidden state of all tokens: a
/// tensor of its own if it is the first node, else the one that it was given.
pub proof fn node_batches_give_what_is_due(
    weights: WeightStore,
    node: NodeConfig,
    seqs: Seq<SequenceSlice>,
    input: Option<TensorInfo>,
    tensors: Seq<Seq<TensorInfo>>,
    exhausted: FractureError,
    m: CacheModel,
    before: Seq<DeviceEvent>,
    cache: CacheModel,
    after: Seq<DeviceEvent>,
    res: Result<NodeOutput>,
)
    requires
        batched_node_end(
            weights,
            node,
            seqs,
            input,
            tensors,
            exhausted,
            m,
            before,
            cache,
            after,
            res,
        ),
        res is Ok,
        joined(position_runs(seqs)).len() <= usize::MAX,
    ensures
        node.tail() ==> (res->Ok_0@ matches NodeOutputInfo::Logits(l) && l.len() == seqs.len()
            * weights.config.vocab_size),
        !node.tail() ==> (res->Ok_0@ matches NodeOutputInfo::Activations(t) && t.shape[0]
            == joined(position_runs(seqs)).len() && t.shape[1] == weights.config.hidden_size && (
        !node.head() ==> input == Some(t))),
{
    let run = finished_node_batch(
        weights,
        node,
        seqs,
        input,
        tensors,
        exhausted,
        m,
        before,
        cache,
        after,
        res,
    );
    if node.tail() {
        let b = batch_of(
            weights,
            range_len(node.layer_range),
            seqs,
            position_runs(seqs),
            m,
            tensors,
        );
        node_logits_length(b, node, run);
    }
}

/// A finished batched pass of a node runs attention once for each layer and sequence.
pub proof fn node_batches_attend_once(
    weights: WeightStore,
    node: NodeConfig,
    seqs: Seq<SequenceSlice>,
    input: Option<TensorInfo>,
    tensors: Seq<Seq<TensorInfo>>,
    exhausted: FractureError,
    m: CacheModel,
    before: Seq<DeviceEvent>,
    cache: CacheModel,
    after: Seq<DeviceEvent>,
    res: Result<NodeOutput>,
)
    requires
        batched_node_end(
            weights,
            node,
            seqs,
            input,
            tensors,
            exhausted,
            m,
            before,
            cache,
            after,
            res,
        ),
        res is Ok,
    ensures
        tally(after, calls(paged_attentions())) - tally(before, calls(paged_attentions()))
            == range_len(node.layer_range) * seqs.len(),
{
    let attends = calls(paged_attentions());
    let b = batch_of(
        weights,
        range_len(node.layer_range),
        seqs,
        position_runs(seqs),
        m,
        tensors,
    );
    let run = finished_node_batch(
        weights,
        node,
        seqs,
        input,
        tensors,
        exhausted,
        m,
        before,
        cache,
        after,
        res,
    );
    let begin = node_input_events(weights, node, seqs, run.hidden);
    let end = node_end_events(b, node, run);
    batch_weighs(b, run, begin, end, exhausted, before, after, cache, attends, 1);
    if node.head() {
        embedding_weighs(weights, joined(token_runs(seqs)), run.hidden, attends);
    }
    if node.tail() {
        batch_output_weighs(b, run.hidden, node.head(), run.scratch, run.rows, attends);
        release_weighs(b, run.hidden, node.head(), run.scratch, attends);
    } else {
        release_weighs(b, run.hidden, false, run.scratch, attends);
    }
}

/// A finished batched pass of a node through some layers makes every sequence longer by the
/// tokens that the batch holds of it, and leaves the sequences that are not in the batch
/// as they were.
pub proof fn node_batches_append_their_tokens(
    weights: WeightStore,
    node: NodeConfig,
    seqs: Seq<SequenceSlice>,
    input: Option<TensorInfo>,
    tensors: Seq<Seq<TensorInfo>>,
    exhausted: FractureError,
    m: CacheModel,
    before: Seq<DeviceEvent>,
    cache: CacheModel,
    after: Seq<DeviceEvent>,
    res: Result<NodeOutput>,
    id: u64,
)
    requires
        batched_node_end(
            weights,
            node,
            seqs,
            input,
            tensors,
            exhausted,
            m,
            before,
            cache,
            after,
            res,
        ),
        res is Ok,
        range_len(node.layer_range) > 0,
        ({
            let parts = parts_of(seqs, position_runs(seqs), m);
            m.seqs[id].len + tokens_for(parts, id, seqs.len() as int) <= usize::MAX
        }),
    ensures
        ({
            let parts = parts_of(seqs, position_runs(seqs), m);
            &&& cache.seqs[id].len == m.seqs[id].len + tokens_for(parts, id, seqs.len() as int)
            &&& (forall|j: int| 0 <= j < seqs.len() ==> (#[trigger] seqs[j]).handle.0 != id)
                ==> cache.seqs[id] == m.seqs[id]
        }),
{
    let b = batch_of(
        weights,
        range_len(node.layer_range),
        seqs,
        position_runs(seqs),
        m,
        tensors,
    );
    let run = finished_node_batch(
        weights,
        node,
        seqs,
        input,
        tensors,
        exhausted,
        m,
        before,
        cache,
        after,
        res,
    );
    reveal(staged_outcome);
    assert(cache == b.caches(run.scratch).last());
    assert(cache == appended(m, b.parts, 0, b.parts.len() as int));
    appended_length(m, b.parts, id, b.parts.len() as int);
}

} // verus!

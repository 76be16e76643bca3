//! Laws on forward passes over a paged cache.
use crate::base::backend::{done, DeviceCall, DeviceEvent};
use crate::base::error::{FractureError, Result};
use crate::base::program::{
    all_allocated, all_done, failed_with, frees, joined, joined_one, step_calls,
};
use crate::base::tally::{
    attentions, calls, holds, marker_pops, marker_pushes, paged_attentions, tally, tally_add,
    tally_one, timing,
};
use crate::base::tensor::TensorInfo;
use crate::engine::block_table::{chunks_from, BlocksInfo, Chunk};
use crate::engine::kv_cache::CacheHandle;
use crate::engine::node::{NodeOutput, NodeOutputInfo};
use crate::engine::paged::{
    attention_call, paged_end, paged_outcome, stage_caches, table_ids, PagedRun, PagedState,
};
use crate::engine::paged_kv_cache::{append_calls, chunk_calls, write_calls};
use crate::engine::pass::Pass;
use crate::engine::staged::stages_fail_with_the_device;
use crate::engine::transformer::{finish_steps, head_views, project_steps};
use crate::engine::weighing::{
    frame_weighs, frame_without_weight, held_by_frame, kernels_weigh_nothing,
    layer_work_weighs_nothing, skips_kernels, tensors_freed, tensors_made,
};
use vstd::prelude::*;

verus! {

/// The copies that write chunks weigh nothing.
proof fn chunks_weigh_nothing(
    tensors: Seq<Seq<TensorInfo>>,
    table: Seq<usize>,
    layer: int,
    keys: TensorInfo,
    values: TensorInfo,
    chunks: Seq<Chunk>,
    weight: spec_fn(DeviceEvent) -> int,
)
    requires
        skips_kernels(weight),
    ensures
        tally(all_done(append_calls(tensors, table, layer, keys, values, chunks)), weight) == 0,
    decreases chunks.len(),
{
    let all = append_calls(tensors, table, layer, keys, values, chunks);
    if chunks.len() == 0 {
        assert(all_done(all) =~= Seq::empty());
    } else {
        let some = append_calls(tensors, table, layer, keys, values, chunks.drop_last());
        let last = chunk_calls(tensors, table, layer, keys, values, chunks.last());
        chunks_weigh_nothing(tensors, table, layer, keys, values, chunks.drop_last(), weight);
        kernels_weigh_nothing(last, weight);
        assert(all_done(all) =~= all_done(some) + all_done(last));
        tally_add(all_done(some), all_done(last), weight);
    }
}

/// The copies that append tokens to a sequence weigh nothing.
pub(crate) proof fn writes_weigh_nothing(
    tensors: Seq<Seq<TensorInfo>>,
    t: BlocksInfo,
    layer: int,
    keys: TensorInfo,
    values: TensorInfo,
    n: int,
    weight: spec_fn(DeviceEvent) -> int,
)
    requires
        skips_kernels(weight),
    ensures
        tally(all_done(write_calls(tensors, t, layer, keys, values, n)), weight) == 0,
{
    chunks_weigh_nothing(
        tensors,
        t.table,
        layer,
        keys,
        values,
        chunks_from(t.len - n, n, 0),
        weight,
    );
}

/// Calls of attention over these blocks, with `kv_len` tokens in them of which those from
/// `start` on are new.
pub open spec fn attending(table: Seq<usize>, kv_len: int, start: int) -> spec_fn(
    DeviceCall,
) -> bool {
    |c: DeviceCall| attends_over(c, table, kv_len, start)
}

/// The call is of attention over these blocks.
pub open spec fn attends_over(
    c: DeviceCall,
    table: Seq<usize>,
    kv_len: int,
    start: int,
) -> bool {
    c matches DeviceCall::AttentionPaged { block_table, kv_len: len, start_pos, .. } && block_table
        == table_ids(table) && len == kv_len && start_pos == start
}

/// What a layer weighs: a marker before the cache is written, and attention and the
/// end of the marker from there on.
proof fn paged_layer_weighs(
    p: Pass,
    run: PagedRun,
    tensors: Seq<Seq<TensorInfo>>,
    t: BlocksInfo,
    i: int,
    weight: spec_fn(DeviceEvent) -> int,
    push: int,
    attention: int,
    pop: int,
)
    requires
        skips_kernels(weight),
        forall|e: DeviceEvent| #[trigger] e.call is MarkerPush ==> weight(e) == push,
        p.n() <= t.len,
        forall|e: DeviceEvent| #[trigger]
            attends_over(e.call, t.table, t.len as int, t.len - p.n()) ==> weight(e) == attention,
        forall|e: DeviceEvent| #[trigger] e.call is MarkerPop ==> weight(e) == pop,
    ensures
        tally(run.begin(p, i), weight) == push,
        tally(run.attend(p, tensors, t, i), weight) == attention + pop,
{
    let project = all_done(
        step_calls(
            project_steps(p.cfg, p.layers[i], run.hidden, run.scratch, p.n(), p.positions()),
        ),
    );
    let finish = all_done(
        step_calls(finish_steps(p.cfg, p.layers[i], run.hidden, run.scratch, p.n())),
    );
    layer_work_weighs_nothing(
        p.cfg,
        p.layers[i],
        run.hidden,
        run.scratch,
        p.n(),
        p.positions(),
        weight,
    );
    let begin = run.begin(p, i);
    let first = begin[0];
    assert(first.call is MarkerPush);
    assert(begin =~= seq![first] + project);
    tally_one(first, weight);
    tally_add(seq![first], project, weight);
    let v = head_views(p.cfg, run.scratch, p.n());
    let writes = all_done(write_calls(tensors, t, i, v.k, v.v, p.n() as int));
    writes_weigh_nothing(tensors, t, i, v.k, v.v, p.n() as int, weight);
    let middle = done(
        attention_call(
            p.cfg,
            tensors,
            t.table,
            i,
            v.q,
            t.len,
            (t.len - p.n()) as usize,
            v.attn,
        ),
    );
    let last = done(DeviceCall::MarkerPop);
    assert(attends_over(middle.call, t.table, t.len as int, t.len - p.n()));
    assert(last.call is MarkerPop);
    assert(run.attend(p, tensors, t, i) == writes + seq![middle] + finish + seq![last]);
    tally_one(middle, weight);
    tally_one(last, weight);
    tally_add(writes, seq![middle], weight);
    tally_add(writes + seq![middle], finish, weight);
    tally_add(writes + seq![middle] + finish, seq![last], weight);
}

/// What some layers weigh.
proof fn paged_layers_weigh(
    p: Pass,
    run: PagedRun,
    tensors: Seq<Seq<TensorInfo>>,
    t: BlocksInfo,
    from: int,
    to: int,
    weight: spec_fn(DeviceEvent) -> int,
    push: int,
    attention: int,
    pop: int,
)
    requires
        from <= to,
        skips_kernels(weight),
        forall|e: DeviceEvent| #[trigger] e.call is MarkerPush ==> weight(e) == push,
        p.n() <= t.len,
        forall|e: DeviceEvent| #[trigger]
            attends_over(e.call, t.table, t.len as int, t.len - p.n()) ==> weight(e) == attention,
        forall|e: DeviceEvent| #[trigger] e.call is MarkerPop ==> weight(e) == pop,
    ensures
        tally(run.layers(p, tensors, t, from, to), weight) == (to - from) * (push + attention
            + pop),
    decreases to - from,
{
    let each = push + attention + pop;
    if from < to {
        let some = run.layers(p, tensors, t, from, to - 1);
        let begin = run.begin(p, to - 1);
        let attend = run.attend(p, tensors, t, to - 1);
        paged_layers_weigh(p, run, tensors, t, from, to - 1, weight, push, attention, pop);
        paged_layer_weighs(p, run, tensors, t, to - 1, weight, push, attention, pop);
        tally_add(some, begin, weight);
        tally_add(some + begin, attend, weight);
        assert((to - 1 - from) * each + each == (to - from) * each) by (nonlinear_arith);
    } else {
        assert((to - from) * each == 0) by (nonlinear_arith)
            requires
                to == from,
        ;
    }
}

/// What the stages of a pass weigh together.
proof fn stages_weigh(
    p: Pass,
    run: PagedRun,
    tensors: Seq<Seq<TensorInfo>>,
    t: BlocksInfo,
    weight: spec_fn(DeviceEvent) -> int,
    push: int,
    attention: int,
    pop: int,
)
    requires
        skips_kernels(weight),
        forall|e: DeviceEvent| #[trigger] e.call is MarkerPush ==> weight(e) == push,
        p.n() <= t.len,
        forall|e: DeviceEvent| #[trigger]
            attends_over(e.call, t.table, t.len as int, t.len - p.n()) ==> weight(e) == attention,
        forall|e: DeviceEvent| #[trigger] e.call is MarkerPop ==> weight(e) == pop,
    ensures
        tally(joined(run.stages(p, tensors, t)), weight) == tally(
            all_allocated(tensors_made(p, run.hidden, run.scratch, run.output)),
            weight,
        ) + tally(
            all_done(frees(tensors_freed(p, run.hidden, run.scratch, run.output))),
            weight,
        ) + p.layers.len() * (push + attention + pop),
{
    let len = p.layers.len() as int;
    let setup = run.setup(p);
    let end = p.end_events(run.hidden, run.scratch, run.output);
    let stages = run.stages(p, tensors, t);
    frame_weighs(p, run.hidden, run.scratch, run.output, weight);
    if len == 0 {
        joined_one(setup + end);
        tally_add(setup, end, weight);
        assert(p.layers.len() * (push + attention + pop) == 0) by (nonlinear_arith)
            requires
                p.layers.len() == 0,
        ;
    } else {
        let begin = run.begin(p, 0);
        let attend = run.attend(p, tensors, t, 0);
        let others = run.layers(p, tensors, t, 1, len);
        paged_layer_weighs(p, run, tensors, t, 0, weight, push, attention, pop);
        paged_layers_weigh(p, run, tensors, t, 1, len, weight, push, attention, pop);
        assert(stages.drop_last() =~= seq![stages[0]]);
        joined_one(stages[0]);
        tally_add(stages[0], stages[1], weight);
        tally_add(setup, begin, weight);
        tally_add(attend, others, weight);
        tally_add(attend + others, end, weight);
        let each = push + attention + pop;
        assert((len - 1) * each + each == len * each) by (nonlinear_arith);
    }
}

/// What a finished pass weighs.
proof fn paged_pass_weighs(
    p: Pass,
    handle: CacheHandle,
    run: PagedRun,
    tensors: Seq<Seq<TensorInfo>>,
    exhausted: FractureError,
    before: PagedState,
    after: PagedState,
    res: Result<NodeOutput>,
    weight: spec_fn(DeviceEvent) -> int,
    push: int,
    attention: int,
    pop: int,
)
    requires
        paged_outcome(p, handle, run, tensors, exhausted, before, after, res),
        res is Ok,
        skips_kernels(weight),
        forall|e: DeviceEvent| #[trigger] e.call is MarkerPush ==> weight(e) == push,
        ({
            let t = before.cache.append(handle, 0, p.n() as int).seqs[handle.0];
            &&& p.n() <= t.len
            &&& forall|e: DeviceEvent| #[trigger]
                attends_over(e.call, t.table, t.len as int, t.len - p.n()) ==> weight(e)
                    == attention
        }),
        forall|e: DeviceEvent| #[trigger] e.call is MarkerPop ==> weight(e) == pop,
    ensures
        tally(after.trace, weight) - tally(before.trace, weight) == tally(
            all_allocated(tensors_made(p, run.hidden, run.scratch, run.output)),
            weight,
        ) + tally(
            all_done(frees(tensors_freed(p, run.hidden, run.scratch, run.output))),
            weight,
        ) + p.layers.len() * (push + attention + pop),
{
    let t = before.cache.append(handle, 0, p.n() as int).seqs[handle.0];
    stages_weigh(p, run, tensors, t, weight, push, attention, pop);
    tally_add(before.trace, joined(run.stages(p, tensors, t)), weight);
}

/// A finished pass over a paged cache frees every tensor that it allocated as often as
/// it allocated it, and no other, but for the activations that it made and hands on.
pub proof fn paged_passes_free_what_they_allocate(
    p: Pass,
    handle: CacheHandle,
    tensors: Seq<Seq<TensorInfo>>,
    exhausted: FractureError,
    before: PagedState,
    after: PagedState,
    res: Result<NodeOutput>,
    t: TensorInfo,
)
    requires
        paged_end(p, handle, tensors, exhausted, before, after, res),
        res is Ok,
        before.cache.seqs[handle.0].len + p.n() <= usize::MAX,
    ensures
        tally(after.trace, holds(t)) - tally(before.trace, holds(t)) == if p.owned()
            && res->Ok_0@ == NodeOutputInfo::Activations(t) {
            1int
        } else {
            0
        },
{
    let run = choose|run: PagedRun|
        run.fits(p) && #[trigger] paged_outcome(
            p,
            handle,
            run,
            tensors,
            exhausted,
            before,
            after,
            res,
        );
    paged_pass_weighs(
        p,
        handle,
        run,
        tensors,
        exhausted,
        before,
        after,
        res,
        holds(t),
        0,
        0,
        0,
    );
    assert(p.layers.len() * (0 + 0 + 0) == 0) by (nonlinear_arith);
    held_by_frame(p, run.hidden, run.scratch, run.output, t);
}

/// Every layer of a finished pass over a paged cache has one marker, which ends, and
/// runs paged attention once; nothing is timed.
pub proof fn paged_layers_attend_once(
    p: Pass,
    handle: CacheHandle,
    tensors: Seq<Seq<TensorInfo>>,
    exhausted: FractureError,
    before: PagedState,
    after: PagedState,
    res: Result<NodeOutput>,
)
    requires
        paged_end(p, handle, tensors, exhausted, before, after, res),
        res is Ok,
        before.cache.seqs[handle.0].len + p.n() <= usize::MAX,
    ensures
        tally(after.trace, calls(marker_pushes())) - tally(before.trace, calls(marker_pushes()))
            == p.layers.len(),
        tally(after.trace, calls(marker_pops())) - tally(before.trace, calls(marker_pops()))
            == p.layers.len(),
        tally(after.trace, calls(paged_attentions())) - tally(
            before.trace,
            calls(paged_attentions()),
        ) == p.layers.len(),
        tally(after.trace, calls(timing())) == tally(before.trace, calls(timing())),
{
    let run = choose|run: PagedRun|
        run.fits(p) && #[trigger] paged_outcome(
            p,
            handle,
            run,
            tensors,
            exhausted,
            before,
            after,
            res,
        );
    let pushes = calls(marker_pushes());
    let pops = calls(marker_pops());
    let attends = calls(paged_attentions());
    let times = calls(timing());
    paged_pass_weighs(p, handle, run, tensors, exhausted, before, after, res, pushes, 1, 0, 0);
    frame_without_weight(p, run.hidden, run.scratch, run.output, marker_pushes());
    paged_pass_weighs(p, handle, run, tensors, exhausted, before, after, res, pops, 0, 0, 1);
    frame_without_weight(p, run.hidden, run.scratch, run.output, marker_pops());
    paged_pass_weighs(p, handle, run, tensors, exhausted, before, after, res, attends, 0, 1, 0);
    frame_without_weight(p, run.hidden, run.scratch, run.output, paged_attentions());
    paged_pass_weighs(p, handle, run, tensors, exhausted, before, after, res, times, 0, 0, 0);
    assert(p.layers.len() * (0 + 0 + 0) == 0) by (nonlinear_arith);
    frame_without_weight(p, run.hidden, run.scratch, run.output, timing());
}

/// Attention in a finished pass reads the blocks of the sequence: each layer asks once for
/// attention over its table, with the new tokens counted in, and for no other attention.
pub proof fn paged_attention_reads_the_cache(
    p: Pass,
    handle: CacheHandle,
    tensors: Seq<Seq<TensorInfo>>,
    exhausted: FractureError,
    before: PagedState,
    after: PagedState,
    res: Result<NodeOutput>,
)
    requires
        paged_end(p, handle, tensors, exhausted, before, after, res),
        res is Ok,
        before.cache.seqs[handle.0].len + p.n() <= usize::MAX,
        p.layers.len() > 0,
    ensures
        ({
            let start = before.cache.seqs[handle.0].len as int;
            let reads = calls(
                attending(after.cache.seqs[handle.0].table, start + p.n(), start),
            );
            &&& tally(after.trace, reads) - tally(before.trace, reads) == p.layers.len()
            &&& tally(after.trace, calls(attentions())) == tally(
                before.trace,
                calls(attentions()),
            )
            &&& tally(after.trace, calls(paged_attentions())) - tally(
                before.trace,
                calls(paged_attentions()),
            ) == p.layers.len()
        }),
{
    let run = choose|run: PagedRun|
        run.fits(p) && #[trigger] paged_outcome(
            p,
            handle,
            run,
            tensors,
            exhausted,
            before,
            after,
            res,
        );
    let start = before.cache.seqs[handle.0].len as int;
    let kind = attending(after.cache.seqs[handle.0].table, start + p.n(), start);
    let plain = calls(attentions());
    paged_pass_weighs(p, handle, run, tensors, exhausted, before, after, res, calls(kind), 0, 1, 0);
    frame_without_weight(p, run.hidden, run.scratch, run.output, kind);
    paged_pass_weighs(p, handle, run, tensors, exhausted, before, after, res, plain, 0, 0, 0);
    assert(p.layers.len() * (0 + 0 + 0) == 0) by (nonlinear_arith);
    frame_without_weight(p, run.hidden, run.scratch, run.output, attentions());
    paged_layers_attend_once(p, handle, tensors, exhausted, before, after, res);
}

/// A finished pass appends its tokens to the cached sequence, where it has layers, and
/// takes the blocks for them off the free list; every other sequence stays as it was.
pub proof fn paged_passes_append_their_tokens(
    p: Pass,
    handle: CacheHandle,
    tensors: Seq<Seq<TensorInfo>>,
    exhausted: FractureError,
    before: PagedState,
    after: PagedState,
    res: Result<NodeOutput>,
)
    requires
        paged_end(p, handle, tensors, exhausted, before, after, res),
        res is Ok,
        before.cache.seqs[handle.0].len + p.n() <= usize::MAX,
    ensures
        before.cache.seqs.contains_key(handle.0),
        p.layers.len() > 0 ==> after.cache.seqs[handle.0].len == before.cache.seqs[handle.0].len
            + p.n(),
        p.layers.len() > 0 ==> after.cache.free.len() == before.cache.free.len()
            - before.cache.seqs[handle.0].missing(p.n() as int),
        p.layers.len() == 0 ==> after.cache == before.cache,
        forall|h: u64|
            h != handle.0 && before.cache.seqs.contains_key(h) ==> #[trigger] after.cache.seqs[h]
                == before.cache.seqs[h],
{
}

/// A finished pass of the last node gives one logit for each word of the vocabulary;
/// that of any other node gives activations of the input's length.
pub proof fn paged_logits_cover_the_vocabulary(
    p: Pass,
    handle: CacheHandle,
    tensors: Seq<Seq<TensorInfo>>,
    exhausted: FractureError,
    before: PagedState,
    after: PagedState,
    res: Result<NodeOutput>,
)
    requires
        paged_end(p, handle, tensors, exhausted, before, after, res),
        res is Ok,
    ensures
        p.tail ==> (res->Ok_0@ matches NodeOutputInfo::Logits(l) && l.len() == p.cfg.vocab_size),
        !p.tail ==> (res->Ok_0@ matches NodeOutputInfo::Activations(t) && p.can_hide(t)),
{
}

/// A pass whose input is not of the right kind, whose positions lie beyond the model,
/// whose sequence is unknown or for which blocks are lacking fails, and leaves the
/// cache as it was.
pub proof fn refused_paged_passes_leave_the_cache(
    p: Pass,
    handle: CacheHandle,
    tensors: Seq<Seq<TensorInfo>>,
    exhausted: FractureError,
    before: PagedState,
    after: PagedState,
    res: Result<NodeOutput>,
)
    requires
        paged_end(p, handle, tensors, exhausted, before, after, res),
        p.refused() || p.beyond() || !before.cache.seqs.contains_key(handle.0) || (p.layers.len()
            > 0 && !before.cache.has_room(handle, 0, p.n() as int)),
    ensures
        res is Err,
        after.cache == before.cache,
{
}

/// A pass that nothing forbids fails only where the device does, with the device's error:
/// where every call succeeds, so does the pass.
pub proof fn paged_passes_fail_only_with_the_device(
    p: Pass,
    handle: CacheHandle,
    tensors: Seq<Seq<TensorInfo>>,
    exhausted: FractureError,
    before: PagedState,
    after: PagedState,
    res: Result<NodeOutput>,
)
    requires
        paged_end(p, handle, tensors, exhausted, before, after, res),
        !p.refused(),
        !p.beyond(),
        before.cache.seqs.contains_key(handle.0),
        p.layers.len() > 0 ==> before.cache.has_room(handle, 0, p.n() as int),
    ensures
        res matches Err(e) ==> failed_with(before.trace, after.trace, e),
{
    if let Err(e) = res {
        let run = choose|run: PagedRun|
            run.fits(p) && #[trigger] paged_outcome(
                p,
                handle,
                run,
                tensors,
                exhausted,
                before,
                after,
                res,
            );
        let t = before.cache.append(handle, 0, p.n() as int).seqs[handle.0];
        stages_fail_with_the_device(
            run.stages(p, tensors, t),
            stage_caches(p, before.cache, handle),
            before.trace,
            after.trace,
            after.cache,
            e,
        );
    }
}

} // verus!

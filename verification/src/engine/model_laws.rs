//! Forward passes compute what the model says.
use crate::base::backend::{done, DeviceCall, DeviceEvent, Outcome};
use crate::base::dataflow::{
    after_allocations, after_call, after_calls, after_calls_add, after_done, after_events,
    after_events_add, after_one_call, after_releases, after_steps, changes_only, first, fresh_first,
    fresh_parts, fresh_tensors, gives_fresh_memory, ids, in_use, in_use_add, normed, operand,
    reads_are_true, row_shape, rows_of, true_parts, true_read, use_stays, with_rows, words, Kernels,
    Memory, Rows,
};
use crate::base::error::Result;
use crate::base::model_config::ModelConfig;
use crate::base::program::{
    all_allocated, all_done, frees, step_calls, step_events, steps_events, StepCalls, Timing,
};
use crate::base::tensor::{TensorId, TensorInfo};
use crate::engine::contiguous::{
    attention_step, contiguous_end, contiguous_outcome, layer_events, layer_name, layer_steps,
    layers_events, layers_events_split, ContiguousRun, ContiguousState,
};
use crate::engine::kv_cache::{CacheHandle, SequenceCacheInfo};
use crate::engine::logits::halves;
use crate::engine::model::{
    after_push, have_own_memory, layer_operands, own_memory, pass_memory, projections_compute,
    residuals_compute, scratch_rows, weights_outside, weights_stay, Layer, Past,
};
use crate::engine::node::{NodeInputInfo, NodeOutput, NodeOutputInfo};
use crate::engine::pass::Pass;
use crate::engine::transformer::{
    fetch_events, finish_steps, head_views, output_events, output_tensors, project_steps,
    row_events, viewed, OutputInfo, ScratchInfo,
};
use crate::engine::weights::LayerWeightsInfo;
use vstd::prelude::*;

verus! {

/// The first `n` keys and values of a layer in a contiguous cache.
pub open spec fn cached<R>(mem: Memory<R>, k_cache: TensorInfo, v_cache: TensorInfo, n: int) -> Past<
    R,
> {
    Past { keys: first(mem[k_cache.id], n), values: first(mem[v_cache.id], n) }
}

/// Appended rows follow the others.
pub(crate) proof fn appended_rows<R>(dst: Rows<R>, start: int, src: Rows<R>, n: int)
    requires
        0 <= start,
        0 <= n,
    ensures
        first(with_rows(dst, start, src, 0, n), start + n) == first(dst, start) + first(src, n),
{
    assert(first(with_rows(dst, start, src, 0, n), start + n) =~= first(dst, start) + first(
        src,
        n,
    ));
}

/// The attention step of a layer appends the new keys and values to the cached ones, and
/// leaves the attention of the queries over all of them.
proof fn attention_computes<R>(
    k: Kernels<R>,
    mem: Memory<R>,
    cfg: ModelConfig,
    hidden: TensorInfo,
    s: ScratchInfo,
    n: usize,
    k_cache: TensorInfo,
    v_cache: TensorInfo,
    start: usize,
)
    requires
        s.fits(cfg, n),
        have_own_memory(hidden, s),
        !pass_memory(hidden, s).contains(k_cache.id),
        !pass_memory(hidden, s).contains(v_cache.id),
        k_cache.id != v_cache.id,
    ensures
        ({
            let v = head_views(cfg, s, n);
            let m = after_calls(
                k,
                mem,
                attention_step(cfg, v, k_cache, v_cache, start, n).calls,
            );
            let past = cached(mem, k_cache, v_cache, start as int);
            let all = Past {
                keys: past.keys + first(mem[s.k_flat.id], n as int),
                values: past.values + first(mem[s.v_flat.id], n as int),
            };
            &&& m[s.attn_out.id] == rows_of(
                (k.attention)(
                    first(mem[s.q_flat.id], n as int),
                    seq![cfg.num_q_heads, cfg.head_dim],
                    all.keys,
                    all.values,
                    cfg.num_kv_heads,
                    start,
                ),
            )
            &&& cached(m, k_cache, v_cache, start + n) == all
            &&& m[hidden.id] == mem[hidden.id]
            &&& changes_only(
                mem,
                m,
                pass_memory(hidden, s).insert(k_cache.id).insert(v_cache.id),
            )
        }),
{
    let v = head_views(cfg, s, n);
    let calls = attention_step(cfg, v, k_cache, v_cache, start, n).calls;
    own_memory(hidden, s);
    scratch_rows(cfg, s, n);
    let e = Seq::<DeviceCall>::empty();
    let m0 = after_call(k, mem, calls[0]);
    let m1 = after_call(k, m0, calls[1]);
    let m2 = after_call(k, m1, calls[2]);
    after_push(k, mem, e, calls[0]);
    after_push(k, mem, e.push(calls[0]), calls[1]);
    after_push(k, mem, e.push(calls[0]).push(calls[1]), calls[2]);
    assert(e.push(calls[0]).push(calls[1]).push(calls[2]) =~= calls);
    appended_rows(mem[k_cache.id], start as int, mem[s.k_flat.id], n as int);
    appended_rows(mem[v_cache.id], start as int, mem[s.v_flat.id], n as int);
    assert(m2[k_cache.id] == with_rows(
        mem[k_cache.id],
        start as int,
        mem[s.k_flat.id],
        0,
        n as int,
    ));
    assert(m2[v_cache.id] == with_rows(
        mem[v_cache.id],
        start as int,
        mem[s.v_flat.id],
        0,
        n as int,
    ));
}

/// The shape of a row of the hidden state of a pass.
pub open spec fn hidden_row(p: Pass) -> Seq<usize> {
    match p.input {
        NodeInputInfo::TokenIds { .. } => seq![p.cfg.hidden_size],
        NodeInputInfo::Activations { hidden_states, .. } => row_shape(hidden_states.shape),
    }
}

/// Layer `i` of a pass, with the weights that a device holds.
pub open spec fn pass_layer<R>(mem: Memory<R>, p: Pass, i: int) -> Layer<R> {
    Layer { cfg: p.cfg, w: layer_operands(mem, p.layers[i]), shape: hidden_row(p) }
}

/// What can be the hidden state of a pass has such rows.
pub(crate) proof fn hidden_has_rows(p: Pass, hidden: TensorInfo)
    requires
        p.can_hide(hidden),
    ensures
        row_shape(hidden.shape) == hidden_row(p),
{
    assert(row_shape(seq![p.n(), p.cfg.hidden_size]) =~= seq![p.cfg.hidden_size]);
}

/// A layer of a pass over a contiguous cache computes what the model says: attention over the
/// new tokens and those that are cached is added to the hidden state, and to that the result of
/// the feed-forward network. The new keys and values follow those that are cached.
pub proof fn layers_compute_the_model<R>(
    k: Kernels<R>,
    mem: Memory<R>,
    p: Pass,
    hidden: TensorInfo,
    s: ScratchInfo,
    c: SequenceCacheInfo,
    i: int,
)
    requires
        0 <= i < p.layers.len(),
        p.can_hide(hidden),
        s.fits(p.cfg, p.n()),
        have_own_memory(hidden, s),
        !pass_memory(hidden, s).contains(c.k(i).id),
        !pass_memory(hidden, s).contains(c.v(i).id),
        c.k(i).id != c.v(i).id,
        weights_outside(
            p.layers[i],
            pass_memory(hidden, s).insert(c.k(i).id).insert(c.v(i).id),
        ),
    ensures
        ({
            let m = after_calls(k, mem, step_calls(layer_steps(p, hidden, s, c, i)));
            let layer = pass_layer(mem, p, i);
            let h = mem[hidden.id];
            let n = p.n() as int;
            let past = cached(mem, c.k(i), c.v(i), c.current_len as int);
            &&& m[hidden.id] == layer.output(k, h, p.positions(), n, past)
            &&& cached(m, c.k(i), c.v(i), c.current_len + n) == layer.extended(
                k,
                h,
                p.positions(),
                n,
                past,
            )
            &&& changes_only(
                mem,
                m,
                pass_memory(hidden, s).insert(c.k(i).id).insert(c.v(i).id),
            )
        }),
{
    let n = p.n();
    let w = p.layers[i];
    let v = head_views(p.cfg, s, n);
    let project = project_steps(p.cfg, w, hidden, s, n, p.positions());
    let attention = attention_step(p.cfg, v, c.k(i), c.v(i), c.current_len, n);
    let finish = finish_steps(p.cfg, w, hidden, s, n);
    let written = pass_memory(hidden, s).insert(c.k(i).id).insert(c.v(i).id);
    own_memory(hidden, s);
    hidden_has_rows(p, hidden);
    step_calls_add(project, seq![attention] + finish);
    step_calls_add(seq![attention], finish);
    assert(layer_steps(p, hidden, s, c, i) =~= project + (seq![attention] + finish));
    assert(step_calls(seq![attention]) =~= attention.calls) by {
        reveal_with_fuel(step_calls, 2);
        assert(seq![attention].drop_last() =~= Seq::<StepCalls>::empty());
    }
    let m1 = after_calls(k, mem, step_calls(project));
    let m2 = after_calls(k, m1, attention.calls);
    let m3 = after_calls(k, m2, step_calls(finish));
    after_calls_add(k, mem, step_calls(project), attention.calls + step_calls(finish));
    after_calls_add(k, m1, attention.calls, step_calls(finish));
    assert(step_calls(layer_steps(p, hidden, s, c, i)) =~= step_calls(project) + (attention.calls
        + step_calls(finish)));
    projections_compute(k, mem, p.cfg, w, hidden, s, n, p.positions());
    attention_computes(k, m1, p.cfg, hidden, s, n, c.k(i), c.v(i), c.current_len);
    assert(changes_only(mem, m2, written));
    weights_stay(mem, m2, w, written);
    residuals_compute(k, m2, p.cfg, w, hidden, s, n);
    assert(cached(m1, c.k(i), c.v(i), c.current_len as int) == cached(
        mem,
        c.k(i),
        c.v(i),
        c.current_len as int,
    ));
    assert(m3[c.k(i).id] == m2[c.k(i).id]);
    assert(m3[c.v(i).id] == m2[c.v(i).id]);
}

/// The calls of steps, and then of others.
pub(crate) proof fn step_calls_add(a: Seq<StepCalls>, b: Seq<StepCalls>)
    ensures
        step_calls(a + b) == step_calls(a) + step_calls(b),
    decreases b.len(),
{
    if b.len() == 0 {
        assert(a + b =~= a);
        assert(step_calls(a) + step_calls(b) =~= step_calls(a));
    } else {
        step_calls_add(a, b.drop_last());
        assert((a + b).drop_last() =~= a + b.drop_last());
        assert(step_calls(a + b) =~= step_calls(a) + step_calls(b));
    }
}

/// The hidden state after the first `l` layers of a pass, if it is `h` before them.
pub open spec fn hidden_after<R>(
    k: Kernels<R>,
    mem: Memory<R>,
    p: Pass,
    pasts: Seq<Past<R>>,
    h: Rows<R>,
    l: int,
) -> Rows<R>
    decreases l,
{
    if l <= 0 {
        h
    } else {
        pass_layer(mem, p, l - 1).output(
            k,
            hidden_after(k, mem, p, pasts, h, l - 1),
            p.positions(),
            p.n() as int,
            pasts[l - 1],
        )
    }
}

/// What is cached of a sequence, layer by layer.
pub open spec fn pasts<R>(mem: Memory<R>, c: SequenceCacheInfo, layers: nat) -> Seq<Past<R>> {
    Seq::new(layers, |i: int| cached(mem, c.k(i), c.v(i), c.current_len as int))
}

/// The memory of some tensors.
pub open spec fn memory_of(ts: Seq<TensorInfo>) -> Set<TensorId> {
    ids(ts).to_set()
}

/// The weights of the model lie outside some memory.
pub open spec fn model_outside(p: Pass, memory: Set<TensorId>) -> bool {
    &&& forall|i: int|
        0 <= i < p.layers.len() ==> weights_outside(#[trigger] p.layers[i], memory)
    &&& !memory.contains(p.token_embedding.id)
    &&& !memory.contains(p.output_norm.id)
    &&& !memory.contains(p.lm_head.id)
}

/// The cache of a sequence has two tensors for each layer of a pass, with memory of their own.
pub open spec fn cache_is_apart(p: Pass, c: SequenceCacheInfo) -> bool {
    &&& 2 * p.layers.len() <= c.tensors.len()
    &&& ids(c.tensors).no_duplicates()
    &&& model_outside(p, memory_of(c.tensors))
    &&& p.input matches NodeInputInfo::Activations { hidden_states, .. } ==> !memory_of(
        c.tensors,
    ).contains(hidden_states.id) && model_outside(p, set![hidden_states.id])
}

/// The tensors that a pass is given: the weights, the cache and the activations.
pub open spec fn pass_uses(p: Pass, c: SequenceCacheInfo, used: Set<TensorId>) -> bool {
    &&& forall|i: int|
        0 <= i < p.layers.len() ==> weights_inside(#[trigger] p.layers[i], used)
    &&& used.contains(p.token_embedding.id)
    &&& used.contains(p.output_norm.id)
    &&& used.contains(p.lm_head.id)
    &&& forall|i: int| 0 <= i < c.tensors.len() ==> used.contains((#[trigger] c.tensors[i]).id)
    &&& p.input matches NodeInputInfo::Activations { hidden_states, .. } ==> used.contains(
        hidden_states.id,
    )
}

/// All weights of a layer lie in some memory.
pub open spec fn weights_inside(
    w: LayerWeightsInfo,
    memory: Set<TensorId>,
) -> bool {
    &&& memory.contains(w.q_proj.id)
    &&& memory.contains(w.k_proj.id)
    &&& memory.contains(w.v_proj.id)
    &&& memory.contains(w.o_proj.id)
    &&& memory.contains(w.gate_proj.id)
    &&& memory.contains(w.up_proj.id)
    &&& memory.contains(w.down_proj.id)
    &&& memory.contains(w.attn_norm.id)
    &&& memory.contains(w.ffn_norm.id)
}

/// What the first `l` layers leave of the memory before them.
pub open spec fn layers_left<R>(
    k: Kernels<R>,
    mem: Memory<R>,
    m: Memory<R>,
    p: Pass,
    hidden: TensorInfo,
    s: ScratchInfo,
    c: SequenceCacheInfo,
    l: int,
) -> bool {
    let past = pasts(mem, c, p.layers.len());
    &&& m[hidden.id] == hidden_after(k, mem, p, past, mem[hidden.id], l)
    &&& changes_only(mem, m, pass_memory(hidden, s).union(memory_of(c.tensors)))
    &&& forall|i: int|
        l <= i < p.layers.len() ==> #[trigger] cached(m, c.k(i), c.v(i), c.current_len as int)
            == past[i]
    &&& forall|i: int|
        0 <= i < l ==> #[trigger] cached(m, c.k(i), c.v(i), c.current_len + p.n()) == pass_layer(
            mem,
            p,
            i,
        ).extended(
            k,
            hidden_after(k, mem, p, past, mem[hidden.id], i),
            p.positions(),
            p.n() as int,
            past[i],
        )
}

/// The cache tensors of a layer are among those of the sequence, and no other layer's.
proof fn cache_tensors_differ(c: SequenceCacheInfo, i: int, j: int)
    requires
        ids(c.tensors).no_duplicates(),
        0 <= i,
        0 <= j,
        2 * i + 1 < c.tensors.len(),
        2 * j + 1 < c.tensors.len(),
    ensures
        memory_of(c.tensors).contains(c.k(i).id),
        memory_of(c.tensors).contains(c.v(i).id),
        c.k(i).id != c.v(j).id,
        i != j ==> c.k(i).id != c.k(j).id && c.v(i).id != c.v(j).id,
{
    let l = ids(c.tensors);
    assert(l[2 * i] == c.k(i).id);
    assert(l[2 * i + 1] == c.v(i).id);
    assert(l[2 * j] == c.k(j).id);
    assert(l[2 * j + 1] == c.v(j).id);
}

proof fn layers_leave<R>(
    k: Kernels<R>,
    mem: Memory<R>,
    p: Pass,
    hidden: TensorInfo,
    s: ScratchInfo,
    c: SequenceCacheInfo,
    profiling: bool,
    clocks: Seq<Seq<Timing>>,
    l: int,
)
    requires
        0 <= l <= p.layers.len(),
        p.can_hide(hidden),
        s.fits(p.cfg, p.n()),
        have_own_memory(hidden, s),
        cache_is_apart(p, c),
        model_outside(p, pass_memory(hidden, s)),
        pass_memory(hidden, s).disjoint(memory_of(c.tensors)),
    ensures
        layers_left(
            k,
            mem,
            after_events(
                k,
                mem,
                layers_events(p, hidden, s, c, profiling, clocks, 0, l),
            ),
            p,
            hidden,
            s,
            c,
            l,
        ),
    decreases l,
{
    let past = pasts(mem, c, p.layers.len());
    own_memory(hidden, s);
    if l > 0 {
        let i = l - 1;
        layers_leave(k, mem, p, hidden, s, c, profiling, clocks, i);
        let before = layers_events(p, hidden, s, c, profiling, clocks, 0, i);
        let events = layer_events(p, hidden, s, c, profiling, clocks[i], i);
        after_events_add(k, mem, before, events);
        let m = after_events(k, mem, before);
        let written = pass_memory(hidden, s).insert(c.k(i).id).insert(c.v(i).id);
        cache_tensors_differ(c, i, i);
        assert(!pass_memory(hidden, s).contains(c.k(i).id));
        assert(!pass_memory(hidden, s).contains(c.v(i).id));
        assert(weights_outside(p.layers[i], written));
        layer_events_do(k, m, p, hidden, s, c, profiling, clocks[i], i);
        layers_compute_the_model(k, m, p, hidden, s, c, i);
        let all = pass_memory(hidden, s).union(memory_of(c.tensors));
        assert(weights_outside(p.layers[i], all));
        weights_stay(mem, m, p.layers[i], all);
        assert(pass_layer(m, p, i) == pass_layer(mem, p, i));
        let m2 = after_events(k, m, events);
        assert(cached(m, c.k(i), c.v(i), c.current_len as int) == past[i]);
        assert forall|j: int| l <= j < p.layers.len() implies #[trigger] cached(
            m2,
            c.k(j),
            c.v(j),
            c.current_len as int,
        ) == past[j] by {
            cache_tensors_differ(c, i, j);
            cache_tensors_differ(c, j, i);
            cache_tensors_differ(c, j, j);
            assert(!written.contains(c.k(j).id));
            assert(!written.contains(c.v(j).id));
            assert(m2[c.k(j).id] == m[c.k(j).id]);
            assert(m2[c.v(j).id] == m[c.v(j).id]);
            assert(cached(m, c.k(j), c.v(j), c.current_len as int) == past[j]);
        }
        assert forall|j: int| 0 <= j < l implies #[trigger] cached(
            m2,
            c.k(j),
            c.v(j),
            c.current_len + p.n(),
        ) == pass_layer(mem, p, j).extended(
            k,
            hidden_after(k, mem, p, past, mem[hidden.id], j),
            p.positions(),
            p.n() as int,
            past[j],
        ) by {
            if j < i {
                cache_tensors_differ(c, i, j);
                cache_tensors_differ(c, j, i);
                cache_tensors_differ(c, j, j);
                assert(!written.contains(c.k(j).id));
                assert(!written.contains(c.v(j).id));
                assert(m2[c.k(j).id] == m[c.k(j).id]);
                assert(m2[c.v(j).id] == m[c.v(j).id]);
                assert(cached(m, c.k(j), c.v(j), c.current_len + p.n()) == cached(
                    m2,
                    c.k(j),
                    c.v(j),
                    c.current_len + p.n(),
                ));
            }
        }
        assert(changes_only(mem, m2, all));
    }
}

/// The events of a layer do what its calls do.
proof fn layer_events_do<R>(
    k: Kernels<R>,
    mem: Memory<R>,
    p: Pass,
    hidden: TensorInfo,
    s: ScratchInfo,
    c: SequenceCacheInfo,
    profiling: bool,
    clock: Seq<Timing>,
    i: int,
)
    ensures
        after_events(k, mem, layer_events(p, hidden, s, c, profiling, clock, i)) == after_calls(
            k,
            mem,
            step_calls(layer_steps(p, hidden, s, c, i)),
        ),
{
    let push = seq![done(DeviceCall::MarkerPush { name: layer_name(p.first + i) })];
    let pop = seq![done(DeviceCall::MarkerPop)];
    let work = steps_events(
        layer_steps(p, hidden, s, c, i),
        profiling,
        clock,
    );
    after_events_add(k, mem, push + work, pop);
    after_events_add(k, mem, push, work);
    after_steps(k, mem, layer_steps(p, hidden, s, c, i), profiling, clock);
    after_nothing(k, mem, push[0]);
    after_nothing(k, after_events(k, mem, push + work), pop[0]);
}

/// One event.
pub(crate) proof fn after_one<R>(k: Kernels<R>, mem: Memory<R>, e: DeviceEvent)
    requires
        !(e.outcome is Failed),
    ensures
        after_events(k, mem, seq![e]) == after_call(k, mem, e.call),
{
    reveal_with_fuel(after_events, 2);
    assert(seq![e].drop_last() =~= Seq::empty());
}

/// Markers change nothing.
pub(crate) proof fn after_nothing<R>(k: Kernels<R>, mem: Memory<R>, e: DeviceEvent)
    requires
        e.call is MarkerPush || e.call is MarkerPop,
    ensures
        after_events(k, mem, seq![e]) == mem,
{
    reveal_with_fuel(after_events, 2);
    assert(seq![e].drop_last() =~= Seq::empty());
}

/// The hidden state that a pass begins with: the embeddings of its tokens, or the activations
/// that it is given.
pub open spec fn pass_input<R>(k: Kernels<R>, mem: Memory<R>, p: Pass) -> Rows<R> {
    match p.input {
        NodeInputInfo::TokenIds { ids, .. } => words(k, ids, operand(mem, p.token_embedding)),
        NodeInputInfo::Activations { hidden_states, .. } => mem[hidden_states.id],
    }
}

/// The logits of the last of some tokens with the hidden state `h`.
pub open spec fn logit_row<R>(
    k: Kernels<R>,
    mem: Memory<R>,
    cfg: ModelConfig,
    output_norm: TensorInfo,
    lm_head: TensorInfo,
    shape: Seq<usize>,
    h: Rows<R>,
    last: int,
) -> R {
    (k.product)(
        (k.norm)(h(last), shape, operand(mem, output_norm), cfg.rms_norm_eps),
        seq![cfg.hidden_size],
        operand(mem, lm_head),
    )
}

/// The number of the last of `n` tokens.
pub open spec fn last_token(n: int) -> int {
    if n > 1 {
        n - 1
    } else {
        0
    }
}

/// No event allocates or releases a tensor.
pub(crate) open spec fn keeps_use(events: Seq<DeviceEvent>) -> bool {
    forall|i: int|
        0 <= i < events.len() ==> !((#[trigger] events[i]).call is Free) && !(
        events[i].outcome is Tensor)
}

pub(crate) proof fn keeps_use_add(a: Seq<DeviceEvent>, b: Seq<DeviceEvent>)
    requires
        keeps_use(a),
        keeps_use(b),
    ensures
        keeps_use(a + b),
{
}

/// No step releases a tensor.
pub(crate) open spec fn releases_nothing(steps: Seq<StepCalls>) -> bool {
    forall|i: int, j: int|
        0 <= i < steps.len() && 0 <= j < steps[i].calls.len() ==> !(
        #[trigger] steps[i].calls[j] is Free)
}

pub(crate) proof fn layer_parts_release_nothing(
    cfg: ModelConfig,
    w: LayerWeightsInfo,
    hidden: TensorInfo,
    s: ScratchInfo,
    n: usize,
    positions: Seq<u32>,
)
    ensures
        releases_nothing(project_steps(cfg, w, hidden, s, n, positions)),
        releases_nothing(finish_steps(cfg, w, hidden, s, n)),
{
}

proof fn steps_keep_use(steps: Seq<StepCalls>, profiling: bool, clock: Seq<Timing>)
    requires
        releases_nothing(steps),
    ensures
        keeps_use(steps_events(steps, profiling, clock)),
    decreases steps.len(),
{
    if steps.len() > 0 {
        let rest = steps.drop_last();
        assert forall|i: int, j: int|
            0 <= i < rest.len() && 0 <= j < rest[i].calls.len() implies !(
        #[trigger] rest[i].calls[j] is Free) by {
            assert(steps[i].calls[j] == rest[i].calls[j]);
        }
        steps_keep_use(rest, profiling, clock);
        let last = step_events(
            steps.last(),
            profiling,
            clock[steps.len() - 1],
        );
        assert(keeps_use(last)) by {
            assert forall|i: int| 0 <= i < last.len() implies !((#[trigger] last[i]).call is Free)
                && !(last[i].outcome is Tensor) by {
                let calls = steps.last().calls;
                let body = all_done(calls);
                if steps.last().timed && profiling {
                    if 2 <= i < 2 + body.len() {
                        assert(last[i] == body[i - 2]);
                        assert(!(steps[steps.len() - 1].calls[i - 2] is Free));
                    }
                } else {
                    assert(last[i] == body[i]);
                    assert(!(steps[steps.len() - 1].calls[i] is Free));
                }
            }
        }
    }
}

/// The calls of steps that release nothing keep the tensors in use.
pub(crate) proof fn calls_keep_use(steps: Seq<StepCalls>)
    requires
        releases_nothing(steps),
    ensures
        keeps_use(all_done(step_calls(steps))),
    decreases steps.len(),
{
    if steps.len() > 0 {
        let rest = steps.drop_last();
        assert forall|i: int, j: int|
            0 <= i < rest.len() && 0 <= j < rest[i].calls.len() implies !(
        #[trigger] rest[i].calls[j] is Free) by {
            assert(steps[i].calls[j] == rest[i].calls[j]);
        }
        calls_keep_use(rest);
        let all = step_calls(steps);
        let few = step_calls(rest);
        assert forall|i: int| 0 <= i < all.len() implies !((#[trigger] all_done(
            all,
        )[i]).call is Free) && !(all_done(all)[i].outcome is Tensor) by {
            if i < few.len() {
                assert(all_done(all)[i] == all_done(few)[i]);
            } else {
                assert(all[i] == steps[steps.len() - 1].calls[i - few.len()]);
            }
        }
    }
}

proof fn layers_keep_use(
    p: Pass,
    hidden: TensorInfo,
    s: ScratchInfo,
    c: SequenceCacheInfo,
    profiling: bool,
    clocks: Seq<Seq<Timing>>,
    l: int,
)
    ensures
        keeps_use(layers_events(p, hidden, s, c, profiling, clocks, 0, l)),
    decreases l,
{
    if l > 0 {
        let i = l - 1;
        layers_keep_use(p, hidden, s, c, profiling, clocks, i);
        let steps = layer_steps(p, hidden, s, c, i);
        let n = p.n();
        let project = project_steps(p.cfg, p.layers[i], hidden, s, n, p.positions());
        let finish = finish_steps(p.cfg, p.layers[i], hidden, s, n);
        layer_parts_release_nothing(p.cfg, p.layers[i], hidden, s, n, p.positions());
        assert forall|a: int, b: int|
            0 <= a < steps.len() && 0 <= b < steps[a].calls.len() implies !(
        #[trigger] steps[a].calls[b] is Free) by {
            if a < 3 {
                assert(steps[a] == project[a]);
                assert(!(project[a].calls[b] is Free));
            } else if a > 3 {
                assert(steps[a] == finish[a - 4]);
                assert(!(finish[a - 4].calls[b] is Free));
            }
        }
        steps_keep_use(steps, profiling, clocks[i]);
        let work = steps_events(steps, profiling, clocks[i]);
        let push = seq![done(DeviceCall::MarkerPush { name: layer_name(p.first + i) })];
        keeps_use_add(push, work);
        keeps_use_add(push + work, seq![done(DeviceCall::MarkerPop)]);
        keeps_use_add(
            layers_events(p, hidden, s, c, profiling, clocks, 0, i),
            layer_events(p, hidden, s, c, profiling, clocks[i], i),
        );
    }
}

/// The output phase hands out the logits of the last token.
pub(crate) proof fn output_computes<R>(
    k: Kernels<R>,
    mem: Memory<R>,
    cfg: ModelConfig,
    output_norm: TensorInfo,
    lm_head: TensorInfo,
    hidden: TensorInfo,
    owned: bool,
    s: ScratchInfo,
    n: usize,
    o: OutputInfo,
    used: Set<TensorId>,
)
    requires
        s.fits(cfg, n),
        o.fits(cfg),
        have_own_memory(hidden, s),
        !pass_memory(hidden, s).contains(output_norm.id),
        !pass_memory(hidden, s).contains(lm_head.id),
        pass_memory(hidden, s).subset_of(used),
        used.contains(output_norm.id),
        used.contains(lm_head.id),
        gives_fresh_memory(
            used,
            output_events(cfg, output_norm, lm_head, hidden, owned, s, n, o),
        ),
        reads_are_true(
            k,
            mem,
            output_events(cfg, output_norm, lm_head, hidden, owned, s, n, o),
        ),
    ensures
        o.bytes == (k.bytes)(
            seq![
                logit_row(
                    k,
                    mem,
                    cfg,
                    output_norm,
                    lm_head,
                    row_shape(hidden.shape),
                    mem[hidden.id],
                    last_token(n as int),
                ),
            ],
            seq![1usize, cfg.vocab_size],
            o.bytes.len(),
        ),
        ({
            let m = after_events(
                k,
                mem,
                output_events(cfg, output_norm, lm_head, hidden, owned, s, n, o),
            );
            forall|id: TensorId|
                used.contains(id) && id != s.normed.id ==> #[trigger] m[id] == mem[id]
        }),
{
    let last = if n > 1 {
        o.last
    } else {
        viewed(s.normed, seq![1usize, cfg.hidden_size])
    };
    let call = DeviceCall::Rmsnorm {
        input: hidden,
        weight: output_norm,
        eps: cfg.rms_norm_eps,
        out: s.normed,
    };
    let norm = seq![done(call)];
    let fetch = if n > 1 {
        fetch_events(s.normed, (n - 1) as usize, o.last)
    } else {
        Seq::empty()
    };
    let row = row_events(last, lm_head, o.logits, o.bytes);
    let end_calls = seq![DeviceCall::Synchronize] + frees(output_tensors(hidden, owned, s, n, o));
    let end = all_done(end_calls);
    own_memory(hidden, s);
    scratch_rows(cfg, s, n);
    assert(row_shape(seq![1usize, cfg.hidden_size]) =~= seq![cfg.hidden_size]);
    let all = output_events(cfg, output_norm, lm_head, hidden, owned, s, n, o);
    fresh_parts(used, norm + fetch + row, end);
    fresh_parts(used, norm + fetch, row);
    fresh_parts(used, norm, fetch);
    true_parts(k, mem, norm + fetch + row, end);
    true_parts(k, mem, norm + fetch, row);
    after_events_add(k, mem, norm + fetch + row, end);
    after_events_add(k, mem, norm + fetch, row);
    after_events_add(k, mem, norm, fetch);
    in_use_add(used, norm, fetch);
    use_stays(used, norm);
    let m1 = after_events(k, mem, norm);
    after_one(k, mem, norm[0]);
    let h = mem[hidden.id];
    let normal = normed(
        k,
        h,
        row_shape(hidden.shape),
        operand(mem, output_norm),
        cfg.rms_norm_eps,
    );
    assert(m1[s.normed.id] == normal);
    let m2 = after_events(k, m1, fetch);
    let used2 = in_use(used, fetch);
    if n > 1 {
        fresh_first(used, fetch, o.last);
        assert(fetch =~= seq![fetch[0]] + seq![fetch[1]]);
        after_events_add(k, m1, seq![fetch[0]], seq![fetch[1]]);
        after_one(k, m1, fetch[0]);
        after_one(k, m1, fetch[1]);
        in_use_add(used, seq![fetch[0]], seq![fetch[1]]);
        use_one(used, fetch[0]);
        use_stays(in_use(used, seq![fetch[0]]), seq![fetch[1]]);
        assert(used2 == used.insert(o.last.id));
        assert(m2[last.id](0) == normal(n - 1));
    } else {
        assert(m2 == m1);
        assert(m2[last.id](0) == normal(0));
    }
    assert(used2.contains(last.id));
    fresh_first(used2, row, o.logits);
    let m3 = after_call(k, m2, row[1].call);
    assert(row.take(2) =~= seq![row[0]] + seq![row[1]]);
    after_events_add(k, m2, seq![row[0]], seq![row[1]]);
    after_one(k, m2, row[0]);
    after_one(k, m2, row[1]);
    assert(after_events(k, m2, row.take(2)) == m3);
    true_read(k, m2, row, 2);
    assert(operand(m2, lm_head) == operand(mem, lm_head));
    let r = logit_row(
        k,
        mem,
        cfg,
        output_norm,
        lm_head,
        row_shape(hidden.shape),
        h,
        last_token(n as int),
    );
    assert(m3[o.logits.id](0) == r);
    assert(first(m3[o.logits.id], 1) =~= seq![r]);
    assert(o.logits.shape[0] == 1);
    assert(row =~= row.take(2) + seq![row[2]]);
    after_events_add(k, m2, row.take(2), seq![row[2]]);
    after_one(k, m3, row[2]);
    after_done(k, m3, end_calls);
    after_calls_add(
        k,
        m3,
        seq![DeviceCall::Synchronize],
        frees(output_tensors(hidden, owned, s, n, o)),
    );
    after_one_call(k, m3, DeviceCall::Synchronize);
    after_releases(k, m3, output_tensors(hidden, owned, s, n, o));
}

/// The tensors in use after one event.
pub(crate) proof fn use_one(used: Set<TensorId>, e: DeviceEvent)
    ensures
        e.outcome matches Outcome::Tensor(t) ==> in_use(used, seq![e])
            == used.insert(t.id),
{
    reveal_with_fuel(in_use, 2);
    assert(seq![e].drop_last() =~= Seq::empty());
}

/// What precedes the layers of a pass: the hidden state is made, and it and the scratch tensors
/// get memory of their own.
pub(crate) proof fn setup_computes<R>(
    k: Kernels<R>,
    mem: Memory<R>,
    p: Pass,
    hidden: TensorInfo,
    s: ScratchInfo,
    used: Set<TensorId>,
)
    requires
        p.can_hide(hidden),
        used.contains(p.token_embedding.id),
        p.input matches NodeInputInfo::Activations { hidden_states, .. } ==> used.contains(
            hidden_states.id,
        ),
        gives_fresh_memory(used, p.input_events(hidden) + all_allocated(s.list())),
    ensures
        ({
            let events = p.input_events(hidden) + all_allocated(s.list());
            let m = after_events(k, mem, events);
            &&& m[hidden.id] == pass_input(k, mem, p)
            &&& changes_only(mem, m, set![hidden.id])
            &&& p.owned() ==> !used.contains(hidden.id)
            &&& !p.owned() ==> m == mem
            &&& have_own_memory(hidden, s)
            &&& in_use(used, events) == used.union(pass_memory(hidden, s))
            &&& memory_is_apart(p, hidden, s, used)
        }),
{
    let input = p.input_events(hidden);
    let scratch = all_allocated(s.list());
    after_events_add(k, mem, input, scratch);
    fresh_parts(used, input, scratch);
    in_use_add(used, input, scratch);
    let m = after_events(k, mem, input);
    after_allocations(k, m, s.list());
    let used1 = in_use(used, input);
    if p.owned() {
        assert(input =~= seq![input[0]] + seq![input[1]]);
        after_events_add(k, mem, seq![input[0]], seq![input[1]]);
        after_one(k, mem, input[0]);
        after_one(k, mem, input[1]);
        in_use_add(used, seq![input[0]], seq![input[1]]);
        use_one(used, input[0]);
        use_stays(in_use(used, seq![input[0]]), seq![input[1]]);
        fresh_first(used, input, hidden);
    }
    assert(used1 == used.insert(hidden.id)) by {
        if !p.owned() {
            assert(used.insert(hidden.id) =~= used);
        }
    }
    fresh_tensors(used1, s.list());
    let l = ids(seq![hidden] + s.list());
    let t = ids(s.list());
    assert forall|i: int, j: int| 0 <= i < l.len() && 0 <= j < l.len() && i != j implies l[i]
        != l[j] by {
        assert(i > 0 ==> l[i] == t[i - 1] && l[i] == s.list()[i - 1].id);
        assert(j > 0 ==> l[j] == t[j - 1] && l[j] == s.list()[j - 1].id);
    }
    assert forall|id: TensorId| pass_memory(hidden, s).contains(id) <==> id == hidden.id
        || t.to_set().contains(id) by {
        if l.contains(id) {
            let i = l.index_of(id);
            if i > 0 {
                assert(t[i - 1] == id);
            }
        }
        if t.contains(id) {
            let i = t.index_of(id);
            assert(l[i + 1] == id);
        }
        assert(l[0] == hidden.id);
    }
    assert forall|id: TensorId| t.to_set().contains(id) implies !used1.contains(id) by {
        let i = t.index_of(id);
        assert(s.list()[i].id == id);
    }
    assert(used1.union(t.to_set()) =~= used.union(pass_memory(hidden, s)));
}

/// The hidden state after the last layer of a pass over a contiguous cache.
pub open spec fn pass_result<R>(
    k: Kernels<R>,
    mem: Memory<R>,
    p: Pass,
    pasts: Seq<Past<R>>,
) -> Rows<R> {
    hidden_after(k, mem, p, pasts, pass_input(k, mem, p), p.layers.len() as int)
}

/// The output of a pass, if the model says so: logits for the last token from the last node,
/// else the hidden state.
pub open spec fn gives_the_models_output<R>(
    k: Kernels<R>,
    mem: Memory<R>,
    end: Memory<R>,
    p: Pass,
    pasts: Seq<Past<R>>,
    out: NodeOutputInfo,
) -> bool {
    let h = pass_result(k, mem, p, pasts);
    match out {
        NodeOutputInfo::Logits(l) => p.tail && l == halves(
            (k.bytes)(
                seq![
                    logit_row(
                        k,
                        mem,
                        p.cfg,
                        p.output_norm,
                        p.lm_head,
                        hidden_row(p),
                        h,
                        last_token(p.n() as int),
                    ),
                ],
                seq![1usize, p.cfg.vocab_size],
                (p.cfg.vocab_size * 2) as nat,
            ),
        ),
        NodeOutputInfo::Activations(t) => !p.tail && end[t.id] == h,
    }
}

/// What follows the layers of a pass gives the output that the model says, and leaves all
/// tensors but its own as they are.
pub(crate) proof fn end_computes<R>(
    k: Kernels<R>,
    mem: Memory<R>,
    start: Memory<R>,
    p: Pass,
    hidden: TensorInfo,
    s: ScratchInfo,
    o: OutputInfo,
    pasts: Seq<Past<R>>,
    used: Set<TensorId>,
)
    requires
        p.can_hide(hidden),
        s.fits(p.cfg, p.n()),
        o.fits(p.cfg),
        have_own_memory(hidden, s),
        pass_memory(hidden, s).subset_of(used),
        used.contains(p.output_norm.id),
        used.contains(p.lm_head.id),
        !pass_memory(hidden, s).contains(p.output_norm.id),
        !pass_memory(hidden, s).contains(p.lm_head.id),
        operand(mem, p.output_norm) == operand(start, p.output_norm),
        operand(mem, p.lm_head) == operand(start, p.lm_head),
        mem[hidden.id] == pass_result(k, start, p, pasts),
        gives_fresh_memory(used, p.end_events(hidden, s, o)),
        reads_are_true(k, mem, p.end_events(hidden, s, o)),
    ensures
        ({
            let m = after_events(k, mem, p.end_events(hidden, s, o));
            &&& gives_the_models_output(k, start, m, p, pasts, p.output(hidden, o))
            &&& forall|id: TensorId|
                used.contains(id) && id != s.normed.id ==> #[trigger] m[id] == mem[id]
        }),
{
    own_memory(hidden, s);
    hidden_has_rows(p, hidden);
    if p.tail {
        output_computes(
            k,
            mem,
            p.cfg,
            p.output_norm,
            p.lm_head,
            hidden,
            p.owned(),
            s,
            p.n(),
            o,
            used,
        );
    } else {
        after_done(k, mem, frees(s.list()));
        after_releases(k, mem, s.list());
    }
}

/// The pass has memory that is not in use for anything that it is given.
pub open spec fn memory_is_apart(
    p: Pass,
    hidden: TensorInfo,
    s: ScratchInfo,
    used: Set<TensorId>,
) -> bool {
    forall|id: TensorId|
        #![trigger pass_memory(hidden, s).contains(id)]
        #![trigger used.contains(id)]
        pass_memory(hidden, s).contains(id) && used.contains(id) ==> id == hidden.id && !p.owned()
}

proof fn what_is_given_is_apart(
    p: Pass,
    c: SequenceCacheInfo,
    hidden: TensorInfo,
    s: ScratchInfo,
    used: Set<TensorId>,
)
    requires
        p.can_hide(hidden),
        cache_is_apart(p, c),
        pass_uses(p, c, used),
        memory_is_apart(p, hidden, s, used),
    ensures
        model_outside(p, pass_memory(hidden, s)),
        pass_memory(hidden, s).disjoint(memory_of(c.tensors)),
{
    assert forall|i: int| 0 <= i < p.layers.len() implies weights_outside(
        #[trigger] p.layers[i],
        pass_memory(hidden, s),
    ) by {
        assert(weights_inside(p.layers[i], used));
        if !p.owned() {
            assert(weights_outside(p.layers[i], set![hidden.id]));
        }
    }
    assert forall|id: TensorId| pass_memory(hidden, s).contains(id) && memory_of(
        c.tensors,
    ).contains(id) implies false by {
        let i = ids(c.tensors).index_of(id);
        assert(c.tensors[i].id == id);
        assert(used.contains(id));
    }
}

/// What the layers read is as it was before the pass.
proof fn layers_read_what_is_given<R>(
    mem: Memory<R>,
    m: Memory<R>,
    p: Pass,
    c: SequenceCacheInfo,
    hidden: TensorInfo,
    s: ScratchInfo,
)
    requires
        cache_is_apart(p, c),
        model_outside(p, pass_memory(hidden, s)),
        pass_memory(hidden, s).disjoint(memory_of(c.tensors)),
        have_own_memory(hidden, s),
        changes_only(mem, m, set![hidden.id]),
    ensures
        pasts(m, c, p.layers.len()) == pasts(mem, c, p.layers.len()),
        forall|i: int|
            0 <= i < p.layers.len() ==> pass_layer(m, p, i) == #[trigger] pass_layer(mem, p, i),
{
    own_memory(hidden, s);
    assert(ids(seq![hidden] + s.list())[0] == hidden.id);
    assert forall|i: int| 0 <= i < p.layers.len() implies pasts(m, c, p.layers.len())[i]
        == pasts(mem, c, p.layers.len())[i] by {
        cache_tensors_differ(c, i, i);
        assert(!pass_memory(hidden, s).contains(c.k(i).id));
        assert(m[c.k(i).id] == mem[c.k(i).id]);
        assert(m[c.v(i).id] == mem[c.v(i).id]);
    }
    assert(pasts(m, c, p.layers.len()) =~= pasts(mem, c, p.layers.len()));
    assert forall|i: int| 0 <= i < p.layers.len() implies pass_layer(m, p, i)
        == #[trigger] pass_layer(mem, p, i) by {
        assert(weights_outside(p.layers[i], pass_memory(hidden, s)));
        assert(weights_outside(p.layers[i], set![hidden.id]));
        weights_stay(mem, m, p.layers[i], set![hidden.id]);
    }
}

/// What a pass leaves in the cache of its sequence, if the model says so.
pub open spec fn cache_follows_the_model<R>(
    k: Kernels<R>,
    mem: Memory<R>,
    end: Memory<R>,
    p: Pass,
    c: SequenceCacheInfo,
) -> bool {
    let past = pasts(mem, c, p.layers.len());
    forall|i: int|
        0 <= i < p.layers.len() ==> #[trigger] cached(
            end,
            c.k(i),
            c.v(i),
            c.current_len + p.n(),
        ) == pass_layer(mem, p, i).extended(
            k,
            hidden_after(k, mem, p, past, pass_input(k, mem, p), i),
            p.positions(),
            p.n() as int,
            past[i],
        )
}

/// The phases of a pass, one after the other, compute what the model says.
proof fn phases_compute<R>(
    k: Kernels<R>,
    mem: Memory<R>,
    p: Pass,
    c: SequenceCacheInfo,
    run: ContiguousRun,
    profiling: bool,
    used: Set<TensorId>,
    m1: Memory<R>,
    m2: Memory<R>,
    used1: Set<TensorId>,
)
    requires
        run.fits(p),
        cache_is_apart(p, c),
        pass_uses(p, c, used),
        have_own_memory(run.hidden, run.scratch),
        memory_is_apart(p, run.hidden, run.scratch, used),
        m1[run.hidden.id] == pass_input(k, mem, p),
        changes_only(mem, m1, set![run.hidden.id]),
        m2 == after_events(k, m1, run.layers(p, c, profiling, 0, p.layers.len() as int)),
        used1 == used.union(pass_memory(run.hidden, run.scratch)),
        gives_fresh_memory(used1, p.end_events(run.hidden, run.scratch, run.output)),
        reads_are_true(k, m2, p.end_events(run.hidden, run.scratch, run.output)),
    ensures
        ({
            let end = after_events(k, m2, p.end_events(run.hidden, run.scratch, run.output));
            &&& gives_the_models_output(
                k,
                mem,
                end,
                p,
                pasts(mem, c, p.layers.len()),
                p.output(run.hidden, run.output),
            )
            &&& cache_follows_the_model(k, mem, end, p, c)
        }),
{
    let hidden = run.hidden;
    let s = run.scratch;
    let layers = p.layers.len() as int;
    let past = pasts(mem, c, p.layers.len());
    let input = pass_input(k, mem, p);
    own_memory(hidden, s);
    what_is_given_is_apart(p, c, hidden, s, used);
    layers_leave(k, m1, p, hidden, s, c, profiling, run.clocks, layers);
    layers_read_what_is_given(mem, m1, p, c, hidden, s);
    same_hidden_states(k, m1, mem, p, past, input, layers);
    assert(m2[hidden.id] == pass_result(k, mem, p, past));
    let all = pass_memory(hidden, s).union(memory_of(c.tensors));
    assert(!all.contains(p.output_norm.id) && !all.contains(p.lm_head.id));
    assert(m1[p.output_norm.id] == mem[p.output_norm.id]);
    assert(m1[p.lm_head.id] == mem[p.lm_head.id]);
    assert(m2[p.output_norm.id] == mem[p.output_norm.id]);
    assert(m2[p.lm_head.id] == mem[p.lm_head.id]);
    end_computes(k, m2, mem, p, hidden, s, run.output, past, used1);
    let m3 = after_events(k, m2, p.end_events(hidden, s, run.output));
    assert(ids(seq![hidden] + s.list())[1] == s.normed.id);
    assert forall|i: int| 0 <= i < p.layers.len() implies #[trigger] cached(
        m3,
        c.k(i),
        c.v(i),
        c.current_len + p.n(),
    ) == pass_layer(mem, p, i).extended(
        k,
        hidden_after(k, mem, p, past, input, i),
        p.positions(),
        p.n() as int,
        past[i],
    ) by {
        cache_tensors_differ(c, i, i);
        assert(used.contains(c.tensors[2 * i].id));
        assert(used.contains(c.tensors[2 * i + 1].id));
        assert(!pass_memory(hidden, s).contains(c.k(i).id));
        assert(!pass_memory(hidden, s).contains(c.v(i).id));
        assert(m3[c.k(i).id] == m2[c.k(i).id]);
        assert(m3[c.v(i).id] == m2[c.v(i).id]);
        same_hidden_states(k, m1, mem, p, past, input, i);
        assert(cached(m2, c.k(i), c.v(i), c.current_len + p.n()) == cached(
            m3,
            c.k(i),
            c.v(i),
            c.current_len + p.n(),
        ));
        assert(pass_layer(m1, p, i) == pass_layer(mem, p, i));
    }
}

/// The events of a finished pass.
proof fn finished_run(
    p: Pass,
    handle: CacheHandle,
    before: ContiguousState,
    after: ContiguousState,
    res: Result<NodeOutput>,
) -> (run: ContiguousRun)
    requires
        contiguous_end(p, handle, before, after, res),
        res is Ok,
    ensures
        run.fits(p),
        res->Ok_0@ == p.output(run.hidden, run.output),
        after.trace.skip(before.trace.len() as int) == run.setup(p) + run.layers(
            p,
            before.seqs[handle.0],
            before.profile is Some,
            0,
            p.layers.len() as int,
        ) + p.end_events(run.hidden, run.scratch, run.output),
{
    let run = choose|run: ContiguousRun|
        run.fits(p) && #[trigger] contiguous_outcome(p, handle, run, before, after, res);
    let profiling = before.profile is Some;
    let c = before.seqs[handle.0];
    let layers = p.layers.len() as int;
    let one: int = if layers > 0 {
        1
    } else {
        0
    };
    layers_events_split(p, run.hidden, run.scratch, c, profiling, run.clocks, 0, one, layers);
    added_events(
        before.trace,
        run.setup(p),
        run.layers(p, c, profiling, 0, one),
        run.layers(p, c, profiling, one, layers),
        p.end_events(run.hidden, run.scratch, run.output),
    );
    run
}

/// What follows in a trace.
proof fn added_events(
    before: Seq<DeviceEvent>,
    a: Seq<DeviceEvent>,
    b: Seq<DeviceEvent>,
    c: Seq<DeviceEvent>,
    d: Seq<DeviceEvent>,
)
    ensures
        (before + (a + b) + c + d).skip(before.len() as int) == a + (b + c) + d,
{
    assert((before + (a + b) + c + d).skip(before.len() as int) =~= a + (b + c) + d);
}

/// The events of a finished pass compute what the model says.
proof fn events_compute<R>(
    k: Kernels<R>,
    mem: Memory<R>,
    p: Pass,
    c: SequenceCacheInfo,
    run: ContiguousRun,
    profiling: bool,
    used: Set<TensorId>,
)
    requires
        run.fits(p),
        cache_is_apart(p, c),
        pass_uses(p, c, used),
        gives_fresh_memory(
            used,
            run.setup(p) + run.layers(p, c, profiling, 0, p.layers.len() as int) + p.end_events(
                run.hidden,
                run.scratch,
                run.output,
            ),
        ),
        reads_are_true(
            k,
            mem,
            run.setup(p) + run.layers(p, c, profiling, 0, p.layers.len() as int) + p.end_events(
                run.hidden,
                run.scratch,
                run.output,
            ),
        ),
    ensures
        ({
            let end = after_events(
                k,
                mem,
                run.setup(p) + run.layers(p, c, profiling, 0, p.layers.len() as int)
                    + p.end_events(run.hidden, run.scratch, run.output),
            );
            &&& gives_the_models_output(
                k,
                mem,
                end,
                p,
                pasts(mem, c, p.layers.len()),
                p.output(run.hidden, run.output),
            )
            &&& cache_follows_the_model(k, mem, end, p, c)
        }),
{
    let hidden = run.hidden;
    let s = run.scratch;
    let layers = p.layers.len() as int;
    let setup = run.setup(p);
    let work = run.layers(p, c, profiling, 0, layers);
    let end = p.end_events(hidden, s, run.output);
    let m1 = after_events(k, mem, setup);
    let m2 = after_events(k, m1, work);
    let used1 = used.union(pass_memory(hidden, s));
    fresh_parts(used, setup + work, end);
    fresh_parts(used, setup, work);
    true_parts(k, mem, setup + work, end);
    setup_computes(k, mem, p, hidden, s, used);
    assert(after_events(k, mem, setup + work) == m2) by {
        after_events_add(k, mem, setup, work);
    }
    assert(in_use(used, setup + work) == used1) by {
        in_use_add(used, setup, work);
        layers_keep_use(p, hidden, s, c, profiling, run.clocks, layers);
        use_stays(used1, work);
    }
    assert(after_events(k, mem, setup + work + end) == after_events(k, m2, end)) by {
        after_events_add(k, mem, setup + work, end);
    }
    phases_compute(k, mem, p, c, run, profiling, used, m1, m2, used1);
}

/// A finished pass over a contiguous cache computes what the model says of its tokens and the
/// cached ones: the embeddings go through all layers, and the last token's logits, or the
/// hidden state, come out. The cache then holds the keys and values of the new tokens behind
/// those that it held. This holds whatever the kernels compute, on a device that gives out
/// fresh memory and hands out what its tensors hold.
pub proof fn passes_compute_the_model<R>(
    k: Kernels<R>,
    mem: Memory<R>,
    p: Pass,
    handle: CacheHandle,
    before: ContiguousState,
    after: ContiguousState,
    res: Result<NodeOutput>,
    used: Set<TensorId>,
)
    requires
        contiguous_end(p, handle, before, after, res),
        res is Ok,
        cache_is_apart(p, before.seqs[handle.0]),
        pass_uses(p, before.seqs[handle.0], used),
        gives_fresh_memory(used, after.trace.skip(before.trace.len() as int)),
        reads_are_true(k, mem, after.trace.skip(before.trace.len() as int)),
    ensures
        ({
            let c = before.seqs[handle.0];
            let end = after_events(k, mem, after.trace.skip(before.trace.len() as int));
            &&& gives_the_models_output(
                k,
                mem,
                end,
                p,
                pasts(mem, c, p.layers.len()),
                res->Ok_0@,
            )
            &&& cache_follows_the_model(k, mem, end, p, c)
        }),
{
    let run = finished_run(p, handle, before, after, res);
    events_compute(
        k,
        mem,
        p,
        before.seqs[handle.0],
        run,
        before.profile is Some,
        used,
    );
}

/// Hidden states depend on the weights alone.
pub(crate) proof fn same_hidden_states<R>(
    k: Kernels<R>,
    a: Memory<R>,
    b: Memory<R>,
    p: Pass,
    pasts: Seq<Past<R>>,
    h: Rows<R>,
    l: int,
)
    requires
        l <= p.layers.len(),
        forall|i: int|
            0 <= i < p.layers.len() ==> pass_layer(a, p, i) == #[trigger] pass_layer(b, p, i),
    ensures
        hidden_after(k, a, p, pasts, h, l) == hidden_after(k, b, p, pasts, h, l),
    decreases l,
{
    if l > 0 {
        same_hidden_states(k, a, b, p, pasts, h, l - 1);
        assert(pass_layer(a, p, l - 1) == pass_layer(b, p, l - 1));
    }
}

} // verus!

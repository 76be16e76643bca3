//! What the phases of a forward pass weigh, for the laws on whole passes.
use crate::base::backend::{allocated, done, DeviceCall, DeviceEvent};
use crate::base::model_config::ModelConfig;
use crate::base::program::{
    all_allocated, all_done, frees, step_calls, steps_events, StepCalls, Timing,
};
use crate::base::tally::{
    allocations, calls, holds, step_calls_add, tally, tally_add, tally_nothing, tally_one,
    tally_steps, tally_tensors, timer_weight,
};
use crate::base::tensor::TensorInfo;
use crate::engine::contiguous::{attention_step, layer_events, layer_steps, layers_events};
use crate::engine::kv_cache::SequenceCacheInfo;
use crate::engine::pass::Pass;
use crate::engine::transformer::{
    fetch_events, finish_steps, head_views, output_tensors, project_steps, row_events, viewed,
    OutputInfo, ScratchInfo,
};
use crate::engine::weights::LayerWeightsInfo;
use vstd::prelude::*;

verus! {

/// A call that computes or moves data: no tensor or timer is made or dropped, no
/// marker set, and it is not attention.
pub open spec fn is_kernel(c: DeviceCall) -> bool {
    ||| c is Matmul
    ||| c is Rmsnorm
    ||| c is Rope
    ||| c is SiluMul
    ||| c is Embedding
    ||| c is Add
    ||| c is CopyRows
    ||| c is CopyToHost
    ||| c is Synchronize
}

/// Such calls weigh nothing.
pub open spec fn skips_kernels(weight: spec_fn(DeviceEvent) -> int) -> bool {
    forall|e: DeviceEvent| #[trigger] is_kernel(e.call) ==> weight(e) == 0
}

/// The timers of profiled steps weigh nothing.
pub open spec fn skips_timers(weight: spec_fn(DeviceEvent) -> int) -> bool {
    forall|t: Timing| #[trigger] timer_weight(t, weight) == 0
}

/// Calls that all are kernels weigh nothing.
pub(crate) proof fn kernels_weigh_nothing(cs: Seq<DeviceCall>, weight: spec_fn(DeviceEvent) -> int)
    requires
        skips_kernels(weight),
        forall|i: int| 0 <= i < cs.len() ==> is_kernel(#[trigger] cs[i]),
    ensures
        tally(all_done(cs), weight) == 0,
{
    assert forall|i: int| 0 <= i < cs.len() implies weight(#[trigger] all_done(cs)[i]) == 0 by {
        assert(is_kernel(cs[i]));
        assert(is_kernel(all_done(cs)[i].call));
    }
    tally_nothing(all_done(cs), weight);
}

/// Every call of every step is a kernel.
pub open spec fn all_kernels(steps: Seq<StepCalls>) -> bool {
    forall|i: int, j: int|
        0 <= i < steps.len() && 0 <= j < steps[i].calls.len() ==> is_kernel(
            #[trigger] steps[i].calls[j],
        )
}

/// The calls of steps that are all kernels.
proof fn kernel_steps(steps: Seq<StepCalls>)
    requires
        all_kernels(steps),
    ensures
        forall|i: int|
            0 <= i < step_calls(steps).len() ==> is_kernel(#[trigger] step_calls(steps)[i]),
    decreases steps.len(),
{
    if steps.len() > 0 {
        let front = steps.drop_last();
        assert forall|i: int, j: int|
            0 <= i < front.len() && 0 <= j < front[i].calls.len() implies is_kernel(
            #[trigger] front[i].calls[j],
        ) by {
            assert(is_kernel(steps[i].calls[j]));
        }
        kernel_steps(front);
        let calls = step_calls(front);
        assert forall|i: int| 0 <= i < step_calls(steps).len() implies is_kernel(
            #[trigger] step_calls(steps)[i],
        ) by {
            if i < calls.len() {
                assert(step_calls(steps)[i] == calls[i]);
            } else {
                let last = steps.len() - 1;
                assert(step_calls(steps)[i] == steps[last].calls[i - calls.len()]);
            }
        }
    }
}

/// The steps of a layer before and behind attention weigh nothing.
pub(crate) proof fn layer_work_weighs_nothing(
    cfg: ModelConfig,
    w: LayerWeightsInfo,
    hidden: TensorInfo,
    s: ScratchInfo,
    n: usize,
    positions: Seq<u32>,
    weight: spec_fn(DeviceEvent) -> int,
)
    requires
        skips_kernels(weight),
    ensures
        tally(all_done(step_calls(project_steps(cfg, w, hidden, s, n, positions))), weight) == 0,
        tally(all_done(step_calls(finish_steps(cfg, w, hidden, s, n))), weight) == 0,
{
    let a = project_steps(cfg, w, hidden, s, n, positions);
    let b = finish_steps(cfg, w, hidden, s, n);
    assert(all_kernels(a));
    assert(all_kernels(b));
    kernel_steps(a);
    kernel_steps(b);
    kernels_weigh_nothing(step_calls(a), weight);
    kernels_weigh_nothing(step_calls(b), weight);
}

/// What the attention step of a layer weighs.
proof fn attention_weighs(
    p: Pass,
    s: ScratchInfo,
    c: SequenceCacheInfo,
    i: int,
    weight: spec_fn(DeviceEvent) -> int,
    each: int,
)
    requires
        skips_kernels(weight),
        forall|e: DeviceEvent| #[trigger] e.call is Attention ==> weight(e) == each,
    ensures
        tally(
            all_done(
                attention_step(
                    p.cfg,
                    head_views(p.cfg, s, p.n()),
                    c.k(i),
                    c.v(i),
                    c.current_len,
                    p.n(),
                ).calls,
            ),
            weight,
        ) == each,
{
    let cs = attention_step(
        p.cfg,
        head_views(p.cfg, s, p.n()),
        c.k(i),
        c.v(i),
        c.current_len,
        p.n(),
    ).calls;
    let copies = all_done(cs.take(2));
    let attention = done(cs[2]);
    assert(attention.call is Attention);
    assert(all_done(cs) =~= copies + seq![attention]);
    kernels_weigh_nothing(cs.take(2), weight);
    tally_one(attention, weight);
    tally_add(copies, seq![attention], weight);
}

/// What a layer weighs: its two markers and its attention.
proof fn layer_weighs(
    p: Pass,
    hidden: TensorInfo,
    s: ScratchInfo,
    c: SequenceCacheInfo,
    profiling: bool,
    clock: Seq<Timing>,
    i: int,
    weight: spec_fn(DeviceEvent) -> int,
    push: int,
    attention: int,
    pop: int,
)
    requires
        skips_kernels(weight),
        profiling ==> skips_timers(weight),
        forall|e: DeviceEvent| #[trigger] e.call is MarkerPush ==> weight(e) == push,
        forall|e: DeviceEvent| #[trigger] e.call is Attention ==> weight(e) == attention,
        forall|e: DeviceEvent| #[trigger] e.call is MarkerPop ==> weight(e) == pop,
    ensures
        tally(layer_events(p, hidden, s, c, profiling, clock, i), weight) == push + attention + pop,
{
    let steps = layer_steps(p, hidden, s, c, i);
    let a = project_steps(p.cfg, p.layers[i], hidden, s, p.n(), p.positions());
    let m = attention_step(
        p.cfg,
        head_views(p.cfg, s, p.n()),
        c.k(i),
        c.v(i),
        c.current_len,
        p.n(),
    );
    let b = finish_steps(p.cfg, p.layers[i], hidden, s, p.n());
    tally_steps(steps, profiling, clock, weight);
    step_calls_add(a + seq![m], b);
    step_calls_add(a, seq![m]);
    assert(seq![m].drop_last() =~= Seq::<StepCalls>::empty());
    assert(step_calls(seq![m]) =~= m.calls) by {
        reveal_with_fuel(step_calls, 2);
    }
    let work_a = all_done(step_calls(a));
    let work_m = all_done(m.calls);
    let work_b = all_done(step_calls(b));
    assert(all_done(step_calls(steps)) =~= work_a + work_m + work_b);
    layer_work_weighs_nothing(p.cfg, p.layers[i], hidden, s, p.n(), p.positions(), weight);
    attention_weighs(p, s, c, i, weight, attention);
    tally_add(work_a, work_m, weight);
    tally_add(work_a + work_m, work_b, weight);
    let events = layer_events(p, hidden, s, c, profiling, clock, i);
    let inner = steps_events(steps, profiling, clock);
    let first = events[0];
    let last = events.last();
    assert(first.call is MarkerPush && last.call is MarkerPop);
    assert(events =~= seq![first] + inner + seq![last]);
    tally_one(first, weight);
    tally_one(last, weight);
    tally_add(seq![first], inner, weight);
    tally_add(seq![first] + inner, seq![last], weight);
}

/// What some layers weigh.
pub(crate) proof fn layers_weigh(
    p: Pass,
    hidden: TensorInfo,
    s: ScratchInfo,
    c: SequenceCacheInfo,
    profiling: bool,
    clocks: Seq<Seq<Timing>>,
    from: int,
    to: int,
    weight: spec_fn(DeviceEvent) -> int,
    push: int,
    attention: int,
    pop: int,
)
    requires
        from <= to,
        skips_kernels(weight),
        profiling ==> skips_timers(weight),
        forall|e: DeviceEvent| #[trigger] e.call is MarkerPush ==> weight(e) == push,
        forall|e: DeviceEvent| #[trigger] e.call is Attention ==> weight(e) == attention,
        forall|e: DeviceEvent| #[trigger] e.call is MarkerPop ==> weight(e) == pop,
    ensures
        tally(layers_events(p, hidden, s, c, profiling, clocks, from, to), weight) == (to - from)
            * (push + attention + pop),
    decreases to - from,
{
    let each = push + attention + pop;
    if from < to {
        let before = layers_events(p, hidden, s, c, profiling, clocks, from, to - 1);
        let last = layer_events(p, hidden, s, c, profiling, clocks[to - 1], to - 1);
        layers_weigh(
            p,
            hidden,
            s,
            c,
            profiling,
            clocks,
            from,
            to - 1,
            weight,
            push,
            attention,
            pop,
        );
        layer_weighs(
            p,
            hidden,
            s,
            c,
            profiling,
            clocks[to - 1],
            to - 1,
            weight,
            push,
            attention,
            pop,
        );
        tally_add(before, last, weight);
        assert((to - 1 - from) * each + each == (to - from) * each) by (nonlinear_arith);
    } else {
        assert((to - from) * each == 0) by (nonlinear_arith)
            requires
                to == from,
        ;
    }
}

/// The tensors that a pass allocates.
pub open spec fn tensors_made(
    p: Pass,
    hidden: TensorInfo,
    s: ScratchInfo,
    o: OutputInfo,
) -> Seq<TensorInfo> {
    if p.tail {
        output_tensors(hidden, p.owned(), s, p.n(), o)
    } else {
        (if p.owned() {
            seq![hidden]
        } else {
            Seq::empty()
        }) + s.list()
    }
}

/// How many tensors a pass allocates: the hidden state where it makes it, ten scratch
/// tensors, and on the last node the logits and, of several tokens, the last row.
pub open spec fn pass_allocations(p: Pass) -> int {
    (if p.owned() {
        1int
    } else {
        0
    }) + 10 + (if !p.tail {
        0int
    } else if p.n() > 1 {
        2
    } else {
        1
    })
}

/// The tensors that a pass frees: all that it allocated, but for the activations that
/// it hands on.
pub open spec fn tensors_freed(
    p: Pass,
    hidden: TensorInfo,
    s: ScratchInfo,
    o: OutputInfo,
) -> Seq<TensorInfo> {
    if p.tail {
        output_tensors(hidden, p.owned(), s, p.n(), o)
    } else {
        s.list()
    }
}

/// What some tensors weigh when they are allocated.
proof fn allocations_add(
    a: Seq<TensorInfo>,
    b: Seq<TensorInfo>,
    weight: spec_fn(DeviceEvent) -> int,
)
    ensures
        tally(all_allocated(a + b), weight) == tally(all_allocated(a), weight) + tally(
            all_allocated(b),
            weight,
        ),
{
    assert(all_allocated(a + b) =~= all_allocated(a) + all_allocated(b));
    tally_add(all_allocated(a), all_allocated(b), weight);
}

/// One tensor that is allocated.
pub(crate) proof fn allocation_weighs(t: TensorInfo, weight: spec_fn(DeviceEvent) -> int)
    ensures
        tally(all_allocated(seq![t]), weight) == weight(allocated(t)),
{
    assert(all_allocated(seq![t]) =~= seq![allocated(t)]);
    tally_one(allocated(t), weight);
}

/// What the phases outside the layers weigh: the tensors that are allocated, and those
/// that are freed.
pub(crate) proof fn frame_weighs(
    p: Pass,
    hidden: TensorInfo,
    s: ScratchInfo,
    o: OutputInfo,
    weight: spec_fn(DeviceEvent) -> int,
)
    requires
        skips_kernels(weight),
    ensures
        tally(p.input_events(hidden) + all_allocated(s.list()), weight) + tally(
            p.end_events(hidden, s, o),
            weight,
        ) == tally(all_allocated(tensors_made(p, hidden, s, o)), weight) + tally(
            all_done(frees(tensors_freed(p, hidden, s, o))),
            weight,
        ),
{
    let own = if p.owned() {
        seq![hidden]
    } else {
        Seq::empty()
    };
    let input = p.input_events(hidden);
    let scratch = all_allocated(s.list());
    tally_add(input, scratch, weight);
    if p.owned() {
        let lookup = input[1];
        assert(is_kernel(lookup.call));
        assert(input =~= seq![allocated(hidden)] + seq![lookup]);
        tally_one(allocated(hidden), weight);
        tally_one(lookup, weight);
        tally_add(seq![allocated(hidden)], seq![lookup], weight);
        allocation_weighs(hidden, weight);
    } else {
        assert(all_allocated(own) =~= Seq::empty());
    }
    assert(tally(input, weight) == tally(all_allocated(own), weight));
    allocations_add(own, s.list(), weight);
    if p.tail {
        output_weighs(p, hidden, s, o, weight);
        let more = if p.n() > 1 {
            seq![o.last]
        } else {
            Seq::empty()
        };
        allocations_add(own + s.list(), seq![o.logits], weight);
        allocations_add(own + s.list() + seq![o.logits], more, weight);
        allocation_weighs(o.logits, weight);
        if p.n() > 1 {
            allocation_weighs(o.last, weight);
        } else {
            assert(all_allocated(more) =~= Seq::empty());
        }
    }
}

/// What the output phase weighs.
proof fn output_weighs(
    p: Pass,
    hidden: TensorInfo,
    s: ScratchInfo,
    o: OutputInfo,
    weight: spec_fn(DeviceEvent) -> int,
)
    requires
        p.tail,
        skips_kernels(weight),
    ensures
        tally(p.end_events(hidden, s, o), weight) == weight(allocated(o.logits)) + (if p.n() > 1 {
            weight(allocated(o.last))
        } else {
            0
        }) + tally(all_done(frees(tensors_freed(p, hidden, s, o))), weight),
{
    let events = p.end_events(hidden, s, o);
    let drops = all_done(frees(tensors_freed(p, hidden, s, o)));
    let norm = events[0];
    let last = if p.n() > 1 {
        o.last
    } else {
        viewed(s.normed, seq![1usize, p.cfg.hidden_size])
    };
    let fetch = if p.n() > 1 {
        fetch_events(s.normed, (p.n() - 1) as usize, o.last)
    } else {
        Seq::empty()
    };
    let row = row_events(last, p.lm_head, o.logits, o.bytes);
    let sync = done(DeviceCall::Synchronize);
    assert(is_kernel(norm.call) && is_kernel(sync.call));
    assert(all_done(
        seq![DeviceCall::Synchronize] + frees(tensors_freed(p, hidden, s, o)),
    ) =~= seq![sync] + drops);
    assert(events =~= seq![norm] + fetch + row + (seq![sync] + drops));
    tally_one(norm, weight);
    tally_one(sync, weight);
    tally_add(seq![sync], drops, weight);
    tally_add(seq![norm], fetch, weight);
    tally_add(seq![norm] + fetch, row, weight);
    tally_add(seq![norm] + fetch + row, seq![sync] + drops, weight);
    row_weighs(last, p.lm_head, o.logits, o.bytes, weight);
    if p.n() > 1 {
        fetch_weighs(s.normed, (p.n() - 1) as usize, o.last, weight);
    }
}

/// What the reading of a row of logits weighs.
pub(crate) proof fn row_weighs(
    last: TensorInfo,
    lm_head: TensorInfo,
    logits: TensorInfo,
    bytes: Seq<u8>,
    weight: spec_fn(DeviceEvent) -> int,
)
    requires
        skips_kernels(weight),
    ensures
        tally(row_events(last, lm_head, logits, bytes), weight) == weight(allocated(logits)),
{
    let events = row_events(last, lm_head, logits, bytes);
    assert(is_kernel(events[1].call) && is_kernel(events[2].call));
    assert(events =~= seq![events[0]] + events.skip(1));
    tally_one(events[0], weight);
    tally_nothing(events.skip(1), weight);
    tally_add(seq![events[0]], events.skip(1), weight);
}

/// What the fetching of a row weighs.
pub(crate) proof fn fetch_weighs(
    normed: TensorInfo,
    row: usize,
    last: TensorInfo,
    weight: spec_fn(DeviceEvent) -> int,
)
    requires
        skips_kernels(weight),
    ensures
        tally(fetch_events(normed, row, last), weight) == weight(allocated(last)),
{
    let events = fetch_events(normed, row, last);
    assert(is_kernel(events[1].call));
    assert(events =~= seq![events[0]] + seq![events[1]]);
    tally_one(events[0], weight);
    tally_one(events[1], weight);
    tally_add(seq![events[0]], seq![events[1]], weight);
}

/// What a pass holds of a tensor after its last phase.
pub(crate) proof fn held_by_frame(
    p: Pass,
    hidden: TensorInfo,
    s: ScratchInfo,
    o: OutputInfo,
    t: TensorInfo,
)
    ensures
        tally(all_allocated(tensors_made(p, hidden, s, o)), holds(t)) + tally(
            all_done(frees(tensors_freed(p, hidden, s, o))),
            holds(t),
        ) == if p.owned() && !p.tail && hidden == t {
            1int
        } else {
            0
        },
{
    tally_tensors(tensors_freed(p, hidden, s, o), holds(t));
    if !p.tail {
        let list = s.list();
        if p.owned() {
            allocations_add(seq![hidden], list, holds(t));
            allocation_weighs(hidden, holds(t));
        } else {
            assert(Seq::<TensorInfo>::empty() + list =~= list);
        }
    }
}

/// Tensors weigh nothing where their allocation and their release do not count.
pub(crate) proof fn frame_without_weight(
    p: Pass,
    hidden: TensorInfo,
    s: ScratchInfo,
    o: OutputInfo,
    kind: spec_fn(DeviceCall) -> bool,
)
    requires
        forall|c: DeviceCall| #[trigger] kind(c) ==> !(c is Alloc) && !(c is Free),
    ensures
        tally(all_allocated(tensors_made(p, hidden, s, o)), calls(kind)) == 0,
        tally(all_done(frees(tensors_freed(p, hidden, s, o))), calls(kind)) == 0,
{
    tally_nothing(all_allocated(tensors_made(p, hidden, s, o)), calls(kind));
    tally_nothing(all_done(frees(tensors_freed(p, hidden, s, o))), calls(kind));
}

/// How many tensors are allocated.
pub(crate) proof fn allocations_count(ts: Seq<TensorInfo>)
    ensures
        tally(all_allocated(ts), calls(allocations())) == ts.len(),
        tally(all_done(frees(ts)), calls(allocations())) == 0,
    decreases ts.len(),
{
    tally_nothing(all_done(frees(ts)), calls(allocations()));
    if ts.len() > 0 {
        allocations_count(ts.drop_last());
        assert(all_allocated(ts).drop_last() =~= all_allocated(ts.drop_last()));
    }
}

} // verus!

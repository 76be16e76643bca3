//! Laws on forward passes over a contiguous cache.
use crate::base::backend::{DeviceEvent, DeviceTimer};
use crate::base::error::Result;
use crate::base::program::{
    all_allocated, all_done, failed_with, frees, programs_fail_with_the_device, ran,
};
use crate::base::tally::{
    allocations, attentions, calls, holds, keeps, marker_pops, marker_pushes, tally, tally_add,
    tally_nothing, tally_ran, timing,
};
use crate::base::tensor::TensorInfo;
use crate::engine::contiguous::{
    contiguous_end, contiguous_outcome, layers_events_split, ContiguousRun, ContiguousState,
};
use crate::engine::kv_cache::CacheHandle;
use crate::engine::node::{NodeOutput, NodeOutputInfo};
use crate::engine::pass::Pass;
use crate::engine::weighing::{
    allocations_count, frame_weighs, frame_without_weight, held_by_frame, layers_weigh,
    pass_allocations, skips_kernels, skips_timers, tensors_freed, tensors_made,
};
use vstd::prelude::*;

verus! {

/// What a finished pass weighs: the tensors that it allocated, those that it freed,
/// and the markers and the attention of each layer.
proof fn pass_weighs(
    p: Pass,
    handle: CacheHandle,
    run: ContiguousRun,
    before: ContiguousState,
    after: ContiguousState,
    res: Result<NodeOutput>,
    weight: spec_fn(DeviceEvent) -> int,
    push: int,
    attention: int,
    pop: int,
)
    requires
        contiguous_outcome(p, handle, run, before, after, res),
        res is Ok,
        skips_kernels(weight),
        before.profile is Some ==> skips_timers(weight),
        forall|e: DeviceEvent| #[trigger] e.call is MarkerPush ==> weight(e) == push,
        forall|e: DeviceEvent| #[trigger] e.call is Attention ==> weight(e) == attention,
        forall|e: DeviceEvent| #[trigger] e.call is MarkerPop ==> weight(e) == pop,
    ensures
        tally(after.trace, weight) - tally(before.trace, weight) == tally(
            all_allocated(tensors_made(p, run.hidden, run.scratch, run.output)),
            weight,
        ) + tally(
            all_done(frees(tensors_freed(p, run.hidden, run.scratch, run.output))),
            weight,
        ) + p.layers.len() * (push + attention + pop),
{
    let profiling = before.profile is Some;
    let c = before.seqs[handle.0];
    let layers = p.layers.len() as int;
    let one: int = if layers > 0 {
        1
    } else {
        0
    };
    let setup = run.setup(p);
    let first = run.layers(p, c, profiling, 0, one);
    let others = run.layers(p, c, profiling, one, layers);
    let end = p.end_events(run.hidden, run.scratch, run.output);
    tally_add(setup, first, weight);
    tally_add(before.trace, setup + first, weight);
    tally_add(before.trace + (setup + first), others, weight);
    tally_add(before.trace + (setup + first) + others, end, weight);
    layers_events_split(
        p,
        run.hidden,
        run.scratch,
        c,
        profiling,
        run.clocks,
        0,
        one,
        layers,
    );
    tally_add(first, others, weight);
    layers_weigh(
        p,
        run.hidden,
        run.scratch,
        c,
        profiling,
        run.clocks,
        0,
        layers,
        weight,
        push,
        attention,
        pop,
    );
    frame_weighs(p, run.hidden, run.scratch, run.output, weight);
}

/// A finished pass frees every tensor that it allocated as often as it allocated it,
/// and no other, but for the activations that it made and hands on.
pub proof fn passes_free_what_they_allocate(
    p: Pass,
    handle: CacheHandle,
    before: ContiguousState,
    after: ContiguousState,
    res: Result<NodeOutput>,
    t: TensorInfo,
)
    requires
        contiguous_end(p, handle, before, after, res),
        res is Ok,
    ensures
        tally(after.trace, holds(t)) - tally(before.trace, holds(t)) == if p.owned()
            && res->Ok_0@ == NodeOutputInfo::Activations(t) {
            1int
        } else {
            0
        },
{
    let run = choose|run: ContiguousRun|
        run.fits(p) && #[trigger] contiguous_outcome(p, handle, run, before, after, res);
    pass_weighs(p, handle, run, before, after, res, holds(t), 0, 0, 0);
    assert(p.layers.len() * (0 + 0 + 0) == 0) by (nonlinear_arith);
    held_by_frame(p, run.hidden, run.scratch, run.output, t);
}

/// The number of tensors that a finished pass allocates does not depend on the number
/// of layers.
pub proof fn layers_allocate_nothing(
    p: Pass,
    handle: CacheHandle,
    before: ContiguousState,
    after: ContiguousState,
    res: Result<NodeOutput>,
)
    requires
        contiguous_end(p, handle, before, after, res),
        res is Ok,
    ensures
        tally(after.trace, calls(allocations())) - tally(before.trace, calls(allocations()))
            == pass_allocations(p),
{
    let run = choose|run: ContiguousRun|
        run.fits(p) && #[trigger] contiguous_outcome(p, handle, run, before, after, res);
    pass_weighs(p, handle, run, before, after, res, calls(allocations()), 0, 0, 0);
    assert(p.layers.len() * (0 + 0 + 0) == 0) by (nonlinear_arith);
    allocations_count(tensors_made(p, run.hidden, run.scratch, run.output));
    allocations_count(tensors_freed(p, run.hidden, run.scratch, run.output));
}

/// Every layer of a finished pass has one marker, which ends.
pub proof fn layers_are_marked(
    p: Pass,
    handle: CacheHandle,
    before: ContiguousState,
    after: ContiguousState,
    res: Result<NodeOutput>,
)
    requires
        contiguous_end(p, handle, before, after, res),
        res is Ok,
    ensures
        tally(after.trace, calls(marker_pushes())) - tally(before.trace, calls(marker_pushes()))
            == p.layers.len(),
        tally(after.trace, calls(marker_pops())) - tally(before.trace, calls(marker_pops()))
            == p.layers.len(),
{
    let run = choose|run: ContiguousRun|
        run.fits(p) && #[trigger] contiguous_outcome(p, handle, run, before, after, res);
    pass_weighs(p, handle, run, before, after, res, calls(marker_pushes()), 1, 0, 0);
    frame_without_weight(p, run.hidden, run.scratch, run.output, marker_pushes());
    pass_weighs(p, handle, run, before, after, res, calls(marker_pops()), 0, 0, 1);
    frame_without_weight(p, run.hidden, run.scratch, run.output, marker_pops());
}

/// Every layer of a finished pass runs attention once.
pub proof fn layers_attend_once(
    p: Pass,
    handle: CacheHandle,
    before: ContiguousState,
    after: ContiguousState,
    res: Result<NodeOutput>,
)
    requires
        contiguous_end(p, handle, before, after, res),
        res is Ok,
    ensures
        tally(after.trace, calls(attentions())) - tally(before.trace, calls(attentions()))
            == p.layers.len(),
{
    let run = choose|run: ContiguousRun|
        run.fits(p) && #[trigger] contiguous_outcome(p, handle, run, before, after, res);
    pass_weighs(p, handle, run, before, after, res, calls(attentions()), 0, 1, 0);
    frame_without_weight(p, run.hidden, run.scratch, run.output, attentions());
}

/// A finished pass destroys every timer that it made.
pub proof fn passes_destroy_their_timers(
    p: Pass,
    handle: CacheHandle,
    before: ContiguousState,
    after: ContiguousState,
    res: Result<NodeOutput>,
    timer: DeviceTimer,
)
    requires
        contiguous_end(p, handle, before, after, res),
        res is Ok,
    ensures
        tally(after.trace, keeps(timer)) == tally(before.trace, keeps(timer)),
{
    let run = choose|run: ContiguousRun|
        run.fits(p) && #[trigger] contiguous_outcome(p, handle, run, before, after, res);
    pass_weighs(p, handle, run, before, after, res, keeps(timer), 0, 0, 0);
    assert(p.layers.len() * (0 + 0 + 0) == 0) by (nonlinear_arith);
    tally_nothing(
        all_allocated(tensors_made(p, run.hidden, run.scratch, run.output)),
        keeps(timer),
    );
    tally_nothing(
        all_done(frees(tensors_freed(p, run.hidden, run.scratch, run.output))),
        keeps(timer),
    );
}

/// A pass without a profile makes no call on a timer, however it ends, and leaves no
/// profile.
pub proof fn nothing_is_timed_without_profile(
    p: Pass,
    handle: CacheHandle,
    before: ContiguousState,
    after: ContiguousState,
    res: Result<NodeOutput>,
)
    requires
        contiguous_end(p, handle, before, after, res),
        before.profile is None,
    ensures
        tally(after.trace, calls(timing())) == tally(before.trace, calls(timing())),
        after.profile is None,
{
    if !p.refused() {
        let run = choose|run: ContiguousRun|
            run.fits(p) && #[trigger] contiguous_outcome(p, handle, run, before, after, res);
        let kind = timing();
        let c = before.seqs[handle.0];
        let layers = p.layers.len() as int;
        let one: int = if layers > 0 {
            1
        } else {
            0
        };
        let input = p.input_events(run.hidden);
        let setup = run.setup(p);
        let some = run.layers(p, c, false, 0, one);
        let first = setup + some;
        let others = run.layers(p, c, false, one, layers);
        let end = p.end_events(run.hidden, run.scratch, run.output);
        frame_is_untimed(p, run);
        layers_weigh(
            p,
            run.hidden,
            run.scratch,
            c,
            false,
            run.clocks,
            0,
            one,
            calls(kind),
            0,
            0,
            0,
        );
        layers_weigh(
            p,
            run.hidden,
            run.scratch,
            c,
            false,
            run.clocks,
            one,
            layers,
            calls(kind),
            0,
            0,
            0,
        );
        assert((layers - one) * (0 + 0 + 0) == 0 && (one - 0) * (0 + 0 + 0) == 0)
            by (nonlinear_arith);
        tally_add(setup, some, calls(kind));
        tally_add(before.trace, first, calls(kind));
        tally_add(before.trace + first, others, calls(kind));
        tally_add(before.trace + first + others, end, calls(kind));
        if let Err(e) = res {
            let b = before.trace;
            let a = after.trace;
            if ran(b, a, input, Some(e)) || a == b + input {
                tally_add(b, input, calls(kind));
                if ran(b, a, input, Some(e)) {
                    tally_ran(b, a, input, Some(e), kind);
                }
            } else if ran(b, a, setup, Some(e)) || a == b + setup {
                tally_add(b, setup, calls(kind));
                if ran(b, a, setup, Some(e)) {
                    tally_ran(b, a, setup, Some(e), kind);
                }
            } else if ran(b, a, first, Some(e)) || a == b + first {
                if ran(b, a, first, Some(e)) {
                    tally_ran(b, a, first, Some(e), kind);
                }
            } else if ran(b + first, a, others, Some(e)) {
                tally_ran(b + first, a, others, Some(e), kind);
            } else {
                tally_ran(b + first + others, a, end, Some(e), kind);
            }
        }
    }
}

/// The phases outside the layers make no call on a timer.
proof fn frame_is_untimed(p: Pass, run: ContiguousRun)
    ensures
        tally(p.input_events(run.hidden), calls(timing())) == 0,
        tally(run.setup(p), calls(timing())) == 0,
        tally(p.end_events(run.hidden, run.scratch, run.output), calls(timing())) == 0,
{
    tally_nothing(p.input_events(run.hidden), calls(timing()));
    tally_nothing(run.setup(p), calls(timing()));
    frame_weighs(p, run.hidden, run.scratch, run.output, calls(timing()));
    frame_without_weight(p, run.hidden, run.scratch, run.output, timing());
}

/// A finished pass appends its tokens to the cached sequence, where it has layers, and
/// leaves every other sequence as it was.
pub proof fn passes_append_their_tokens(
    p: Pass,
    handle: CacheHandle,
    before: ContiguousState,
    after: ContiguousState,
    res: Result<NodeOutput>,
)
    requires
        contiguous_end(p, handle, before, after, res),
        res is Ok,
    ensures
        before.seqs.contains_key(handle.0),
        after.seqs.dom() =~= before.seqs.dom(),
        p.layers.len() > 0 ==> after.seqs[handle.0].current_len == before.seqs[handle.0].current_len
            + p.n() && after.seqs[handle.0].current_len <= before.seqs[handle.0].max_len,
        p.layers.len() == 0 ==> after.seqs == before.seqs,
        forall|h: u64|
            h != handle.0 && before.seqs.contains_key(h) ==> #[trigger] after.seqs[h]
                == before.seqs[h],
{
}

/// A finished pass of the last node gives one logit for each word of the vocabulary;
/// that of any other node gives activations of the input's length.
pub proof fn logits_cover_the_vocabulary(
    p: Pass,
    handle: CacheHandle,
    before: ContiguousState,
    after: ContiguousState,
    res: Result<NodeOutput>,
)
    requires
        contiguous_end(p, handle, before, after, res),
        res is Ok,
    ensures
        p.tail ==> (res->Ok_0@ matches NodeOutputInfo::Logits(l) && l.len() == p.cfg.vocab_size),
        !p.tail ==> (res->Ok_0@ matches NodeOutputInfo::Activations(t) && p.can_hide(t)),
{
}

/// A pass whose input is not of the right kind, whose positions lie beyond the model,
/// whose sequence is unknown or whose cache has no room fails, and leaves the cache
/// as it was.
pub proof fn refused_passes_leave_the_cache(
    p: Pass,
    handle: CacheHandle,
    before: ContiguousState,
    after: ContiguousState,
    res: Result<NodeOutput>,
)
    requires
        contiguous_end(p, handle, before, after, res),
        p.refused() || p.beyond() || !before.seqs.contains_key(handle.0) || (p.layers.len() > 0
            && before.seqs[handle.0].current_len + p.n() > before.seqs[handle.0].max_len),
    ensures
        res is Err,
        after.seqs == before.seqs,
        after.profile == before.profile,
{
}

/// A pass that nothing forbids fails only where the device does, with the device's error:
/// where every call succeeds, so does the pass.
pub proof fn passes_fail_only_with_the_device(
    p: Pass,
    handle: CacheHandle,
    before: ContiguousState,
    after: ContiguousState,
    res: Result<NodeOutput>,
)
    requires
        contiguous_end(p, handle, before, after, res),
        !p.refused(),
        !p.beyond(),
        before.seqs.contains_key(handle.0),
        p.layers.len() > 0 ==> before.seqs[handle.0].current_len + p.n()
            <= before.seqs[handle.0].max_len,
    ensures
        res matches Err(e) ==> failed_with(before.trace, after.trace, e),
{
    if let Err(e) = res {
        let run = choose|run: ContiguousRun|
            run.fits(p) && #[trigger] contiguous_outcome(p, handle, run, before, after, res);
        let profiling = before.profile is Some;
        let c = before.seqs[handle.0];
        let layers = p.layers.len() as int;
        let one: int = if layers > 0 {
            1
        } else {
            0
        };
        let first = run.setup(p) + run.layers(p, c, profiling, 0, one);
        let others = run.layers(p, c, profiling, one, layers);
        let end = p.end_events(run.hidden, run.scratch, run.output);
        let b = before.trace;
        if ran(b, after.trace, first, Some(e)) {
            programs_fail_with_the_device(b, after.trace, first, e);
        } else if ran(b + first, after.trace, others, Some(e)) {
            programs_fail_with_the_device(b + first, after.trace, others, e);
        } else {
            programs_fail_with_the_device(b + first + others, after.trace, end, e);
        }
    }
}

} // verus!

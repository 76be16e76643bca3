//! Sums over device traces, for laws on what a program does as a whole.
use crate::base::backend::{allocated, done, failed, DeviceCall, DeviceEvent, DeviceTimer, Outcome};
use crate::base::error::FractureError;
use crate::base::program::{
    all_allocated, all_done, frees, ran, step_calls, step_events, steps_events, stopped,
    StepCalls, Timing,
};
use crate::base::tensor::TensorInfo;
use vstd::prelude::*;

verus! {

/// The sum of the weights of all events.
pub open spec fn tally(events: Seq<DeviceEvent>, weight: spec_fn(DeviceEvent) -> int) -> int
    decreases events.len(),
{
    if events.len() == 0 {
        0
    } else {
        tally(events.drop_last(), weight) + weight(events.last())
    }
}

/// One for each event whose call is of the kind.
pub open spec fn calls(kind: spec_fn(DeviceCall) -> bool) -> spec_fn(DeviceEvent) -> int {
    |e: DeviceEvent|
        if kind(e.call) {
            1
        } else {
            0
        }
}

/// One for each allocation of `t`, less one for each release of it: what the tally
/// of a trace says is how many times `t` is held.
pub open spec fn holds(t: TensorInfo) -> spec_fn(DeviceEvent) -> int {
    |e: DeviceEvent|
        if e == allocated(t) {
            1
        } else if e == done(DeviceCall::Free { tensor: t }) {
            -1
        } else {
            0
        }
}

/// One for each time that `timer` was made, less one for each time it was destroyed.
pub open spec fn keeps(timer: DeviceTimer) -> spec_fn(DeviceEvent) -> int {
    |e: DeviceEvent|
        if e.call is CreateTimer && e.outcome == Outcome::Timer(timer) {
            1
        } else if e == done(DeviceCall::DestroyTimer { timer }) {
            -1
        } else {
            0
        }
}

/// Calls on timers.
pub open spec fn timing() -> spec_fn(DeviceCall) -> bool {
    |c: DeviceCall|
        c is CreateTimer || c is StartTimer || c is StopTimer || c is DestroyTimer
}

/// Calls that begin a marker.
pub open spec fn marker_pushes() -> spec_fn(DeviceCall) -> bool {
    |c: DeviceCall| c is MarkerPush
}

/// Calls that end a marker.
pub open spec fn marker_pops() -> spec_fn(DeviceCall) -> bool {
    |c: DeviceCall| c is MarkerPop
}

/// Calls of attention over a contiguous cache.
pub open spec fn attentions() -> spec_fn(DeviceCall) -> bool {
    |c: DeviceCall| c is Attention
}

/// Calls of attention over a paged cache.
pub open spec fn paged_attentions() -> spec_fn(DeviceCall) -> bool {
    |c: DeviceCall| c is AttentionPaged
}

/// Calls that allocate a tensor.
pub open spec fn allocations() -> spec_fn(DeviceCall) -> bool {
    |c: DeviceCall| c is Alloc
}

/// The sum over two traces in a row is the sum of the sums.
pub(crate) proof fn tally_add(
    a: Seq<DeviceEvent>,
    b: Seq<DeviceEvent>,
    weight: spec_fn(DeviceEvent) -> int,
)
    ensures
        tally(a + b, weight) == tally(a, weight) + tally(b, weight),
    decreases b.len(),
{
    if b.len() == 0 {
        assert(a + b =~= a);
    } else {
        tally_add(a, b.drop_last(), weight);
        assert((a + b).drop_last() =~= a + b.drop_last());
    }
}

/// One event weighs what its weight is.
pub(crate) proof fn tally_one(e: DeviceEvent, weight: spec_fn(DeviceEvent) -> int)
    ensures
        tally(seq![e], weight) == weight(e),
{
    assert(seq![e].drop_last() =~= Seq::<DeviceEvent>::empty());
    assert(tally(seq![e].drop_last(), weight) == 0);
}

/// Events without weight add up to nothing.
pub(crate) proof fn tally_nothing(events: Seq<DeviceEvent>, weight: spec_fn(DeviceEvent) -> int)
    requires
        forall|i: int| 0 <= i < events.len() ==> weight(#[trigger] events[i]) == 0,
    ensures
        tally(events, weight) == 0,
    decreases events.len(),
{
    if events.len() > 0 {
        tally_nothing(events.drop_last(), weight);
    }
}

/// Tensors that are allocated and then released weigh nothing together, where an
/// allocation and a release do.
pub(crate) proof fn tally_tensors(ts: Seq<TensorInfo>, weight: spec_fn(DeviceEvent) -> int)
    requires
        forall|t: TensorInfo|
            #![trigger allocated(t)]
            weight(allocated(t)) + weight(done(DeviceCall::Free { tensor: t })) == 0,
    ensures
        tally(all_allocated(ts), weight) + tally(all_done(frees(ts)), weight) == 0,
    decreases ts.len(),
{
    if ts.len() == 0 {
        assert(all_allocated(ts) =~= Seq::empty());
        assert(all_done(frees(ts)) =~= Seq::empty());
    } else {
        tally_tensors(ts.drop_last(), weight);
        assert(all_allocated(ts).drop_last() =~= all_allocated(ts.drop_last()));
        assert(all_done(frees(ts)).drop_last() =~= all_done(frees(ts.drop_last())));
        assert(all_allocated(ts).last() == allocated(ts.last()));
        assert(all_done(frees(ts)).last() == done(DeviceCall::Free { tensor: ts.last() }));
    }
}

/// The calls of two lists of steps in a row.
pub(crate) proof fn step_calls_add(a: Seq<StepCalls>, b: Seq<StepCalls>)
    ensures
        step_calls(a + b) == step_calls(a) + step_calls(b),
    decreases b.len(),
{
    if b.len() == 0 {
        assert(a + b =~= a);
        assert(step_calls(a) + step_calls(b) =~= step_calls(a));
    } else {
        step_calls_add(a, b.drop_last());
        assert((a + b).drop_last() =~= a + b.drop_last());
        assert(step_calls(a) + step_calls(b.drop_last()) + b.last().calls =~= step_calls(a)
            + step_calls(b));
    }
}

/// The events of a step weigh what its calls weigh, where the four calls on its
/// timer weigh nothing together.
proof fn tally_step(
    step: StepCalls,
    profiling: bool,
    t: Timing,
    weight: spec_fn(DeviceEvent) -> int,
)
    requires
        profiling ==> timer_weight(t, weight) == 0,
    ensures
        tally(step_events(step, profiling, t), weight) == tally(all_done(step.calls), weight),
{
    if step.timed && profiling {
        let a = DeviceEvent { call: DeviceCall::CreateTimer, outcome: Outcome::Timer(t.timer) };
        let b = done(DeviceCall::StartTimer { timer: t.timer });
        let c = DeviceEvent {
            call: DeviceCall::StopTimer { timer: t.timer },
            outcome: Outcome::Elapsed(t.elapsed),
        };
        let d = done(DeviceCall::DestroyTimer { timer: t.timer });
        let body = all_done(step.calls);
        assert(seq![a, b] =~= seq![a] + seq![b]);
        assert(seq![c, d] =~= seq![c] + seq![d]);
        tally_one(a, weight);
        tally_one(b, weight);
        tally_one(c, weight);
        tally_one(d, weight);
        tally_add(seq![a], seq![b], weight);
        tally_add(seq![c], seq![d], weight);
        tally_add(seq![a, b], body, weight);
        tally_add(seq![a, b] + body, seq![c, d], weight);
    }
}

/// What the four calls on the timer of a step weigh together.
pub open spec fn timer_weight(t: Timing, weight: spec_fn(DeviceEvent) -> int) -> int {
    weight(DeviceEvent { call: DeviceCall::CreateTimer, outcome: Outcome::Timer(t.timer) })
        + weight(done(DeviceCall::StartTimer { timer: t.timer })) + weight(
        DeviceEvent {
            call: DeviceCall::StopTimer { timer: t.timer },
            outcome: Outcome::Elapsed(t.elapsed),
        },
    ) + weight(done(DeviceCall::DestroyTimer { timer: t.timer }))
}

/// The events of steps weigh what their calls weigh, where timers weigh nothing or
/// are not used.
pub(crate) proof fn tally_steps(
    steps: Seq<StepCalls>,
    profiling: bool,
    clock: Seq<Timing>,
    weight: spec_fn(DeviceEvent) -> int,
)
    requires
        profiling ==> forall|t: Timing| #[trigger] timer_weight(t, weight) == 0,
    ensures
        tally(steps_events(steps, profiling, clock), weight) == tally(
            all_done(step_calls(steps)),
            weight,
        ),
    decreases steps.len(),
{
    if steps.len() == 0 {
        assert(all_done(step_calls(steps)) =~= Seq::empty());
    } else {
        let front = steps.drop_last();
        let t = clock[steps.len() - 1];
        tally_steps(front, profiling, clock, weight);
        assert(profiling ==> timer_weight(t, weight) == 0);
        tally_step(steps.last(), profiling, t, weight);
        tally_add(
            steps_events(front, profiling, clock),
            step_events(steps.last(), profiling, t),
            weight,
        );
        assert(all_done(step_calls(steps)) =~= all_done(step_calls(front)) + all_done(
            steps.last().calls,
        ));
        tally_add(all_done(step_calls(front)), all_done(steps.last().calls), weight);
    }
}

/// A program without calls of a kind adds none to the trace, however it ends.
pub(crate) proof fn tally_ran(
    before: Seq<DeviceEvent>,
    after: Seq<DeviceEvent>,
    full: Seq<DeviceEvent>,
    err: Option<FractureError>,
    kind: spec_fn(DeviceCall) -> bool,
)
    requires
        ran(before, after, full, err),
        tally(full, calls(kind)) == 0,
    ensures
        tally(after, calls(kind)) == tally(before, calls(kind)),
{
    match err {
        None => {
            tally_add(before, full, calls(kind));
        },
        Some(e) => {
            let k = choose|k: int|
                0 <= k < full.len() && #[trigger] stopped(before, after, full, k, e);
            let some = full.take(k);
            let stop = failed(full[k].call, e);
            none_within(full, kind);
            tally_nothing(some, calls(kind));
            tally_add(before, some, calls(kind));
            assert(some.push(stop) =~= some + seq![stop]);
            assert(calls(kind)(full[k]) == 0);
            tally_one(stop, calls(kind));
            tally_add(some, seq![stop], calls(kind));
            tally_add(before, some.push(stop), calls(kind));
        },
    }
}

/// Calls are counted by numbers that are not negative.
proof fn tally_at_least(events: Seq<DeviceEvent>, kind: spec_fn(DeviceCall) -> bool)
    ensures
        tally(events, calls(kind)) >= 0,
    decreases events.len(),
{
    if events.len() > 0 {
        tally_at_least(events.drop_last(), kind);
    }
}

/// Where no call of a kind is counted, none is of the kind.
proof fn none_within(events: Seq<DeviceEvent>, kind: spec_fn(DeviceCall) -> bool)
    requires
        tally(events, calls(kind)) == 0,
    ensures
        forall|i: int|
            0 <= i < events.len() ==> calls(kind)(#[trigger] events[i]) == 0,
    decreases events.len(),
{
    if events.len() > 0 {
        tally_at_least(events.drop_last(), kind);
        none_within(events.drop_last(), kind);
        assert forall|i: int| 0 <= i < events.len() implies calls(kind)(#[trigger] events[i])
            == 0 by {
            if i < events.len() - 1 {
                assert(events.drop_last()[i] == events[i]);
            }
        }
    }
}

} // verus!

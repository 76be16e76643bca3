//! The layers of a forward pass over a contiguous cache.
use crate::base::backend::{done, Backend, DeviceCall, DeviceEvent, DeviceTimer};
use crate::base::error::{FractureError, Result};
use crate::base::model_config::ModelConfig;
use crate::base::numeric::Single;
use crate::base::program::{
    all_allocated, ended, error_of, ran, ran_short, ran_then, run_steps, step_time, steps_events,
    steps_of, DeviceCommand, Step, StepCalls, Timing,
};
use crate::base::tensor::{DeviceTensor, TensorInfo};
use crate::base::text::{decimal, numbered};
use crate::engine::kv_cache::{is_invalid_handle, CacheHandle, KvCacheManager, SequenceCacheInfo};
use crate::engine::node::{NodeConfig, NodeOutput};
use crate::engine::pass::{node_pass, weights_cover, Pass, Resolved};
use crate::engine::profiling::{
    collect_profile, layer_profile, profiled, ForwardProfile, LayerProfile, LAYER_STEPS,
};
use crate::engine::transformer::{
    finish_steps, head_views, make_views, project_steps, push_finish_steps, push_project_steps,
    step, HeadViews, HeadViewsInfo, OutputInfo, Scratch, ScratchInfo,
};
use crate::engine::weights::{LayerWeights, WeightStore};
use vstd::prelude::*;

verus! {

/// The device values that a pass over a contiguous cache meets.
pub struct ContiguousRun {
    pub hidden: TensorInfo,
    pub scratch: ScratchInfo,
    /// The timings of the steps of each layer.
    pub clocks: Seq<Seq<Timing>>,
    pub output: OutputInfo,
}

/// The marker of a layer.
pub open spec fn layer_name(layer_idx: int) -> Seq<char> {
    "layer_"@ + decimal(layer_idx as nat)
}

/// The attention step of a layer: the new keys and values are copied behind the
/// `start` tokens that are cached, then attention runs over the cache.
pub open spec fn attention_step(
    cfg: ModelConfig,
    v: HeadViewsInfo,
    k_cache: TensorInfo,
    v_cache: TensorInfo,
    start: usize,
    n: usize,
) -> StepCalls {
    StepCalls {
        timed: true,
        calls: seq![
            DeviceCall::CopyRows {
                src: v.k,
                dst: k_cache,
                src_offset: 0,
                dst_offset: start,
                count: n,
            },
            DeviceCall::CopyRows {
                src: v.v,
                dst: v_cache,
                src_offset: 0,
                dst_offset: start,
                count: n,
            },
            DeviceCall::Attention {
                q: v.q,
                k_cache,
                v_cache,
                num_kv_heads: cfg.num_kv_heads,
                start_pos: start,
                out: v.attn,
            },
        ],
    }
}

/// The steps of layer `i` of a pass.
pub open spec fn layer_steps(
    p: Pass,
    hidden: TensorInfo,
    s: ScratchInfo,
    c: SequenceCacheInfo,
    i: int,
) -> Seq<StepCalls> {
    project_steps(p.cfg, p.layers[i], hidden, s, p.n(), p.positions()) + seq![
        attention_step(
            p.cfg,
            head_views(p.cfg, s, p.n()),
            c.k(i),
            c.v(i),
            c.current_len,
            p.n(),
        ),
    ] + finish_steps(p.cfg, p.layers[i], hidden, s, p.n())
}

/// The events of layer `i` of a pass: its steps between the marker of the layer and
/// the end of it.
pub open spec fn layer_events(
    p: Pass,
    hidden: TensorInfo,
    s: ScratchInfo,
    c: SequenceCacheInfo,
    profiling: bool,
    clock: Seq<Timing>,
    i: int,
) -> Seq<DeviceEvent> {
    seq![done(DeviceCall::MarkerPush { name: layer_name(p.first + i) })] + steps_events(
        layer_steps(p, hidden, s, c, i),
        profiling,
        clock,
    ) + seq![done(DeviceCall::MarkerPop)]
}

/// The events of the layers `from..to` of a pass.
pub open spec fn layers_events(
    p: Pass,
    hidden: TensorInfo,
    s: ScratchInfo,
    c: SequenceCacheInfo,
    profiling: bool,
    clocks: Seq<Seq<Timing>>,
    from: int,
    to: int,
) -> Seq<DeviceEvent>
    decreases to - from,
{
    if from >= to {
        Seq::empty()
    } else {
        layers_events(p, hidden, s, c, profiling, clocks, from, to - 1) + layer_events(
            p,
            hidden,
            s,
            c,
            profiling,
            clocks[to - 1],
            to - 1,
        )
    }
}

/// The events depend only on the timings of the layers in question.
proof fn layers_events_agree(
    p: Pass,
    hidden: TensorInfo,
    s: ScratchInfo,
    c: SequenceCacheInfo,
    profiling: bool,
    a: Seq<Seq<Timing>>,
    b: Seq<Seq<Timing>>,
    from: int,
    to: int,
)
    requires
        0 <= from,
        to <= a.len(),
        a.is_prefix_of(b),
    ensures
        layers_events(p, hidden, s, c, profiling, a, from, to) == layers_events(
            p,
            hidden,
            s,
            c,
            profiling,
            b,
            from,
            to,
        ),
    decreases to - from,
{
    if from < to {
        layers_events_agree(p, hidden, s, c, profiling, a, b, from, to - 1);
    }
}

/// The layers up to `mid` and those from there on are all layers.
pub(crate) proof fn layers_events_split(
    p: Pass,
    hidden: TensorInfo,
    s: ScratchInfo,
    c: SequenceCacheInfo,
    profiling: bool,
    clocks: Seq<Seq<Timing>>,
    from: int,
    mid: int,
    to: int,
)
    requires
        from <= mid <= to,
    ensures
        layers_events(p, hidden, s, c, profiling, clocks, from, to) == layers_events(
            p,
            hidden,
            s,
            c,
            profiling,
            clocks,
            from,
            mid,
        ) + layers_events(p, hidden, s, c, profiling, clocks, mid, to),
    decreases to - mid,
{
    let left = layers_events(p, hidden, s, c, profiling, clocks, from, mid);
    if mid == to {
        assert(left + Seq::<DeviceEvent>::empty() =~= left);
    } else {
        layers_events_split(p, hidden, s, c, profiling, clocks, from, mid, to - 1);
        let right = layers_events(p, hidden, s, c, profiling, clocks, mid, to - 1);
        let last = layer_events(p, hidden, s, c, profiling, clocks[to - 1], to - 1);
        assert(left + right + last =~= left + (right + last));
    }
}

impl ContiguousRun {
    /// The values have the shapes and sizes that the pass asks for.
    pub open spec fn fits(self, p: Pass) -> bool {
        &&& p.can_hide(self.hidden)
        &&& self.scratch.fits(p.cfg, p.n())
        &&& self.clocks.len() == p.layers.len()
        &&& forall|i: int|
            0 <= i < self.clocks.len() ==> (#[trigger] self.clocks[i]).len() == LAYER_STEPS
        &&& self.output.fits(p.cfg)
    }

    /// The events before the first layer.
    pub open spec fn setup(self, p: Pass) -> Seq<DeviceEvent> {
        p.input_events(self.hidden) + all_allocated(self.scratch.list())
    }

    /// The events of the layers `from..to`.
    pub open spec fn layers(
        self,
        p: Pass,
        c: SequenceCacheInfo,
        profiling: bool,
        from: int,
        to: int,
    ) -> Seq<DeviceEvent> {
        layers_events(p, self.hidden, self.scratch, c, profiling, self.clocks, from, to)
    }
}

/// The cache of the sequence has no room for the tokens of the pass. That is found after
/// the first layer.
pub open spec fn is_too_long(p: Pass, c: SequenceCacheInfo) -> bool {
    p.layers.len() > 0 && c.current_len + p.n() > c.max_len
}

/// How many layers the pass gets to where the device does not fail.
pub open spec fn layers_reached(p: Pass, c: SequenceCacheInfo) -> int {
    if is_too_long(p, c) {
        1
    } else {
        p.layers.len() as int
    }
}

/// What a pass over a contiguous cache leaves: the sequences, the trace, the
/// profile where one is kept, and the result.
pub struct ContiguousState {
    pub seqs: Map<u64, SequenceCacheInfo>,
    pub trace: Seq<DeviceEvent>,
    pub profile: Option<ForwardProfile>,
}

/// How an accepted pass ends, given the device values that it meets.
///
/// The phases are: input, scratch tensors, first layer, other layers, output. The
/// length of the sequence is set after the first layer, and the profile after the
/// last one. Where the device fails, the pass ends there with the device's error.
/// A position beyond the model is found after the input, an unknown handle after
/// the scratch tensors, and a full cache after the first layer.
pub open spec fn contiguous_outcome(
    p: Pass,
    handle: CacheHandle,
    run: ContiguousRun,
    before: ContiguousState,
    after: ContiguousState,
    res: Result<NodeOutput>,
) -> bool {
    let profiling = before.profile is Some;
    let c = before.seqs[handle.0];
    let layers = p.layers.len() as int;
    let one = if layers > 0 {
        1
    } else {
        0
    };
    let new_len = c.current_len + p.n();
    let input = p.input_events(run.hidden);
    let setup = run.setup(p);
    let first = setup + run.layers(p, c, profiling, 0, one);
    let others = run.layers(p, c, profiling, one, layers);
    let end = p.end_events(run.hidden, run.scratch, run.output);
    let untouched = after.seqs == before.seqs && after.profile == before.profile;
    let stored = after.seqs == if layers > 0 {
        before.seqs.insert(
            handle.0,
            SequenceCacheInfo { current_len: new_len as usize, ..c },
        )
    } else {
        before.seqs
    };
    if p.beyond() {
        &&& untouched
        &&& res matches Err(e) && ended(before.trace, after.trace, input, e, p.is_beyond(e))
    } else if !before.seqs.contains_key(handle.0) {
        &&& untouched
        &&& res matches Err(e) && ended(
            before.trace,
            after.trace,
            setup,
            e,
            is_invalid_handle(e, handle),
        )
    } else if layers > 0 && new_len > c.max_len {
        &&& untouched
        &&& res matches Err(e) && ended(
            before.trace,
            after.trace,
            first,
            e,
            is_full(e, new_len, c.max_len),
        )
    } else {
        let profile_kept = match after.profile {
            Some(q) => profiling && profiled(q, p.n(), p.first, run.clocks),
            None => !profiling,
        };
        match res {
            Ok(out) => {
                &&& stored
                &&& profile_kept
                &&& after.trace == before.trace + first + others + end
                &&& out@ == p.output(run.hidden, run.output)
            },
            Err(e) => {
                ||| untouched && ran(before.trace, after.trace, first, Some(e))
                ||| stored && after.profile == before.profile && ran(
                    before.trace + first,
                    after.trace,
                    others,
                    Some(e),
                )
                ||| stored && profile_kept && ran(
                    before.trace + first + others,
                    after.trace,
                    end,
                    Some(e),
                )
            },
        }
    }
}

/// How a pass over a contiguous cache ends.
pub open spec fn contiguous_end(
    p: Pass,
    handle: CacheHandle,
    before: ContiguousState,
    after: ContiguousState,
    res: Result<NodeOutput>,
) -> bool {
    if p.refused() {
        &&& res matches Err(e) && p.is_refusal(e)
        &&& after == before
    } else {
        exists|run: ContiguousRun|
            run.fits(p) && #[trigger] contiguous_outcome(p, handle, run, before, after, res)
    }
}

/// A device failure during the input is a failure of the pass.
pub(crate) proof fn input_stops(
    p: Pass,
    handle: CacheHandle,
    run: ContiguousRun,
    before: ContiguousState,
    after: ContiguousState,
    e: FractureError,
)
    requires
        after.seqs == before.seqs,
        after.profile == before.profile,
        ran(before.trace, after.trace, p.input_events(run.hidden), Some(e)),
    ensures
        contiguous_outcome(p, handle, run, before, after, Err(e)),
{
    ran_short(
        before.trace,
        after.trace,
        p.input_events(run.hidden),
        all_allocated(run.scratch.list()),
        e,
    );
    if !p.beyond() {
        setup_stops(p, handle, run, before, after, e);
    }
}

/// A device failure before the first layer is a failure of the pass.
pub(crate) proof fn setup_stops(
    p: Pass,
    handle: CacheHandle,
    run: ContiguousRun,
    before: ContiguousState,
    after: ContiguousState,
    e: FractureError,
)
    requires
        !p.beyond(),
        after.seqs == before.seqs,
        after.profile == before.profile,
        ran(before.trace, after.trace, run.setup(p), Some(e)),
    ensures
        contiguous_outcome(p, handle, run, before, after, Err(e)),
{
    let profiling = before.profile is Some;
    let c = before.seqs[handle.0];
    let one = if p.layers.len() > 0 {
        1int
    } else {
        0
    };
    ran_short(
        before.trace,
        after.trace,
        run.setup(p),
        run.layers(p, c, profiling, 0, one),
        e,
    );
}

/// What running all layers of a pass does to the cache and the device.
pub open spec fn layers_outcome(
    p: Pass,
    handle: CacheHandle,
    run: ContiguousRun,
    profiling: bool,
    seqs: Map<u64, SequenceCacheInfo>,
    seqs_after: Map<u64, SequenceCacheInfo>,
    before: Seq<DeviceEvent>,
    after: Seq<DeviceEvent>,
    err: Option<FractureError>,
) -> bool {
    let c = seqs[handle.0];
    let layers = p.layers.len() as int;
    let one = if layers > 0 {
        1
    } else {
        0
    };
    let new_len = c.current_len + p.n();
    let first = run.layers(p, c, profiling, 0, one);
    let others = run.layers(p, c, profiling, one, layers);
    let stored = seqs_after == if layers > 0 {
        seqs.insert(handle.0, SequenceCacheInfo { current_len: new_len as usize, ..c })
    } else {
        seqs
    };
    if layers > 0 && new_len > c.max_len {
        &&& seqs_after == seqs
        &&& err matches Some(e) && ended(before, after, first, e, is_full(e, new_len, c.max_len))
    } else {
        match err {
            None => stored && after == before + first + others,
            Some(e) => {
                ||| seqs_after == seqs && ran(before, after, first, Some(e))
                ||| stored && ran(before + first, after, others, Some(e))
            },
        }
    }
}

/// The error of a sequence that has outgrown its cache.
pub open spec fn is_full(e: FractureError, new_len: int, max_len: usize) -> bool {
    e.is_kv_cache(
        "seq_len "@ + decimal(new_len as nat) + " exceeds max_seq_len "@ + decimal(max_len as nat),
    )
}

/// A device failure in layer `i` ends the first layer, or the others.
proof fn layer_stops(
    p: Pass,
    c: SequenceCacheInfo,
    profiling: bool,
    run: ContiguousRun,
    before: Seq<DeviceEvent>,
    middle: Seq<DeviceEvent>,
    after: Seq<DeviceEvent>,
    i: int,
    e: FractureError,
)
    requires
        0 <= i < p.layers.len(),
        middle == before + run.layers(p, c, profiling, 0, i),
        ran(
            middle,
            after,
            layer_events(p, run.hidden, run.scratch, c, profiling, run.clocks[i], i),
            Some(e),
        ),
    ensures
        i == 0 ==> ran(before, after, run.layers(p, c, profiling, 0, 1), Some(e)),
        i > 0 ==> ran(
            before + run.layers(p, c, profiling, 0, 1),
            after,
            run.layers(p, c, profiling, 1, p.layers.len() as int),
            Some(e),
        ),
{
    let layer = layer_events(p, run.hidden, run.scratch, c, profiling, run.clocks[i], i);
    let len = p.layers.len() as int;
    if i == 0 {
        assert(run.layers(p, c, profiling, 0, 0) =~= Seq::empty());
        assert(middle =~= before);
        assert(run.layers(p, c, profiling, 0, 1) =~= layer);
    } else {
        layers_events_split(p, run.hidden, run.scratch, c, profiling, run.clocks, 0, 1, i);
        let first = run.layers(p, c, profiling, 0, 1);
        let some = run.layers(p, c, profiling, 1, i);
        assert(middle =~= before + first + some);
        ran_then(before + first, middle, after, some, layer, Some(e));
        assert(some + layer == run.layers(p, c, profiling, 1, i + 1));
        layers_events_split(p, run.hidden, run.scratch, c, profiling, run.clocks, 1, i + 1, len);
        ran_short(
            before + first,
            after,
            run.layers(p, c, profiling, 1, i + 1),
            run.layers(p, c, profiling, i + 1, len),
            e,
        );
    }
}

/// The layers do not depend on the output phase.
pub(crate) proof fn same_layers(
    p: Pass,
    handle: CacheHandle,
    run: ContiguousRun,
    output: OutputInfo,
    profiling: bool,
    seqs: Map<u64, SequenceCacheInfo>,
    seqs_after: Map<u64, SequenceCacheInfo>,
    before: Seq<DeviceEvent>,
    after: Seq<DeviceEvent>,
    err: Option<FractureError>,
)
    requires
        layers_outcome(p, handle, run, profiling, seqs, seqs_after, before, after, err),
    ensures
        layers_outcome(
            p,
            handle,
            ContiguousRun { output, ..run },
            profiling,
            seqs,
            seqs_after,
            before,
            after,
            err,
        ),
{
}

/// A pass whose layers did not all run ends as they do.
pub(crate) proof fn layers_stop(
    p: Pass,
    handle: CacheHandle,
    run: ContiguousRun,
    before: ContiguousState,
    after: ContiguousState,
    e: FractureError,
)
    requires
        !p.beyond(),
        before.seqs.contains_key(handle.0),
        after.profile == before.profile,
        layers_outcome(
            p,
            handle,
            run,
            before.profile is Some,
            before.seqs,
            after.seqs,
            before.trace + run.setup(p),
            after.trace,
            Some(e),
        ),
    ensures
        contiguous_outcome(p, handle, run, before, after, Err(e)),
{
    let profiling = before.profile is Some;
    let c = before.seqs[handle.0];
    let layers = p.layers.len() as int;
    let one = if layers > 0 {
        1int
    } else {
        0
    };
    let setup = run.setup(p);
    let first = run.layers(p, c, profiling, 0, one);
    let at = before.trace + setup;
    assert(at + first =~= before.trace + (setup + first));
    if ran(at, after.trace, first, Some(e)) {
        ran_then(before.trace, at, after.trace, setup, first, Some(e));
    }
}

/// A pass whose layers all ran ends as the output phase does.
pub(crate) proof fn layers_done(
    p: Pass,
    handle: CacheHandle,
    run: ContiguousRun,
    output: OutputInfo,
    before: ContiguousState,
    middle: Seq<DeviceEvent>,
    after: ContiguousState,
    res: Result<NodeOutput>,
)
    requires
        !p.beyond(),
        before.seqs.contains_key(handle.0),
        layers_outcome(
            p,
            handle,
            run,
            before.profile is Some,
            before.seqs,
            after.seqs,
            before.trace + run.setup(p),
            middle,
            None,
        ),
        match after.profile {
            Some(q) => before.profile is Some && profiled(q, p.n(), p.first, run.clocks),
            None => before.profile is None,
        },
        ran(
            middle,
            after.trace,
            p.end_events(run.hidden, run.scratch, output),
            error_of(res),
        ),
        res matches Ok(out) ==> out@ == p.output(run.hidden, output),
    ensures
        contiguous_outcome(
            p,
            handle,
            ContiguousRun { output, ..run },
            before,
            after,
            res,
        ),
{
    let profiling = before.profile is Some;
    let c = before.seqs[handle.0];
    let layers = p.layers.len() as int;
    let one = if layers > 0 {
        1int
    } else {
        0
    };
    let setup = run.setup(p);
    let first = run.layers(p, c, profiling, 0, one);
    let others = run.layers(p, c, profiling, one, layers);
    assert(before.trace + setup + first + others =~= before.trace + (setup + first) + others);
    let run2 = ContiguousRun { output, ..run };
    assert(run2.setup(p) == setup);
    assert(run2.layers(p, c, profiling, 0, one) == first);
    assert(run2.layers(p, c, profiling, one, layers) == others);
}

/// Runs one layer, and returns the times of its steps.
fn run_layer<B: Backend>(
    backend: &mut B,
    profiling: bool,
    cfg: &ModelConfig,
    layer_idx: usize,
    w: &LayerWeights,
    hidden: &DeviceTensor,
    s: &Scratch,
    v: &HeadViews,
    positions: &[u32],
    k_cache: &DeviceTensor,
    v_cache: &DeviceTensor,
    start: usize,
    n: usize,
    Ghost(p): Ghost<Pass>,
    Ghost(c): Ghost<SequenceCacheInfo>,
    Ghost(i): Ghost<int>,
) -> (res: Result<Vec<Single>>)
    requires
        p.cfg == cfg,
        p.n() == n,
        p.positions() == positions@,
        v@ == head_views(*cfg, s@, n),
        layer_idx == p.first + i,
        0 <= i < p.layers.len(),
        w@ == p.layers[i],
        k_cache@ == c.k(i),
        v_cache@ == c.v(i),
        start == c.current_len,
    ensures
        exists|clock: Seq<Timing>|
            clock.len() == LAYER_STEPS && (res matches Ok(ms) ==> ms@.len() == LAYER_STEPS && (
            profiling ==> forall|j: int|
                0 <= j < LAYER_STEPS && j != 5 && j != 10 ==> ms@[j] == (
                #[trigger] clock[j]).elapsed)) && #[trigger] ran(
                old(backend).trace(),
                final(backend).trace(),
                layer_events(p, hidden@, s@, c, profiling, clock, i),
                error_of(res),
            ),
{
    let ghost before = backend.trace();
    let name: String = numbered("layer_", layer_idx as u64);
    backend.marker_push(name.as_str());
    let ghost push = seq![done(DeviceCall::MarkerPush { name: layer_name(p.first + i) })];
    assert(backend.trace() =~= before + push);
    let ghost middle = backend.trace();
    let mut steps: Vec<Step> = Vec::new();
    push_project_steps(&mut steps, cfg, w, hidden, s, v, positions, Ghost(n));
    let attention = step(
        true,
        vec![
            DeviceCommand::CopyRows {
                src: &v.k,
                dst: k_cache,
                src_offset: 0,
                dst_offset: start,
                count: n,
            },
            DeviceCommand::CopyRows {
                src: &v.v,
                dst: v_cache,
                src_offset: 0,
                dst_offset: start,
                count: n,
            },
            DeviceCommand::Attention {
                q: &v.q,
                k_cache,
                v_cache,
                num_kv_heads: cfg.num_kv_heads,
                start_pos: start,
                out: &v.attn,
            },
        ],
    );
    assert(attention@ =~= attention_step(*cfg, v@, k_cache@, v_cache@, start, n));
    let ghost so_far = steps@;
    steps.push(attention);
    assert(steps_of(steps@) =~= steps_of(so_far).push(attention@));
    push_finish_steps(&mut steps, cfg, w, hidden, s, v, Ghost(n));
    assert(steps_of(steps@) =~= layer_steps(p, hidden@, s@, c, i));
    let r = run_steps(backend, profiling, &steps);
    let ghost clock = choose|clock: Seq<Timing>|
        clock.len() == steps@.len() && (r matches Ok(ms) ==> ms@.len() == steps@.len() && (forall|
            j: int,
        |
            0 <= j < steps@.len() ==> ms@[j] == step_time(
                steps@[j]@,
                profiling,
                #[trigger] clock[j],
            ))) && #[trigger] ran(
            middle,
            backend.trace(),
            steps_events(steps_of(steps@), profiling, clock),
            error_of(r),
        );
    let ghost work = steps_events(layer_steps(p, hidden@, s@, c, i), profiling, clock);
    proof {
        ran_then(before, middle, backend.trace(), push, work, error_of(r));
        if let Some(e) = error_of(r) {
            let pop = seq![done(DeviceCall::MarkerPop)];
            ran_short(before, backend.trace(), push + work, pop, e);
            assert(ran(
                before,
                backend.trace(),
                layer_events(p, hidden@, s@, c, profiling, clock, i),
                error_of(r),
            ));
        }
    }
    let ms = r?;
    proof {
        assert forall|j: int|
            profiling && 0 <= j < LAYER_STEPS && j != 5 && j != 10 implies ms@[j] == (
        #[trigger] clock[j]).elapsed by {
            assert(steps@[j]@ == steps_of(steps@)[j]);
            assert(steps_of(steps@)[j].timed);
        }
    }
    backend.marker_pop();
    assert(backend.trace() =~= before + layer_events(p, hidden@, s@, c, profiling, clock, i));
    assert(ran(
        before,
        backend.trace(),
        layer_events(p, hidden@, s@, c, profiling, clock, i),
        None::<FractureError>,
    ));
    Ok(ms)
}

/// Timings of no interest, for layers that are not reached.
pub open spec fn idle_clock() -> Seq<Timing> {
    Seq::new(
        LAYER_STEPS as nat,
        |j: int| Timing { timer: DeviceTimer(0), elapsed: Single { bits: 0 } },
    )
}

/// The timings of the layers that ran, and idle ones for the others.
pub open spec fn padded(clocks: Seq<Seq<Timing>>, len: nat) -> Seq<Seq<Timing>> {
    Seq::new(
        len,
        |i: int|
            if i < clocks.len() {
                clocks[i]
            } else {
                idle_clock()
            },
    )
}

/// Runs all layers of a pass and sets the length of the sequence after the first.
/// Returns the profile of each layer where profiling is on.
pub(crate) fn run_layers<B: Backend>(
    backend: &mut B,
    profiling: bool,
    weights: &WeightStore,
    base: usize,
    node: &NodeConfig,
    cache: &mut KvCacheManager,
    handle: CacheHandle,
    start: usize,
    r: &Resolved,
    s: &Scratch,
    Ghost(p): Ghost<Pass>,
) -> (res: Result<Vec<LayerProfile>>)
    requires
        weights_cover(
            *weights,
            base as int,
            *node,
            layers_reached(p, old(cache).sequences()[handle.0]),
        ),
        p == node_pass(*weights, base as int, *node, p.input),
        old(cache).wf(),
        old(cache).sequences().contains_key(handle.0),
        layers_reached(p, old(cache).sequences()[handle.0]) <= old(cache).layers(),
        start == old(cache).sequences()[handle.0].current_len,
        p.layers.len() > 0 ==> start + p.n() <= usize::MAX,
        r.n == p.n(),
        r.positions@ == p.positions(),
    ensures
        final(cache).wf(),
        final(cache).same_layout(old(cache)),
        final(cache).next_handle() == old(cache).next_handle(),
        exists|run: ContiguousRun|
            run.hidden == r.hidden@ && run.scratch == s@ && run.clocks.len() == p.layers.len() && (
            forall|i: int|
                0 <= i < run.clocks.len() ==> (#[trigger] run.clocks[i]).len() == LAYER_STEPS) && (
            res matches Ok(l) ==> (profiling ==> l@ == Seq::new(
                run.clocks.len(),
                |i: int| layer_profile(p.first + i, run.clocks[i]),
            ))) && #[trigger] layers_outcome(
                p,
                handle,
                run,
                profiling,
                old(cache).sequences(),
                final(cache).sequences(),
                old(backend).trace(),
                final(backend).trace(),
                error_of(res),
            ),
{
    let cfg = weights.config;
    let ghost before = backend.trace();
    let ghost seqs = cache.sequences();
    let ghost c = seqs[handle.0];
    let ghost mut clocks: Seq<Seq<Timing>> = Seq::empty();
    let ghost len = p.layers.len();
    let ghost run0 = ContiguousRun {
        hidden: r.hidden@,
        scratch: s@,
        clocks,
        output: OutputInfo::blank(p.cfg),
    };
    let v = make_views(&cfg, s, r.n);
    let mut profiles: Vec<LayerProfile> = Vec::new();
    let mut layer_idx: usize = node.layer_range.start;
    assert(before + run0.layers(p, c, profiling, 0, 0) =~= before);
    while layer_idx < node.layer_range.end
        invariant
            before == old(backend).trace(),
            seqs == old(cache).sequences(),
            c == seqs[handle.0],
            seqs.contains_key(handle.0),
            len == p.layers.len(),
            cfg == weights.config,
            weights_cover(*weights, base as int, *node, layers_reached(p, c)),
            p == node_pass(*weights, base as int, *node, p.input),
            layers_reached(p, c) <= cache.layers(),
            start == c.current_len,
            len > 0 ==> start + p.n() <= usize::MAX,
            r.n == p.n(),
            r.positions@ == p.positions(),
            v@ == head_views(cfg, s@, r.n),
            run0.hidden == r.hidden@,
            run0.scratch == s@,
            cache.wf(),
            cache.same_layout(old(cache)),
            cache.next_handle() == old(cache).next_handle(),
            node.start() <= node.end() ==> node.start() <= layer_idx <= node.end(),
            node.start() > node.end() ==> layer_idx == node.start(),
            clocks.len() == layer_idx - node.start(),
            forall|i: int| 0 <= i < clocks.len() ==> (#[trigger] clocks[i]).len() == LAYER_STEPS,
            profiling ==> profiles@ =~= Seq::new(
                clocks.len(),
                |i: int| layer_profile(p.first + i, clocks[i]),
            ),
            clocks.len() > 0 ==> start + p.n() <= c.max_len,
            cache.sequences() == if clocks.len() > 0 {
                seqs.insert(
                    handle.0,
                    SequenceCacheInfo { current_len: (start + p.n()) as usize, ..c },
                )
            } else {
                seqs
            },
            backend.trace() == before + layers_events(
                p,
                r.hidden@,
                s@,
                c,
                profiling,
                clocks,
                0,
                clocks.len() as int,
            ),
        decreases node.layer_range.end - layer_idx,
    {
        let ghost i = clocks.len() as int;
        assert(i < layers_reached(p, c));
        let cache_idx: usize = layer_idx - node.layer_range.start;
        assert(cache.sequences().contains_key(handle.0));
        assert(cache.sequences()[handle.0].tensors == c.tensors);
        let k_cache = match cache.k_cache(handle, cache_idx) {
            Ok(t) => t,
            Err(e) => {
                return Err(e);
            },
        };
        let v_cache = match cache.v_cache(handle, cache_idx) {
            Ok(t) => t,
            Err(e) => {
                return Err(e);
            },
        };
        let ghost middle = backend.trace();
        let ran_layer = run_layer(
            backend,
            profiling,
            &cfg,
            layer_idx,
            &weights.layers[layer_idx - base],
            &r.hidden,
            s,
            &v,
            r.positions.as_slice(),
            k_cache,
            v_cache,
            start,
            r.n,
            Ghost(p),
            Ghost(c),
            Ghost(i),
        );
        let ghost clock = choose|clock: Seq<Timing>|
            clock.len() == LAYER_STEPS && (ran_layer matches Ok(ms) ==> ms@.len() == LAYER_STEPS
                && (profiling ==> forall|j: int|
                0 <= j < LAYER_STEPS && j != 5 && j != 10 ==> ms@[j] == (
                #[trigger] clock[j]).elapsed)) && #[trigger] ran(
                middle,
                backend.trace(),
                layer_events(p, r.hidden@, s@, c, profiling, clock, i),
                error_of(ran_layer),
            );
        let ghost next = clocks.push(clock);
        let ghost run = ContiguousRun { clocks: padded(next, len), ..run0 };
        proof {
            assert(clocks.is_prefix_of(run.clocks));
            assert(clocks.is_prefix_of(next));
            assert(next.is_prefix_of(run.clocks));
            layers_events_agree(p, r.hidden@, s@, c, profiling, clocks, run.clocks, 0, i);
            layers_events_agree(p, r.hidden@, s@, c, profiling, clocks, next, 0, i);
            layers_events_agree(p, r.hidden@, s@, c, profiling, next, run.clocks, 0, i + 1);
            if let Some(e) = error_of(ran_layer) {
                layer_stops(p, c, profiling, run, before, middle, backend.trace(), i, e);
                assert(layers_outcome(
                    p,
                    handle,
                    run,
                    profiling,
                    seqs,
                    cache.sequences(),
                    before,
                    backend.trace(),
                    Some(e),
                ));
            }
        }
        let ms = match ran_layer {
            Ok(ms) => ms,
            Err(e) => {
                return Err(e);
            },
        };
        assert(backend.trace() =~= before + layers_events(
            p,
            r.hidden@,
            s@,
            c,
            profiling,
            next,
            0,
            i + 1,
        ));
        if profiling {
            profiles.push(collect_profile(layer_idx, &ms, Ghost(clock)));
        }
        if layer_idx == node.layer_range.start {
            let set = cache.set_seq_len(handle, start + r.n);
            proof {
                if let Some(e) = error_of(set) {
                    assert(layers_outcome(
                        p,
                        handle,
                        run,
                        profiling,
                        seqs,
                        cache.sequences(),
                        before,
                        backend.trace(),
                        Some(e),
                    ));
                }
            }
            match set {
                Ok(_) => {},
                Err(e) => {
                    return Err(e);
                },
            }
        }
        proof {
            clocks = next;
        }
        layer_idx = layer_idx + 1;
    }
    proof {
        let run = ContiguousRun { clocks, ..run0 };
        let one = if len > 0 {
            1int
        } else {
            0
        };
        layers_events_split(p, r.hidden@, s@, c, profiling, clocks, 0, one, len as int);
        assert(backend.trace() =~= before + run.layers(p, c, profiling, 0, one) + run.layers(
            p,
            c,
            profiling,
            one,
            len as int,
        ));
        assert(layers_outcome(
            p,
            handle,
            run,
            profiling,
            seqs,
            cache.sequences(),
            before,
            backend.trace(),
            None,
        ));
    }
    Ok(profiles)
}

} // verus!

//! Laws on the times that a pass reports, and on what goes through the nodes of a pipeline.
use crate::base::backend::DeviceCall;
use crate::base::error::Result;
use crate::base::numeric::Half;
use crate::base::program::{all_done, step_events, step_time, StepCalls, Timing};
use crate::base::tensor::{TensorId, TensorInfo};
use crate::engine::contiguous::layer_steps;
use crate::engine::kv_cache::{CacheHandle, KvCacheManager, SequenceCacheInfo};
use crate::engine::node::{NodeInputInfo, NodeOutputInfo};
use crate::engine::pass::Pass;
use crate::engine::pipeline::{fed, run_result, NodePass, PipelineCoordinator};
use crate::engine::profiling::{layer_profile, profiled, ForwardProfile, LAYER_STEPS};
use crate::engine::transformer::ScratchInfo;
use crate::engine::weights::LayerWeightsInfo;
use vstd::prelude::*;

verus! {

/// The step has a norm with these weights.
pub open spec fn norms_with(step: StepCalls, weight: TensorId) -> bool {
    exists|i: int|
        0 <= i < step.calls.len() && (#[trigger] step.calls[i] matches DeviceCall::Rmsnorm {
            weight: w,
            ..
        } && w.id == weight)
}

/// The step has a product with this matrix.
pub open spec fn multiplies_by(step: StepCalls, matrix: TensorId) -> bool {
    exists|i: int|
        0 <= i < step.calls.len() && (#[trigger] step.calls[i] matches DeviceCall::Matmul {
            b,
            ..
        } && b.id == matrix)
}

/// The weights of a layer are different tensors.
pub open spec fn weights_differ(w: LayerWeightsInfo) -> bool {
    &&& w.attn_norm.id != w.ffn_norm.id
    &&& forall|i: int, j: int|
        0 <= i < 7 && 0 <= j < 7 && i != j ==> #[trigger] matrices(w)[i] != #[trigger] matrices(
            w,
        )[j]
}

/// The matrices of a layer.
pub open spec fn matrices(w: LayerWeightsInfo) -> Seq<TensorId> {
    seq![
        w.q_proj.id,
        w.k_proj.id,
        w.v_proj.id,
        w.o_proj.id,
        w.gate_proj.id,
        w.up_proj.id,
        w.down_proj.id,
    ]
}

/// Each time in the profile of a layer is that of the step that has the work which it names, and
/// that step is measured.
pub proof fn times_are_of_the_named_work(
    p: Pass,
    hidden: TensorInfo,
    s: ScratchInfo,
    c: SequenceCacheInfo,
    i: int,
    clock: Seq<Timing>,
    j: int,
)
    requires
        0 <= i < p.layers.len(),
        weights_differ(p.layers[i]),
        clock.len() == LAYER_STEPS,
        0 <= p.first + i <= usize::MAX,
        0 <= j < layer_steps(p, hidden, s, c, i).len(),
    ensures
        ({
            let steps = layer_steps(p, hidden, s, c, i);
            let w = p.layers[i];
            let t = layer_profile(p.first + i, clock);
            let step = steps[j];
            let ms = clock[j].elapsed;
            &&& steps.len() == clock.len()
            &&& t.layer_idx == p.first + i
            &&& norms_with(step, w.attn_norm.id) ==> step.timed && t.rmsnorm_attn_ms == ms
            &&& norms_with(step, w.ffn_norm.id) ==> step.timed && t.rmsnorm_ffn_ms == ms
            &&& multiplies_by(step, w.q_proj.id) ==> step.timed && t.qkv_proj_ms == ms
            &&& multiplies_by(step, w.k_proj.id) ==> step.timed && t.qkv_proj_ms == ms
            &&& multiplies_by(step, w.v_proj.id) ==> step.timed && t.qkv_proj_ms == ms
            &&& multiplies_by(step, w.o_proj.id) ==> step.timed && t.output_proj_ms == ms
            &&& multiplies_by(step, w.gate_proj.id) ==> step.timed && t.gate_up_proj_ms == ms
            &&& multiplies_by(step, w.up_proj.id) ==> step.timed && t.gate_up_proj_ms == ms
            &&& multiplies_by(step, w.down_proj.id) ==> step.timed && t.down_proj_ms == ms
            &&& step.calls.last() is Rope ==> step.timed && t.rope_ms == ms
            &&& step.calls.last() is Attention ==> step.timed && t.attention_ms == ms
            &&& step.calls.last() is SiluMul ==> step.timed && t.silu_mul_ms == ms
            &&& step.calls.last() is Add ==> !step.timed
        }),
{
    let w = p.layers[i];
    let m = matrices(w);
    assert(m[0] != m[3] && m[0] != m[4] && m[0] != m[5] && m[0] != m[6]);
    assert(m[1] != m[3] && m[1] != m[4] && m[1] != m[5] && m[1] != m[6]);
    assert(m[2] != m[3] && m[2] != m[4] && m[2] != m[5] && m[2] != m[6]);
    assert(m[3] != m[4] && m[3] != m[5] && m[3] != m[6]);
    assert(m[4] != m[6] && m[5] != m[6]);
    let steps = layer_steps(p, hidden, s, c, i);
    assert(steps.len() == 11);
    if j == 0 {
    } else if j == 1 {
    } else if j == 2 {
    } else if j == 3 {
    } else if j == 4 {
    } else if j == 5 {
    } else if j == 6 {
    } else if j == 7 {
    } else if j == 8 {
    } else if j == 9 {
    } else {
        assert(j == 10);
    }
}

/// The profile of a pass says how many tokens went through, and that they were a prompt where
/// they were more than one. It has the times of each layer, under the number of that layer.
pub proof fn profiles_have_every_layer(
    q: ForwardProfile,
    n: usize,
    first: int,
    clocks: Seq<Seq<Timing>>,
    i: int,
)
    requires
        profiled(q, n, first, clocks),
        0 <= i < clocks.len(),
        0 <= first,
        first + clocks.len() <= usize::MAX,
    ensures
        q.seq_len == n,
        n == 1 ==> !q.prefill,
        n > 1 ==> q.prefill,
        q.layer_profiles@.len() == clocks.len(),
        q.layer_profiles@[i].layer_idx == first + i,
        q.layer_profiles@[i] == layer_profile(first + i, clocks[i]),
{
}

/// In a pass through a pipeline that gives logits, the tokens enter at the first node, each node
/// after it gets what the one before it gave, all at the same positions, and the logits are what
/// the last node gave.
pub proof fn passes_go_from_node_to_node(
    c: PipelineCoordinator,
    after: PipelineCoordinator,
    token_ids: Seq<u32>,
    positions: Seq<u32>,
    caches: Seq<KvCacheManager>,
    caches_after: Seq<KvCacheManager>,
    handles: Seq<CacheHandle>,
    run: Seq<NodePass>,
    n: int,
    res: Result<Vec<Half>>,
    j: int,
)
    requires
        c.made(after, token_ids, positions, caches, caches_after, handles, run),
        0 < run.len() <= n,
        run_result(run, n, res),
        res is Ok,
        0 <= j < n,
    ensures
        run.len() == n,
        run[0].input == (NodeInputInfo::TokenIds { ids: token_ids, positions }),
        j > 0 ==> (run[j - 1].output matches Ok(NodeOutputInfo::Activations(t)) && run[j].input
            == (NodeInputInfo::Activations { hidden_states: t, positions })),
        run.last().output matches Ok(NodeOutputInfo::Logits(l)) && l == res->Ok_0@,
        run[j].handle == handles[j],
        run[j].cache == caches[j],
        run[j].cache_after == caches_after[j],
        after.passes()[j] == c.passes()[j].push(run[j]),
{
    assert(fed(run, token_ids, positions, 0));
    assert(fed(run, token_ids, positions, j));
    assert(c.passed(after, caches, caches_after, handles, run[j], j));
}

/// A step that is measured reports the time that its timer gave. One that is not, or that runs
/// without a profile, reports none, and asks for no timer.
pub proof fn steps_report_what_was_measured(step: StepCalls, profiling: bool, t: Timing)
    ensures
        step.timed && profiling ==> step_time(step, profiling, t) == t.elapsed,
        !step.timed || !profiling ==> step_time(step, profiling, t).bits == 0 && step_events(
            step,
            profiling,
            t,
        ) == all_done(step.calls),
        step.timed && profiling ==> step_events(step, profiling, t).len() == step.calls.len() + 4,
{
}

} // verus!

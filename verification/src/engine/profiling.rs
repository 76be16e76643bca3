//! Timing profiles of forward passes, in milliseconds.
//!
//! The profiles hold what was measured. Their totals are sums of real numbers and
//! are left to the caller.
use crate::base::numeric::{Double, Single};
use crate::base::program::Timing;
use vstd::prelude::*;

verus! {

/// Timing profile for a single transformer layer.
#[derive(Debug, Clone, Copy, PartialEq, Eq, Structural)]
pub struct LayerProfile {
    pub layer_idx: usize,
    pub rmsnorm_attn_ms: Single,
    pub qkv_proj_ms: Single,
    pub rope_ms: Single,
    pub attention_ms: Single,
    pub output_proj_ms: Single,
    pub rmsnorm_ffn_ms: Single,
    pub gate_up_proj_ms: Single,
    pub silu_mul_ms: Single,
    pub down_proj_ms: Single,
}

/// Timing profile for a complete forward pass.
#[derive(Debug)]
pub struct ForwardProfile {
    pub prefill: bool,
    pub seq_len: usize,
    pub layer_profiles: Vec<LayerProfile>,
}

/// Per-request generation metrics.
#[derive(Debug)]
pub struct RequestMetrics {
    pub request_id: String,
    pub prompt_tokens: usize,
    pub generated_tokens: usize,
    pub ttft_ms: Double,
    pub total_ms: Double,
    pub tokens_per_sec: Double,
    pub avg_decode_ms: Double,
    pub peak_vram_mb: Double,
    pub kv_cache_tokens: usize,
}

/// Steps of a layer.
pub const LAYER_STEPS: usize = 11;

/// The profile of a layer whose steps took `clock`. The two residual additions are
/// not timed.
pub open spec fn layer_profile(layer_idx: int, clock: Seq<Timing>) -> LayerProfile {
    LayerProfile {
        layer_idx: layer_idx as usize,
        rmsnorm_attn_ms: clock[0].elapsed,
        qkv_proj_ms: clock[1].elapsed,
        rope_ms: clock[2].elapsed,
        attention_ms: clock[3].elapsed,
        output_proj_ms: clock[4].elapsed,
        rmsnorm_ffn_ms: clock[6].elapsed,
        gate_up_proj_ms: clock[7].elapsed,
        silu_mul_ms: clock[8].elapsed,
        down_proj_ms: clock[9].elapsed,
    }
}

/// The profile of a pass of `n` tokens through layers from `first` on.
pub open spec fn profiled(p: ForwardProfile, n: usize, first: int, clocks: Seq<Seq<Timing>>) -> bool {
    &&& p.prefill == (n > 1)
    &&& p.seq_len == n
    &&& p.layer_profiles@ == Seq::new(
        clocks.len(),
        |i: int| layer_profile(first + i, clocks[i]),
    )
}

/// The profile that a pass is handed, as it is at the start.
pub open spec fn profile_before(p: Option<&mut ForwardProfile>) -> Option<ForwardProfile> {
    match p {
        Some(q) => Some(*q),
        None => None,
    }
}

/// Collects the times of a layer's steps.
pub(crate) fn collect_profile(layer_idx: usize, ms: &Vec<Single>, Ghost(clock): Ghost<Seq<Timing>>) -> (res:
    LayerProfile)
    requires
        ms@.len() == LAYER_STEPS,
        clock.len() == LAYER_STEPS,
        forall|i: int| 0 <= i < LAYER_STEPS && i != 5 && i != 10 ==> ms@[i] == (#[trigger] clock[i]).elapsed,
    ensures
        res == layer_profile(layer_idx as int, clock),
{
    LayerProfile {
        layer_idx,
        rmsnorm_attn_ms: ms[0],
        qkv_proj_ms: ms[1],
        rope_ms: ms[2],
        attention_ms: ms[3],
        output_proj_ms: ms[4],
        rmsnorm_ffn_ms: ms[6],
        gate_up_proj_ms: ms[7],
        silu_mul_ms: ms[8],
        down_proj_ms: ms[9],
    }
}

} // verus!

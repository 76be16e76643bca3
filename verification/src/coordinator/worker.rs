//! What is known of a worker, and what it is assigned.
use crate::base::error::{FractureError, Result};
use crate::base::numeric::Single;
use std::ops::Range;
use vstd::prelude::*;
use vstd::string::StringExecFns;

verus! {

/// From this decode time of a layer on, in ms, a measurement is not plausible: 999, in
/// single precision.
pub const IMPLAUSIBLE_MS_PER_LAYER: u32 = 0x4479_c000;

/// Measured capabilities of a worker node.
#[derive(Debug)]
pub struct WorkerCapabilities {
    pub node_id: String,
    pub gpu_model: String,
    pub gpu_memory_available: usize,
    pub compute_capability: (u32, u32),
    /// Measured: ms per single-layer forward pass (N=1, decode).
    pub decode_ms_per_layer: Single,
    /// Measured: ms per single-layer forward pass (N=128, prefill).
    pub prefill_ms_per_layer_128: Single,
}

impl Clone for WorkerCapabilities {
    fn clone(&self) -> (res: Self)
        ensures
            res == *self,
    {
        WorkerCapabilities {
            node_id: self.node_id.clone(),
            gpu_model: self.gpu_model.clone(),
            gpu_memory_available: self.gpu_memory_available,
            compute_capability: self.compute_capability,
            decode_ms_per_layer: self.decode_ms_per_layer,
            prefill_ms_per_layer_128: self.prefill_ms_per_layer_128,
        }
    }
}

/// A measured time is a positive number.
pub open spec fn measured(t: Single) -> bool {
    t.finite() && t.rank() > 0
}

/// A measured decode time is not absurdly long.
pub open spec fn plausible(t: Single) -> bool {
    measured(t) && t.rank() < IMPLAUSIBLE_MS_PER_LAYER
}

/// What is said of a time of a worker.
pub open spec fn time_text(node_id: Seq<char>, what: Seq<char>) -> Seq<char> {
    "worker '"@ + node_id + "': "@ + what
}

fn bad_time(node_id: &str, what: &str) -> (res: FractureError)
    ensures
        res.is_pipeline(time_text(node_id@, what@)),
{
    let mut m: String = "worker '".to_owned();
    m.append(node_id);
    m.append("': ");
    m.append(what);
    FractureError::Pipeline(m)
}

impl WorkerCapabilities {
    /// The measured times are plausible: the decode time is a positive number and not
    /// absurdly long, and the prefill time is not negative.
    pub open spec fn calibrated(self) -> bool {
        plausible(self.decode_ms_per_layer) && !self.prefill_ms_per_layer_128.below(
            Single { bits: 0 },
        )
    }

    /// The error says which time is not plausible.
    pub open spec fn is_uncalibrated(self, e: FractureError) -> bool {
        e.is_pipeline(
            time_text(
                self.node_id@,
                if !measured(self.decode_ms_per_layer) {
                    "decode_ms_per_layer must be a positive number"@
                } else if !plausible(self.decode_ms_per_layer) {
                    "decode_ms_per_layer exceeds what is plausible"@
                } else {
                    "prefill_ms_per_layer_128 must not be negative"@
                },
            ),
        )
    }

    /// Check that the decode time is a positive number and not absurdly long, and that the
    /// prefill time is not negative.
    pub fn validate_calibration(&self) -> (res: Result<()>)
        ensures
            res is Ok <==> self.calibrated(),
            res matches Err(e) ==> self.is_uncalibrated(e),
    {
        let zero = Single::from_bits(0);
        let t = self.decode_ms_per_layer;
        if !t.is_finite() || !zero.is_below(t) {
            return Err(
                bad_time(
                    self.node_id.as_str(),
                    "decode_ms_per_layer must be a positive number",
                ),
            );
        }
        if !t.is_below(Single::from_bits(IMPLAUSIBLE_MS_PER_LAYER)) {
            return Err(
                bad_time(
                    self.node_id.as_str(),
                    "decode_ms_per_layer exceeds what is plausible",
                ),
            );
        }
        if self.prefill_ms_per_layer_128.is_below(zero) {
            return Err(
                bad_time(
                    self.node_id.as_str(),
                    "prefill_ms_per_layer_128 must not be negative",
                ),
            );
        }
        Ok(())
    }
}

/// Pipeline role for a node.
#[derive(Debug, Clone, Copy, PartialEq, Eq, Structural)]
pub enum NodeRole {
    /// First node: handles embedding.
    Head,
    /// Interior node: activations in, activations out.
    Middle,
    /// Last node: handles final norm + LM head.
    Tail,
}

/// A single node's layer assignment.
#[derive(Debug)]
pub struct LayerAssignment {
    pub node_id: String,
    pub layer_range: Range<usize>,
    pub role: NodeRole,
    /// Predicted per-token decode time for this node (ms).
    pub expected_decode_ms: Single,
    /// Estimated GPU memory for weights (GB).
    pub weight_memory_gb: Single,
    /// Estimated GPU memory for KV cache at max_seq_len (GB).
    pub cache_memory_gb: Single,
}

impl LayerAssignment {
    /// The first layer.
    pub open spec fn start(self) -> usize {
        self.layer_range.start
    }

    /// The layer after the last one.
    pub open spec fn end(self) -> usize {
        self.layer_range.end
    }
}

impl Clone for LayerAssignment {
    fn clone(&self) -> (res: Self)
        ensures
            res == *self,
    {
        LayerAssignment {
            node_id: self.node_id.clone(),
            layer_range: self.layer_range.start..self.layer_range.end,
            role: self.role,
            expected_decode_ms: self.expected_decode_ms,
            weight_memory_gb: self.weight_memory_gb,
            cache_memory_gb: self.cache_memory_gb,
        }
    }
}

} // verus!

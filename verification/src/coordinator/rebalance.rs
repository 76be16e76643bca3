//! Rebalance orchestrator: shared infrastructure for redistributing layers
//! across workers. Used by crash recovery, graceful leave, and dynamic join.
use crate::base::error::{FractureError, Result};
use crate::base::model_config::ModelConfig;
use crate::base::numeric::Single;
use crate::base::text::same_text;
use crate::coordinator::pipeline::{contiguous, is_misfit, DistributedPipeline};
use crate::coordinator::registry::{worker_text, PeerRegistry, WorkerEntry, WorkerStatus};
use crate::coordinator::scheduler::{SchedulerInput, SchedulingMode};
use crate::coordinator::worker::{LayerAssignment, WorkerCapabilities};
use std::sync::Arc;
use vstd::prelude::*;
use vstd::string::StringExecFns;

verus! {

/// The network latency that a rebalance reckons with, in ms: 2, in single precision.
pub const REBALANCE_HOP_MS: u32 = 0x4000_0000;

/// Result of a forced rebalance operation.
pub struct RebalanceResult {
    /// The new pipeline after rebalance.
    pub pipeline: Arc<DistributedPipeline>,
    /// New assignments applied to workers.
    pub assignments: Vec<LayerAssignment>,
}

/// What a worker is told of its layers.
#[derive(Debug, Clone, Copy, PartialEq, Eq, Structural)]
pub struct RegisterAckPayload {
    pub layer_start: u32,
    pub layer_end: u32,
    pub total_layers: u32,
    pub max_seq_len: u32,
    pub model_config: ModelConfig,
}

/// The low 32 bits of a number.
pub open spec fn low_bits(n: usize) -> u32 {
    (n as int % 0x1_0000_0000) as u32
}

fn truncate(n: usize) -> (res: u32)
    ensures
        res == low_bits(n),
{
    (n as u64 % 0x1_0000_0000) as u32
}

/// The worker is not among those that are left out.
pub open spec fn kept(skip: Seq<String>, w: WorkerCapabilities) -> bool {
    forall|i: int| 0 <= i < skip.len() ==> (#[trigger] skip[i])@ != w.node_id@
}

/// Those of the first `k` workers that are not left out.
pub open spec fn remaining(caps: Seq<WorkerCapabilities>, skip: Seq<String>, k: int) -> Seq<
    WorkerCapabilities,
>
    decreases k,
{
    if k <= 0 {
        Seq::empty()
    } else if kept(skip, caps[k - 1]) {
        remaining(caps, skip, k - 1).push(caps[k - 1])
    } else {
        remaining(caps, skip, k - 1)
    }
}

fn is_kept(skip: &[String], w: &WorkerCapabilities) -> (res: bool)
    ensures
        res == kept(skip@, *w),
{
    let mut i: usize = 0;
    while i < skip.len()
        invariant
            i <= skip@.len(),
            forall|j: int| 0 <= j < i ==> (#[trigger] skip@[j])@ != w.node_id@,
        decreases skip@.len() - i,
    {
        if same_text(skip[i].as_str(), w.node_id.as_str()) {
            assert(skip@[i as int]@ == w.node_id@);
            return false;
        }
        i = i + 1;
    }
    true
}

/// What is scheduled in a rebalance: the workers without those that are left out.
pub fn rebalance_input(
    caps: &Vec<WorkerCapabilities>,
    model_config: &ModelConfig,
    mode: SchedulingMode,
    max_seq_len: usize,
    skip_node_ids: &[String],
) -> (res: Result<SchedulerInput>)
    ensures
        ({
            let left = remaining(caps@, skip_node_ids@, caps@.len() as int);
            &&& res is Ok <==> left.len() > 0
            &&& res matches Ok(input) ==> {
                &&& input.model_config == *model_config
                &&& input.workers@ == left
                &&& input.coordinator_compute is None
                &&& input.mode == mode
                &&& input.max_seq_len == max_seq_len
                &&& input.hop_latency_ms == (Single { bits: REBALANCE_HOP_MS })
            }
            &&& res matches Err(e) ==> e.is_pipeline(
                "forced rebalance: no workers available after exclusions"@,
            )
        }),
{
    let mut workers: Vec<WorkerCapabilities> = Vec::new();
    let mut i: usize = 0;
    while i < caps.len()
        invariant
            i <= caps@.len(),
            workers@ == remaining(caps@, skip_node_ids@, i as int),
        decreases caps@.len() - i,
    {
        if is_kept(skip_node_ids, &caps[i]) {
            workers.push(caps[i].clone());
        }
        i = i + 1;
    }
    if workers.len() == 0 {
        return Err(
            FractureError::Pipeline(
                "forced rebalance: no workers available after exclusions".to_owned(),
            ),
        );
    }
    Ok(
        SchedulerInput {
            model_config: *model_config,
            workers,
            coordinator_compute: None,
            mode,
            max_seq_len,
            hop_latency_ms: Single::from_bits(REBALANCE_HOP_MS),
        },
    )
}

/// What a worker is told of an assignment.
pub open spec fn is_ack(
    ack: RegisterAckPayload,
    a: LayerAssignment,
    c: ModelConfig,
    max_seq_len: usize,
) -> bool {
    &&& ack.layer_start == low_bits(a.start())
    &&& ack.layer_end == low_bits(a.end())
    &&& ack.total_layers == low_bits(c.num_layers)
    &&& ack.max_seq_len == low_bits(max_seq_len)
    &&& ack.model_config == c
}

/// Assigns layers to a worker. Returns what the worker is to be told.
pub fn reassign<C>(
    registry: &mut PeerRegistry<C>,
    assignment: &LayerAssignment,
    model_config: &ModelConfig,
    max_seq_len: usize,
) -> (res: Result<RegisterAckPayload>)
    requires
        old(registry).wf(),
    ensures
        final(registry).wf(),
        final(registry).ids() == old(registry).ids(),
        ({
            let id = assignment.node_id@;
            let peers = old(registry).peers();
            &&& res is Ok <==> peers.contains_key(id) && peers[id].alive()
            &&& res matches Ok(ack) ==> is_ack(ack, *assignment, *model_config, max_seq_len)
                && final(registry).peers() == peers.insert(
                id,
                WorkerEntry {
                    assignment: Some(*assignment),
                    status: WorkerStatus::Ready,
                    ..peers[id]
                },
            )
            &&& res matches Err(e) ==> final(registry).peers() == peers && e.is_pipeline(
                "forced rebalance: assign '"@ + id + "' failed: protocol error: "@ + (
                if peers.contains_key(id) {
                    worker_text("cannot assign layers to dead "@, id, ""@)
                } else {
                    worker_text(""@, id, " not found"@)
                }),
            )
        }),
{
    let ack = RegisterAckPayload {
        layer_start: truncate(assignment.layer_range.start),
        layer_end: truncate(assignment.layer_range.end),
        total_layers: truncate(model_config.num_layers),
        max_seq_len: truncate(max_seq_len),
        model_config: *model_config,
    };
    match registry.assign(assignment.node_id.as_str(), assignment.clone()) {
        Ok(()) => Ok(ack),
        Err(e) => {
            let text: String = e.to_string();
            let mut m: String = "forced rebalance: assign '".to_owned();
            m.append(assignment.node_id.as_str());
            m.append("' failed: ");
            m.append(text.as_str());
            proof {
                reveal_strlit("' failed: ");
                reveal_strlit("protocol error: ");
                reveal_strlit("' failed: protocol error: ");
                assert("' failed: "@ + "protocol error: "@ =~= "' failed: protocol error: "@);
                let id = assignment.node_id@;
                let why = if old(registry).peers().contains_key(id) {
                    worker_text("cannot assign layers to dead "@, id, ""@)
                } else {
                    worker_text(""@, id, " not found"@)
                };
                assert(m@ =~= "forced rebalance: assign '"@ + id
                    + "' failed: protocol error: "@ + why);
            }
            Err(FractureError::Pipeline(m))
        },
    }
}

/// What follows when a worker was told of its layers, or could not be: a worker that
/// cannot be told cannot take part, and is given up.
pub fn reconfigured<C>(registry: &mut PeerRegistry<C>, node_id: &str, sent: bool)
    requires
        old(registry).wf(),
    ensures
        final(registry).wf(),
        final(registry).ids() == old(registry).ids(),
        final(registry).peers() == if sent {
            old(registry).peers()
        } else {
            PeerRegistry::<C>::with_status(old(registry).peers(), node_id@, WorkerStatus::Dead)
        },
{
    if !sent {
        registry.mark_dead(node_id);
    }
}

/// The result of a rebalance: the new pipeline of these assignments.
pub fn rebalanced(assignments: Vec<LayerAssignment>, hidden_size: usize) -> (res: Result<
    RebalanceResult,
>)
    ensures
        res is Ok <==> assignments@.len() > 0 && contiguous(assignments@),
        res matches Ok(r) ==> {
            &&& r.assignments == assignments
            &&& r.pipeline.order() == assignments@.map_values(|a: LayerAssignment| a.node_id)
            &&& r.pipeline.width() == hidden_size
            &&& r.pipeline.layers() == assignments@.last().end()
            &&& r.pipeline.allocated() == Set::<u64>::empty()
        },
        res matches Err(e) ==> is_misfit(assignments@, e),
{
    match DistributedPipeline::new(assignments.as_slice(), hidden_size) {
        Ok(p) => Ok(RebalanceResult { pipeline: Arc::new(p), assignments }),
        Err(e) => Err(e),
    }
}

/// Handle to a pending graceful rebalance. The caller polls `is_ready()` each
/// iteration of their event loop; when active sequences drain to zero the
/// rebalance triggers automatically.
pub struct PendingGracefulRebalance {
    pub model_config: ModelConfig,
    pub scheduling_mode: SchedulingMode,
    pub max_seq_len: usize,
    /// Node IDs to exclude from the new schedule.
    pub skip_node_ids: Vec<String>,
    /// Set to true if the pending rebalance should be cancelled.
    pub cancelled: bool,
}

impl PendingGracefulRebalance {
    pub fn new(
        model_config: ModelConfig,
        scheduling_mode: SchedulingMode,
        max_seq_len: usize,
        skip_node_ids: Vec<String>,
    ) -> (res: Self)
        ensures
            res == (PendingGracefulRebalance {
                model_config,
                scheduling_mode,
                max_seq_len,
                skip_node_ids,
                cancelled: false,
            }),
    {
        PendingGracefulRebalance {
            model_config,
            scheduling_mode,
            max_seq_len,
            skip_node_ids,
            cancelled: false,
        }
    }

    /// Check if the graceful rebalance should trigger now.
    /// Returns true when there are no active sequences.
    pub fn is_ready(&self, active_sequence_count: usize) -> (res: bool)
        ensures
            res == (!self.cancelled && active_sequence_count == 0),
    {
        !self.cancelled && active_sequence_count == 0
    }

    /// Cancel this pending rebalance. Used when a forced rebalance supersedes it
    /// (e.g., a worker crashes while we're waiting for sequences to drain).
    pub fn cancel(&mut self)
        ensures
            *final(self) == (PendingGracefulRebalance { cancelled: true, ..*old(self) }),
    {
        self.cancelled = true;
    }

    pub fn is_cancelled(&self) -> (res: bool)
        ensures
            res == self.cancelled,
    {
        self.cancelled
    }
}

/// A worker that is left out is not scheduled, and no other is lost.
pub proof fn exclusions_are_exact(
    caps: Seq<WorkerCapabilities>,
    skip: Seq<String>,
    k: int,
    w: WorkerCapabilities,
)
    requires
        0 <= k <= caps.len(),
    ensures
        remaining(caps, skip, k).contains(w) <==> caps.take(k).contains(w) && kept(skip, w),
    decreases k,
{
    let r = remaining(caps, skip, k);
    if k > 0 {
        exclusions_are_exact(caps, skip, k - 1, w);
        let q = remaining(caps, skip, k - 1);
        assert(caps.take(k) =~= caps.take(k - 1).push(caps[k - 1]));
        if q.contains(w) {
            let i = q.index_of(w);
            assert(r[i] == w);
        }
        if caps.take(k - 1).contains(w) {
            let i = caps.take(k - 1).index_of(w);
            assert(caps.take(k)[i] == w);
        }
        if caps[k - 1] == w {
            assert(caps.take(k)[k - 1] == w);
            if kept(skip, w) {
                assert(r[r.len() - 1] == w);
            }
        }
        if r.contains(w) {
            let i = r.index_of(w);
            if i < q.len() {
                assert(q[i] == w);
            }
        }
        if caps.take(k).contains(w) {
            let i = caps.take(k).index_of(w);
            if i < k - 1 {
                assert(caps.take(k - 1)[i] == w);
            }
        }
    }
}

} // verus!

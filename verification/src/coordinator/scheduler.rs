//! Layer assignment scheduler for distributed pipeline-parallel inference.
//!
//! Takes worker capabilities and model config, returns layer assignments. No
//! networking or side effects.
//!
//! Three scheduling modes:
//! - **Auto**: Compute-balanced assignment with slow-node pruning
//! - **EqualSplit**: Even layer count per node (for correctness testing)
//! - **Manual**: Explicit layer range overrides
//!
//! Times, speeds and shares are real numbers. The caller computes them and hands them
//! in; what is decided by them is decided here.
use crate::base::error::{FractureError, Result};
use crate::base::model_config::ModelConfig;
use crate::base::numeric::Single;
use crate::base::text::{decimal, push_decimal};
use crate::coordinator::counts::{
    prefix_sum, redistribute_layers, redistributed, sum, sum_bounds, sum_update, topped_up,
};
use crate::coordinator::manual::{manually_scheduled, schedule_manual};
use crate::coordinator::memory::{
    cache_memory_per_layer, layer_bytes, layers_that_fit, max_layers_for_node, model_sizes_fit,
    node_sizes_fit, overhead_bytes, rest_of, role_overhead, sizes_are_not_negative,
    weight_memory_per_layer,
};
use crate::coordinator::worker::{LayerAssignment, NodeRole, WorkerCapabilities};
use std::ops::Range;
use vstd::prelude::*;
use vstd::string::StringExecFns;

verus! {

/// Input to the scheduler.
#[derive(Debug, Clone)]
pub struct SchedulerInput {
    pub model_config: ModelConfig,
    pub workers: Vec<WorkerCapabilities>,
    pub coordinator_compute: Option<WorkerCapabilities>,
    pub mode: SchedulingMode,
    pub max_seq_len: usize,
    /// Estimated network hop latency in ms. Default 2.0 for cross-machine,
    /// 0.1 for localhost.
    pub hop_latency_ms: Single,
}

/// Scheduling mode.
#[derive(Debug, Clone)]
pub enum SchedulingMode {
    /// Compute-balanced assignment with slow-node pruning.
    Auto,
    /// Force equal layer count per node (for correctness testing).
    EqualSplit,
    /// Explicit manual assignment.
    Manual(Vec<ManualAssignment>),
}

/// Explicit layer range assignment for Manual mode.
#[derive(Debug)]
pub struct ManualAssignment {
    pub node_id: String,
    pub layer_range: Range<usize>,
}

impl Clone for ManualAssignment {
    fn clone(&self) -> (res: Self)
        ensures
            res == *self,
    {
        ManualAssignment {
            node_id: self.node_id.clone(),
            layer_range: self.layer_range.start..self.layer_range.end,
        }
    }
}

/// Reason a node was excluded from the pipeline.
#[derive(Debug, Clone, Copy, PartialEq, Eq, Structural)]
pub enum ExclusionReason {
    /// Removing this node made the pipeline faster.
    SlowsDownPipeline { latency_with_ms: Single, latency_without_ms: Single },
}

/// A node excluded from the pipeline.
#[derive(Debug, Clone)]
pub struct ExcludedNode {
    pub node_id: String,
    pub reason: ExclusionReason,
}

/// Scheduler output.
#[derive(Debug)]
pub struct SchedulerResult {
    pub assignments: Vec<LayerAssignment>,
    pub excluded_nodes: Vec<ExcludedNode>,
    /// Predicted total per-token decode latency (ms), including network hops.
    pub pipeline_decode_ms: Single,
    /// max(per_node_time) / min(per_node_time). 1.0 = perfectly balanced.
    pub imbalance_ratio: Single,
    /// Node ID of the bottleneck (slowest) node.
    pub bottleneck_node: String,
}

/// What was computed for a set of nodes.
#[derive(Debug)]
pub struct Estimate {
    /// The latency of a pipeline of these nodes, in ms.
    pub latency_ms: Single,
    /// Each node's share of the layers by its speed, rounded.
    pub ideal: Vec<usize>,
    /// Each node's speed: layers per ms.
    pub speeds: Vec<Single>,
}

/// Which nodes take part, with how many layers each.
#[derive(Debug)]
pub struct LayerPlan {
    pub workers: Vec<WorkerCapabilities>,
    pub layer_counts: Vec<usize>,
    pub excluded: Vec<ExcludedNode>,
}

/// Why there is no plan.
#[derive(Debug)]
pub enum ScheduleError {
    Refused(FractureError),
    /// A node has too little memory for its equal share.
    TooSmall {
        node_id: String,
        layers: usize,
        max: usize,
        available_bytes: usize,
        needed_bytes: usize,
    },
}

/// What is said of a node that has too little memory.
pub open spec fn cannot_hold(node_id: Seq<char>, layers: usize, max: usize) -> Seq<char> {
    "node '"@ + node_id + "' cannot hold "@ + decimal(layers as nat) + " layers (max "@ + decimal(
        max as nat,
    ) + ")"@
}

pub(crate) fn cannot_hold_text(node_id: &str, layers: usize, max: usize) -> (res: String)
    ensures
        res@ == cannot_hold(node_id@, layers, max),
{
    let mut m: String = "node '".to_owned();
    m.append(node_id);
    m.append("' cannot hold ");
    push_decimal(&mut m, layers as u64);
    m.append(" layers (max ");
    push_decimal(&mut m, max as u64);
    m.append(")");
    m
}

impl ScheduleError {
    /// The error as the library's own. The memory sizes are given in writing, in GB.
    pub fn into_error(self, available_gb: &str, needed_gb: &str) -> (res: FractureError)
        ensures
            self matches ScheduleError::Refused(e) ==> res == e,
            self matches ScheduleError::TooSmall { node_id, layers, max, .. } ==> res.is_pipeline(
                cannot_hold(node_id@, layers, max) + ": "@ + available_gb@ + " GB available, needs "@
                    + needed_gb@ + " GB"@,
            ),
    {
        match self {
            ScheduleError::Refused(e) => e,
            ScheduleError::TooSmall { node_id, layers, max, .. } => {
                let mut m: String = cannot_hold_text(node_id.as_str(), layers, max);
                m.append(": ");
                m.append(available_gb);
                m.append(" GB available, needs ");
                m.append(needed_gb);
                m.append(" GB");
                FractureError::Pipeline(m)
            },
        }
    }
}

/// The memory of each node.
pub open spec fn memories(nodes: Seq<WorkerCapabilities>) -> Seq<usize> {
    nodes.map_values(|w: WorkerCapabilities| w.gpu_memory_available)
}

/// How many layers each node can hold.
pub open spec fn rooms_of(
    nodes: Seq<WorkerCapabilities>,
    c: ModelConfig,
    max_seq_len: usize,
) -> Seq<usize> {
    Seq::new(nodes.len(), |i: int| room_of(nodes, c, max_seq_len, i))
}

/// How many layers node `i` can hold.
pub open spec fn room_of(
    nodes: Seq<WorkerCapabilities>,
    c: ModelConfig,
    max_seq_len: usize,
    i: int,
) -> usize {
    layers_that_fit(
        nodes[i].gpu_memory_available as int,
        layer_bytes(c, max_seq_len),
        overhead_bytes(i, nodes.len() as int, c),
    ) as usize
}

/// The nodes that could take part: the coordinator first, if it computes, then the
/// workers.
pub open spec fn candidates(input: SchedulerInput) -> Seq<WorkerCapabilities> {
    (match input.coordinator_compute {
        Some(w) => seq![w],
        None => Seq::empty(),
    }) + input.workers@
}

/// The nodes that could take part: the coordinator first, if it computes, then the
/// workers.
pub fn merge_candidates(input: &SchedulerInput) -> (res: Vec<WorkerCapabilities>)
    ensures
        res@ == candidates(*input),
{
    let mut out: Vec<WorkerCapabilities> = Vec::new();
    if let Some(w) = &input.coordinator_compute {
        out.push(w.clone());
    }
    let ghost first = out@;
    let mut i: usize = 0;
    while i < input.workers.len()
        invariant
            i <= input.workers@.len(),
            out@ =~= first + input.workers@.take(i as int),
        decreases input.workers@.len() - i,
    {
        out.push(input.workers[i].clone());
        i = i + 1;
    }
    assert(input.workers@.take(i as int) =~= input.workers@);
    out
}

/// The slowest of the first `k` nodes; the last one of several.
pub open spec fn slowest_of(nodes: Seq<WorkerCapabilities>, k: int) -> int
    decreases k,
{
    if k <= 1 {
        0
    } else {
        let s = slowest_of(nodes, k - 1);
        if nodes[k - 1].decode_ms_per_layer.below(nodes[s].decode_ms_per_layer) {
            s
        } else {
            k - 1
        }
    }
}

/// The slowest node; the last one of several.
pub open spec fn slowest(nodes: Seq<WorkerCapabilities>) -> int {
    slowest_of(nodes, nodes.len() as int)
}

/// The nodes without the slowest one.
pub open spec fn without_slowest(nodes: Seq<WorkerCapabilities>) -> Seq<WorkerCapabilities> {
    nodes.remove(slowest(nodes))
}

/// The nodes after the slowest one was taken out `k` times.
pub open spec fn pruned(nodes: Seq<WorkerCapabilities>, k: int) -> Seq<WorkerCapabilities>
    decreases k,
{
    if k <= 0 {
        nodes
    } else {
        without_slowest(pruned(nodes, k - 1))
    }
}

/// The slowest node is one of the nodes.
proof fn slowest_bounds(nodes: Seq<WorkerCapabilities>, k: int)
    requires
        0 < k <= nodes.len(),
    ensures
        0 <= slowest_of(nodes, k) < k,
    decreases k,
{
    if k > 1 {
        slowest_bounds(nodes, k - 1);
    }
}

/// Taking out `k` nodes leaves `k` fewer.
proof fn pruned_len(nodes: Seq<WorkerCapabilities>, k: int)
    requires
        0 <= k <= nodes.len(),
    ensures
        pruned(nodes, k).len() == nodes.len() - k,
    decreases k,
{
    if k > 0 {
        pruned_len(nodes, k - 1);
        slowest_bounds(pruned(nodes, k - 1), pruned(nodes, k - 1).len() as int);
    }
}

fn find_slowest(nodes: &Vec<WorkerCapabilities>) -> (res: usize)
    requires
        nodes@.len() > 0,
    ensures
        res == slowest(nodes@),
        res < nodes@.len(),
{
    let mut s: usize = 0;
    let mut k: usize = 1;
    while k < nodes.len()
        invariant
            1 <= k <= nodes@.len(),
            s < k,
            s == slowest_of(nodes@, k as int),
        decreases nodes@.len() - k,
    {
        if !nodes[k].decode_ms_per_layer.is_below(nodes[s].decode_ms_per_layer) {
            s = k;
        }
        k = k + 1;
    }
    s
}

/// The nodes without the slowest one, for which the next estimate is to be made.
pub fn drop_slowest(nodes: &Vec<WorkerCapabilities>) -> (res: Vec<WorkerCapabilities>)
    requires
        nodes@.len() > 0,
    ensures
        res@ == without_slowest(nodes@),
{
    let s: usize = find_slowest(nodes);
    let mut out: Vec<WorkerCapabilities> = Vec::new();
    let mut i: usize = 0;
    while i < nodes.len()
        invariant
            i <= nodes@.len(),
            s < nodes@.len(),
            out@ =~= (if i <= s {
                nodes@.take(i as int)
            } else {
                nodes@.remove(s as int).take(i - 1)
            }),
        decreases nodes@.len() - i,
    {
        if i != s {
            out.push(nodes[i].clone());
        }
        i = i + 1;
    }
    assert(out@ =~= nodes@.remove(s as int));
    out
}

/// The memory of the first `k` nodes beside what their places ask for.
pub open spec fn free_memory(nodes: Seq<WorkerCapabilities>, c: ModelConfig, k: int) -> int
    decreases k,
{
    if k <= 0 {
        0
    } else {
        free_memory(nodes, c, k - 1) + rest_of(
            nodes[k - 1].gpu_memory_available as int,
            overhead_bytes(k - 1, nodes.len() as int, c),
        )
    }
}

/// The model fits into the memory of the nodes.
pub open spec fn fits(nodes: Seq<WorkerCapabilities>, c: ModelConfig, max_seq_len: usize) -> bool {
    free_memory(nodes, c, nodes.len() as int) >= c.num_layers * layer_bytes(c, max_seq_len)
}

/// The free memory of more nodes is no less.
proof fn free_memory_grows(nodes: Seq<WorkerCapabilities>, c: ModelConfig, j: int, k: int)
    requires
        0 <= j <= k,
    ensures
        0 <= free_memory(nodes, c, j) <= free_memory(nodes, c, k),
    decreases k,
{
    if j < k {
        free_memory_grows(nodes, c, j, k - 1);
    } else if j > 0 {
        free_memory_grows(nodes, c, j - 1, j - 1);
    }
}

/// Check if the model fits across the given set of nodes.
pub fn model_fits(nodes: &Vec<WorkerCapabilities>, config: &ModelConfig, max_seq_len: usize) -> (res:
    bool)
    requires
        model_sizes_fit(*config, max_seq_len),
    ensures
        res == fits(nodes@, *config, max_seq_len),
{
    proof {
        sizes_are_not_negative(*config, max_seq_len);
    }
    let per_layer: usize = weight_memory_per_layer(config) + cache_memory_per_layer(
        config,
        max_seq_len,
    );
    let needed: usize = config.num_layers * per_layer;
    let n: usize = nodes.len();
    // What is still needed beside the first `k` nodes.
    let mut lacking: usize = needed;
    let mut k: usize = 0;
    while k < n
        invariant
            k <= n == nodes@.len(),
            model_sizes_fit(*config, max_seq_len),
            lacking == rest_of(needed as int, free_memory(nodes@, *config, k as int)),
        decreases n - k,
    {
        proof {
            sizes_are_not_negative(*config, max_seq_len);
            free_memory_grows(nodes@, *config, k as int, k + 1);
        }
        let overhead: usize = role_overhead(k, n, config);
        let available: usize = nodes[k].gpu_memory_available.saturating_sub(overhead);
        lacking = lacking.saturating_sub(available);
        k = k + 1;
    }
    lacking == 0
}

/// How many layers each node can hold.
fn find_rooms(nodes: &Vec<WorkerCapabilities>, config: &ModelConfig, max_seq_len: usize) -> (res:
    Vec<usize>)
    requires
        node_sizes_fit(*config, max_seq_len),
    ensures
        res@ == rooms_of(nodes@, *config, max_seq_len),
{
    proof {
        sizes_are_not_negative(*config, max_seq_len);
    }
    let per_layer: usize = weight_memory_per_layer(config) + cache_memory_per_layer(
        config,
        max_seq_len,
    );
    let n: usize = nodes.len();
    let mut rooms: Vec<usize> = Vec::new();
    let mut k: usize = 0;
    while k < n
        invariant
            k <= n == nodes@.len(),
            node_sizes_fit(*config, max_seq_len),
            per_layer == layer_bytes(*config, max_seq_len),
            rooms@ =~= rooms_of(nodes@, *config, max_seq_len).take(k as int),
        decreases n - k,
    {
        proof {
            sizes_are_not_negative(*config, max_seq_len);
        }
        let overhead: usize = role_overhead(k, n, config);
        rooms.push(max_layers_for_node(nodes[k].gpu_memory_available, per_layer, overhead));
        k = k + 1;
    }
    assert(rooms@ =~= rooms_of(nodes@, *config, max_seq_len));
    rooms
}

/// The smaller of two counts.
pub open spec fn smaller(a: usize, b: usize) -> usize {
    if a < b {
        a
    } else {
        b
    }
}

/// Each share, but no more than the room of the node.
pub open spec fn clamped(shares: Seq<usize>, rooms: Seq<usize>) -> Seq<usize> {
    Seq::new(rooms.len(), |i: int| smaller(shares[i], rooms[i]))
}

fn clamp(shares: &Vec<usize>, rooms: &Vec<usize>) -> (res: Vec<usize>)
    requires
        shares@.len() == rooms@.len(),
    ensures
        res@ == clamped(shares@, rooms@),
{
    let mut out: Vec<usize> = Vec::new();
    let mut k: usize = 0;
    while k < rooms.len()
        invariant
            k <= rooms@.len() == shares@.len(),
            out@ =~= clamped(shares@, rooms@).take(k as int),
        decreases rooms@.len() - k,
    {
        if shares[k] < rooms[k] {
            out.push(shares[k]);
        } else {
            out.push(rooms[k]);
        }
        k = k + 1;
    }
    assert(out@ =~= clamped(shares@, rooms@));
    out
}

/// The layers that an estimate of the latency reckons with: each node's share, but no more
/// than its room and than the model has.
pub fn estimated_layers(
    nodes: &Vec<WorkerCapabilities>,
    ideal: &Vec<usize>,
    config: &ModelConfig,
    max_seq_len: usize,
) -> (res: Vec<usize>)
    requires
        ideal@.len() == nodes@.len(),
        node_sizes_fit(*config, max_seq_len),
    ensures
        res@ == Seq::new(
            nodes@.len(),
            |i: int|
                smaller(
                    clamped(ideal@, rooms_of(nodes@, *config, max_seq_len))[i],
                    config.num_layers,
                ),
        ),
{
    let rooms = find_rooms(nodes, config, max_seq_len);
    let layers = clamp(ideal, &rooms);
    let mut out: Vec<usize> = Vec::new();
    let mut k: usize = 0;
    while k < layers.len()
        invariant
            k <= layers@.len(),
            out@ =~= Seq::new(k as nat, |i: int| smaller(layers@[i], config.num_layers)),
        decreases layers@.len() - k,
    {
        if layers[k] < config.num_layers {
            out.push(layers[k]);
        } else {
            out.push(config.num_layers);
        }
        k = k + 1;
    }
    out
}

/// Taking out the slowest of `nodes` makes the pipeline faster, and the model still fits.
/// `e` and `f` are the estimates with and without that node.
pub open spec fn better_without(
    nodes: Seq<WorkerCapabilities>,
    c: ModelConfig,
    max_seq_len: usize,
    e: Estimate,
    f: Estimate,
) -> bool {
    &&& nodes.len() > 1
    &&& fits(without_slowest(nodes), c, max_seq_len)
    &&& f.latency_ms.below(e.latency_ms)
}

/// How many nodes are taken out, when `k` are already: as long as it makes the pipeline
/// faster. `estimates` are those for the nodes after 0, 1, 2, … were taken out.
pub open spec fn prune_count(
    nodes: Seq<WorkerCapabilities>,
    c: ModelConfig,
    max_seq_len: usize,
    estimates: Seq<Estimate>,
    k: int,
) -> int
    decreases nodes.len() - k,
{
    if 0 <= k < nodes.len() && better_without(
        pruned(nodes, k),
        c,
        max_seq_len,
        estimates[k],
        estimates[k + 1],
    ) {
        prune_count(nodes, c, max_seq_len, estimates, k + 1)
    } else {
        k
    }
}

/// There is an estimate for the nodes after 0, 1, 2, … of them were taken out, down to one
/// node, and the shares of each can be added up.
pub open spec fn estimates_match(n: int, estimates: Seq<Estimate>) -> bool {
    &&& estimates.len() == n
    &&& forall|k: int|
        0 <= k < n ==> (#[trigger] estimates[k]).ideal@.len() == n - k
            && estimates[k].speeds@.len() == n - k && sum(estimates[k].ideal@) <= usize::MAX
}

/// `x` says that node number `k` was taken out, and why.
pub open spec fn says_excluded(
    x: ExcludedNode,
    nodes: Seq<WorkerCapabilities>,
    estimates: Seq<Estimate>,
    k: int,
) -> bool {
    let left = pruned(nodes, k);
    &&& x.node_id == left[slowest(left)].node_id
    &&& x.reason == (ExclusionReason::SlowsDownPipeline {
        latency_with_ms: estimates[k].latency_ms,
        latency_without_ms: estimates[k + 1].latency_ms,
    })
}

/// Takes out slow nodes as long as that makes the pipeline faster.
fn prune(
    nodes: Vec<WorkerCapabilities>,
    config: &ModelConfig,
    max_seq_len: usize,
    estimates: &[Estimate],
) -> (res: (Vec<WorkerCapabilities>, Vec<ExcludedNode>))
    requires
        nodes@.len() > 0,
        nodes@.len() > 1 ==> model_sizes_fit(*config, max_seq_len),
        estimates_match(nodes@.len() as int, estimates@),
    ensures
        ({
            let k = prune_count(nodes@, *config, max_seq_len, estimates@, 0);
            &&& 0 <= k < nodes@.len()
            &&& res.0@ == pruned(nodes@, k)
            &&& res.0@.len() == nodes@.len() - k
            &&& res.1@.len() == k
            &&& forall|j: int|
                0 <= j < k ==> says_excluded(#[trigger] res.1@[j], nodes@, estimates@, j)
        }),
{
    let ghost all = nodes@;
    let mut left = nodes;
    let mut excluded: Vec<ExcludedNode> = Vec::new();
    let mut k: usize = 0;
    while left.len() > 1
        invariant
            0 <= k < all.len(),
            left@.len() == all.len() - k,
            left@ == pruned(all, k as int),
            all.len() > 1 ==> model_sizes_fit(*config, max_seq_len),
            estimates_match(all.len() as int, estimates@),
            excluded@.len() == k,
            forall|j: int|
                0 <= j < k ==> says_excluded(#[trigger] excluded@[j], all, estimates@, j),
            prune_count(all, *config, max_seq_len, estimates@, 0) == prune_count(
                all,
                *config,
                max_seq_len,
                estimates@,
                k as int,
            ),
        ensures
            !better_without(
                left@,
                *config,
                max_seq_len,
                estimates@[k as int],
                estimates@[k + 1],
            ),
        decreases left@.len(),
    {
        let s: usize = find_slowest(&left);
        let without = drop_slowest(&left);
        if !model_fits(&without, config, max_seq_len) {
            break;
        }
        let with_ms = estimates[k].latency_ms;
        let without_ms = estimates[k + 1].latency_ms;
        if !without_ms.is_below(with_ms) {
            break;
        }
        let x = ExcludedNode {
            node_id: left[s].node_id.clone(),
            reason: ExclusionReason::SlowsDownPipeline {
                latency_with_ms: with_ms,
                latency_without_ms: without_ms,
            },
        };
        assert(says_excluded(x, all, estimates@, k as int));
        excluded.push(x);
        left = without;
        k = k + 1;
    }
    (left, excluded)
}

/// What scheduling by speed gives.
pub open spec fn auto_scheduled(
    nodes: Seq<WorkerCapabilities>,
    c: ModelConfig,
    max_seq_len: usize,
    estimates: Seq<Estimate>,
    res: core::result::Result<LayerPlan, ScheduleError>,
) -> bool {
    if exists|i: int| 0 <= i < nodes.len() && !(#[trigger] nodes[i]).calibrated() {
        // The first worker whose times are not plausible.
        exists|i: int|
            0 <= i < nodes.len() && !(#[trigger] nodes[i]).calibrated() && (forall|j: int|
                0 <= j < i ==> (#[trigger] nodes[j]).calibrated()) && (res matches Err(
                ScheduleError::Refused(e),
            ) && nodes[i].is_uncalibrated(e))
    } else {
        let k = prune_count(nodes, c, max_seq_len, estimates, 0);
        let left = pruned(nodes, k);
        let rooms = rooms_of(left, c, max_seq_len);
        let start = clamped(estimates[k].ideal@, rooms);
        let filled = topped_up(start, rooms, estimates[k].speeds@, c.num_layers);
        let counts = redistributed(start, rooms, estimates[k].speeds@, c.num_layers);
        match res {
            Ok(p) => {
                &&& sum(filled) >= c.num_layers
                &&& sum(counts) == c.num_layers
                &&& p.workers@ == left
                &&& p.layer_counts@ == counts
                &&& p.excluded@.len() == k
                &&& forall|j: int|
                    0 <= j < k ==> says_excluded(#[trigger] p.excluded@[j], nodes, estimates, j)
            },
            Err(ScheduleError::Refused(e)) => if sum(filled) < c.num_layers {
                e.is_pipeline(
                    "insufficient total capacity: need "@ + decimal(c.num_layers as nat)
                        + " layers, can fit "@ + decimal(sum(filled) as nat),
                )
            } else {
                sum(counts) != c.num_layers && e.is_pipeline(
                    "failed to assign all layers: assigned "@ + decimal(sum(counts) as nat)
                        + ", need "@ + decimal(c.num_layers as nat),
                )
            },
            Err(_) => false,
        }
    }
}

fn schedule_auto(
    config: &ModelConfig,
    max_seq_len: usize,
    nodes: Vec<WorkerCapabilities>,
    estimates: &[Estimate],
) -> (res: core::result::Result<LayerPlan, ScheduleError>)
    requires
        nodes@.len() > 0,
        node_sizes_fit(*config, max_seq_len),
        nodes@.len() > 1 ==> model_sizes_fit(*config, max_seq_len),
        estimates_match(nodes@.len() as int, estimates@),
    ensures
        auto_scheduled(nodes@, *config, max_seq_len, estimates@, res),
{
    let ghost all = nodes@;
    let mut i: usize = 0;
    while i < nodes.len()
        invariant
            i <= nodes@.len(),
            nodes@ == all,
            forall|j: int| 0 <= j < i ==> (#[trigger] all[j]).calibrated(),
        decreases nodes@.len() - i,
    {
        match nodes[i].validate_calibration() {
            Ok(()) => {},
            Err(e) => {
                assert(!all[i as int].calibrated());
                return Err(ScheduleError::Refused(e));
            },
        }
        i = i + 1;
    }
    let (left, excluded) = prune(nodes, config, max_seq_len, estimates);
    let k: usize = excluded.len();
    let rooms = find_rooms(&left, config, max_seq_len);
    assert(estimates@[k as int].ideal@.len() == rooms@.len());
    let mut counts = clamp(&estimates[k].ideal, &rooms);
    proof {
        sum_bounds(counts@, estimates@[k as int].ideal@);
    }
    match redistribute_layers(&mut counts, &rooms, &estimates[k].speeds, config.num_layers) {
        Ok(()) => Ok(LayerPlan { workers: left, layer_counts: counts, excluded }),
        Err(e) => Err(ScheduleError::Refused(e)),
    }
}

/// The node with the most memory among the first `k` that are not in `got`; the first one
/// of several.
pub open spec fn largest_outside(mem: Seq<usize>, got: Set<int>, k: int) -> Option<int>
    decreases k,
{
    if k <= 0 {
        None
    } else {
        let best = largest_outside(mem, got, k - 1);
        if got.contains(k - 1) || (best is Some && mem[k - 1] <= mem[best->0]) {
            best
        } else {
            Some(k - 1)
        }
    }
}

/// The `r` nodes with the most memory.
pub open spec fn largest(mem: Seq<usize>, r: int) -> Set<int>
    decreases r,
{
    if r <= 0 {
        Set::empty()
    } else {
        let got = largest(mem, r - 1);
        match largest_outside(mem, got, mem.len() as int) {
            Some(i) => got.insert(i),
            None => got,
        }
    }
}

/// The counts of an even split: the same for all nodes, and one more for each of the `r`
/// nodes with the most memory.
pub open spec fn even_counts(mem: Seq<usize>, base: usize, r: int) -> Seq<usize> {
    Seq::new(
        mem.len(),
        |i: int|
            if largest(mem, r).contains(i) {
                (base + 1) as usize
            } else {
                base
            },
    )
}

proof fn largest_outside_bounds(mem: Seq<usize>, got: Set<int>, k: int)
    requires
        0 <= k <= mem.len(),
    ensures
        largest_outside(mem, got, k) matches Some(i) ==> 0 <= i < k && !got.contains(i),
        largest_outside(mem, got, k) is None ==> forall|i: int|
            0 <= i < k ==> #[trigger] got.contains(i),
        largest_outside(mem, got, k) matches Some(i) ==> forall|j: int|
            0 <= j < k && !(#[trigger] got.contains(j)) ==> mem[j] <= mem[i],
    decreases k,
{
    if k > 0 {
        largest_outside_bounds(mem, got, k - 1);
    }
}

/// There are as many largest nodes as were asked for.
proof fn largest_len(mem: Seq<usize>, r: int)
    requires
        0 <= r <= mem.len(),
    ensures
        largest(mem, r).finite(),
        largest(mem, r).len() == r,
        forall|i: int| #[trigger] largest(mem, r).contains(i) ==> 0 <= i < mem.len(),
    decreases r,
{
    if r > 0 {
        largest_len(mem, r - 1);
        let got = largest(mem, r - 1);
        largest_outside_bounds(mem, got, mem.len() as int);
        if largest_outside(mem, got, mem.len() as int) is None {
            let all = vstd::set_lib::set_int_range(0, mem.len() as int);
            vstd::set_lib::lemma_int_range(0, mem.len() as int);
            assert(all.subset_of(got));
            vstd::set_lib::lemma_len_subset(all, got);
        }
    }
}

/// An even split gives out `r` layers more than `base` to each node.
proof fn even_sum(mem: Seq<usize>, base: usize, r: int)
    requires
        0 <= r <= mem.len(),
        base < usize::MAX,
    ensures
        sum(even_counts(mem, base, r)) == mem.len() * base + r,
    decreases r,
{
    if r == 0 {
        even_base(mem, base);
        assert(even_counts(mem, base, 0) =~= Seq::new(mem.len(), |i: int| base));
    } else {
        even_sum(mem, base, r - 1);
        largest_len(mem, r - 1);
        largest_len(mem, r);
        let got = largest(mem, r - 1);
        largest_outside_bounds(mem, got, mem.len() as int);
        let c = even_counts(mem, base, r - 1);
        match largest_outside(mem, got, mem.len() as int) {
            Some(i) => {
                sum_update(c, i, (base + 1) as usize);
                assert(even_counts(mem, base, r) =~= c.update(i, (base + 1) as usize));
            },
            None => {},
        }
    }
}

proof fn even_base(mem: Seq<usize>, base: usize)
    ensures
        sum(Seq::new(mem.len(), |i: int| base)) == mem.len() * base,
    decreases mem.len(),
{
    let s = Seq::new(mem.len(), |i: int| base);
    if mem.len() > 0 {
        even_base(mem.drop_last(), base);
        assert(s.drop_last() =~= Seq::new(mem.drop_last().len(), |i: int| base));
        let n = mem.len() as int;
        assert((n - 1) * base + base == n * base) by (nonlinear_arith);
    } else {
        assert(s =~= Seq::empty());
        assert(0 * base == 0) by (nonlinear_arith);
    }
}

/// The counts that an equal split of the model gives.
pub open spec fn equal_counts(nodes: Seq<WorkerCapabilities>, num_layers: usize) -> Seq<usize> {
    even_counts(
        memories(nodes),
        (num_layers as int / nodes.len() as int) as usize,
        num_layers as int % nodes.len() as int,
    )
}

/// An equal split gives out all layers, and no two nodes differ by more than one layer.
pub proof fn equal_split_is_even(
    nodes: Seq<WorkerCapabilities>,
    num_layers: usize,
    i: int,
    j: int,
)
    requires
        0 <= i < nodes.len(),
        0 <= j < nodes.len(),
    ensures
        sum(equal_counts(nodes, num_layers)) == num_layers,
        equal_counts(nodes, num_layers)[i] <= equal_counts(nodes, num_layers)[j] + 1,
{
    let n = nodes.len() as int;
    let q = num_layers as int / n;
    let r = num_layers as int % n;
    vstd::arithmetic::div_mod::lemma_fundamental_div_mod(num_layers as int, n);
    assert(0 <= r < n && 0 <= q <= num_layers) by (nonlinear_arith)
        requires
            n > 0,
            q == num_layers as int / n,
            r == num_layers as int % n,
    ;
    if q < usize::MAX {
        even_sum(memories(nodes), q as usize, r);
    } else {
        assert(r == 0) by (nonlinear_arith)
            requires
                n > 0,
                num_layers <= usize::MAX,
                q == usize::MAX,
                num_layers == n * q + r,
                0 <= r,
        ;
        even_base(memories(nodes), q as usize);
        assert(even_counts(memories(nodes), q as usize, 0) =~= Seq::new(
            memories(nodes).len(),
            |i: int| q as usize,
        ));
    }
}

/// The extra layers of an equal split go to the nodes with the most memory.
pub proof fn extra_layers_go_to_memory(
    nodes: Seq<WorkerCapabilities>,
    num_layers: usize,
    i: int,
    j: int,
)
    requires
        0 <= i < nodes.len(),
        0 <= j < nodes.len(),
        equal_counts(nodes, num_layers)[i] > equal_counts(nodes, num_layers)[j],
    ensures
        nodes[i].gpu_memory_available >= nodes[j].gpu_memory_available,
{
    let n = nodes.len() as int;
    let r = num_layers as int % n;
    let q = num_layers as int / n;
    assert(0 <= r < n && 0 <= q <= num_layers) by (nonlinear_arith)
        requires
            n > 0,
            q == num_layers as int / n,
            r == num_layers as int % n,
    ;
    vstd::arithmetic::div_mod::lemma_fundamental_div_mod(num_layers as int, n);
    if q == usize::MAX {
        assert(r == 0) by (nonlinear_arith)
            requires
                n > 0,
                num_layers <= usize::MAX,
                q == usize::MAX,
                num_layers == n * q + r,
                0 <= r,
        ;
    }
    largest_have_most(memories(nodes), r, i, j);
}

proof fn largest_have_most(mem: Seq<usize>, r: int, i: int, j: int)
    requires
        0 <= r <= mem.len(),
        0 <= i < mem.len(),
        0 <= j < mem.len(),
        largest(mem, r).contains(i),
        !largest(mem, r).contains(j),
    ensures
        mem[i] >= mem[j],
    decreases r,
{
    if r > 0 {
        let got = largest(mem, r - 1);
        largest_outside_bounds(mem, got, mem.len() as int);
        if got.contains(i) {
            largest_have_most(mem, r - 1, i, j);
        } else {
            assert(!got.contains(j));
        }
    }
}

/// The nodes with the most memory, marked.
fn mark_largest(nodes: &Vec<WorkerCapabilities>, r: usize) -> (res: Vec<bool>)
    requires
        r <= nodes@.len(),
    ensures
        res@ == Seq::new(nodes@.len(), |i: int| largest(memories(nodes@), r as int).contains(i)),
{
    let n: usize = nodes.len();
    let ghost mem = memories(nodes@);
    let mut marks: Vec<bool> = Vec::new();
    let mut i: usize = 0;
    while i < n
        invariant
            i <= n == nodes@.len(),
            marks@ =~= Seq::new(i as nat, |j: int| false),
        decreases n - i,
    {
        marks.push(false);
        i = i + 1;
    }
    let mut got: usize = 0;
    assert(marks@ =~= Seq::new(n as nat, |i: int| largest(mem, 0).contains(i)));
    while got < r
        invariant
            got <= r <= n == nodes@.len(),
            mem == memories(nodes@),
            marks@ == Seq::new(n as nat, |i: int| largest(mem, got as int).contains(i)),
        decreases r - got,
    {
        let ghost set = largest(mem, got as int);
        let mut best: Option<usize> = None;
        let mut k: usize = 0;
        while k < n
            invariant
                k <= n == nodes@.len(),
                mem == memories(nodes@),
                marks@ == Seq::new(n as nat, |i: int| set.contains(i)),
                best matches Some(b) ==> b < n,
                (match best {
                    Some(b) => Some(b as int),
                    None => None,
                }) == largest_outside(mem, set, k as int),
            decreases n - k,
        {
            let better: bool = match best {
                Some(b) => nodes[k].gpu_memory_available > nodes[b].gpu_memory_available,
                None => true,
            };
            if !marks[k] && better {
                best = Some(k);
            }
            k = k + 1;
        }
        if let Some(b) = best {
            marks.set(b, true);
        }
        assert(marks@ =~= Seq::new(n as nat, |i: int| largest(mem, got + 1).contains(i)));
        got = got + 1;
    }
    marks
}

/// What an equal split gives.
pub open spec fn equally_scheduled(
    nodes: Seq<WorkerCapabilities>,
    c: ModelConfig,
    max_seq_len: usize,
    res: core::result::Result<LayerPlan, ScheduleError>,
) -> bool {
    let counts = equal_counts(nodes, c.num_layers);
    let rooms = rooms_of(nodes, c, max_seq_len);
    match res {
        Ok(p) => {
            &&& forall|i: int| 0 <= i < nodes.len() ==> counts[i] <= rooms[i]
            &&& p.workers@ == nodes
            &&& p.layer_counts@ == counts
            &&& p.excluded@.len() == 0
        },
        // The first node whose share is too large.
        Err(ScheduleError::TooSmall { node_id, layers, max, available_bytes, needed_bytes }) =>
        exists|i: int|
            {
                &&& 0 <= i < nodes.len()
                &&& #[trigger] counts[i] > rooms[i]
                &&& forall|j: int| 0 <= j < i ==> counts[j] <= rooms[j]
                &&& node_id == nodes[i].node_id
                &&& layers == counts[i]
                &&& max == rooms[i]
                &&& available_bytes == nodes[i].gpu_memory_available
                &&& needed_bytes == counts[i] * layer_bytes(c, max_seq_len) + overhead_bytes(
                    i,
                    nodes.len() as int,
                    c,
                )
            },
        Err(_) => false,
    }
}

/// If the equal share of node `i` is too large for it, its size can be computed in `usize`.
pub open spec fn share_can_be_told(
    nodes: Seq<WorkerCapabilities>,
    c: ModelConfig,
    max_seq_len: usize,
    i: int,
) -> bool {
    let count = equal_counts(nodes, c.num_layers)[i];
    count > rooms_of(nodes, c, max_seq_len)[i] ==> count * layer_bytes(c, max_seq_len)
        + overhead_bytes(i, nodes.len() as int, c) <= usize::MAX
}

/// The size of every equal share that is too large can be computed in `usize`.
pub open spec fn shares_can_be_told(
    nodes: Seq<WorkerCapabilities>,
    c: ModelConfig,
    max_seq_len: usize,
) -> bool {
    forall|i: int|
        0 <= i < nodes.len() ==> #[trigger] share_can_be_told(nodes, c, max_seq_len, i)
}

fn schedule_equal(config: &ModelConfig, max_seq_len: usize, nodes: Vec<WorkerCapabilities>) -> (res:
    core::result::Result<LayerPlan, ScheduleError>)
    requires
        nodes@.len() > 0,
        node_sizes_fit(*config, max_seq_len),
        shares_can_be_told(nodes@, *config, max_seq_len),
    ensures
        equally_scheduled(nodes@, *config, max_seq_len, res),
{
    let num_layers: usize = config.num_layers;
    let n: usize = nodes.len();
    let base: usize = num_layers / n;
    let remainder: usize = num_layers % n;
    let ghost counts = equal_counts(nodes@, num_layers);
    proof {
        sizes_are_not_negative(*config, max_seq_len);
        equal_split_is_even(nodes@, num_layers, 0, 0);
        let (x, y, q) = (num_layers as int, n as int, base as int);
        assert(0 <= remainder < n) by (nonlinear_arith)
            requires
                n > 0,
                remainder == num_layers as int % n as int,
        ;
        vstd::arithmetic::div_mod::lemma_fundamental_div_mod(x, y);
        assert(remainder > 0 ==> base < num_layers) by (nonlinear_arith)
            requires
                n > 0,
                num_layers == n * base + remainder,
        ;
        largest_len(memories(nodes@), remainder as int);
    }
    let per_layer: usize = weight_memory_per_layer(config) + cache_memory_per_layer(
        config,
        max_seq_len,
    );
    let rooms = find_rooms(&nodes, config, max_seq_len);
    let marks = mark_largest(&nodes, remainder);
    let mut layer_counts: Vec<usize> = Vec::new();
    let mut i: usize = 0;
    while i < n
        invariant
            i <= n == nodes@.len(),
            marks@ == Seq::new(
                n as nat,
                |i: int| largest(memories(nodes@), remainder as int).contains(i),
            ),
            remainder > 0 ==> base < num_layers,
            remainder == 0 ==> forall|i: int|
                !(#[trigger] largest(memories(nodes@), remainder as int).contains(i)),
            counts == even_counts(memories(nodes@), base, remainder as int),
            layer_counts@ =~= counts.take(i as int),
        decreases n - i,
    {
        if marks[i] {
            assert(largest(memories(nodes@), remainder as int).contains(i as int));
            layer_counts.push(base + 1);
        } else {
            layer_counts.push(base);
        }
        i = i + 1;
    }
    assert(layer_counts@ =~= counts);
    i = 0;
    while i < n
        invariant
            i <= n == nodes@.len(),
            layer_counts@ == counts,
            counts.len() == n,
            counts == equal_counts(nodes@, num_layers),
            num_layers == config.num_layers,
            sum(counts) == num_layers,
            rooms@ == rooms_of(nodes@, *config, max_seq_len),
            per_layer == layer_bytes(*config, max_seq_len),
            node_sizes_fit(*config, max_seq_len),
            shares_can_be_told(nodes@, *config, max_seq_len),
            forall|j: int| 0 <= j < i ==> counts[j] <= rooms@[j],
        decreases n - i,
    {
        if layer_counts[i] > rooms[i] {
            proof {
                sizes_are_not_negative(*config, max_seq_len);
                let (a, c) = (counts[i as int] as int, per_layer as int);
                assert(0 <= a * c) by (nonlinear_arith)
                    requires
                        0 <= a,
                        0 <= c,
                ;
                assert(share_can_be_told(nodes@, *config, max_seq_len, i as int));
            }
            let overhead: usize = role_overhead(i, n, config);
            assert(counts[i as int] > rooms@[i as int]);
            return Err(
                ScheduleError::TooSmall {
                    node_id: nodes[i].node_id.clone(),
                    layers: layer_counts[i],
                    max: rooms[i],
                    available_bytes: nodes[i].gpu_memory_available,
                    needed_bytes: layer_counts[i] * per_layer + overhead,
                },
            );
        }
        i = i + 1;
    }
    Ok(LayerPlan { workers: nodes, layer_counts, excluded: Vec::new() })
}

/// The sizes that scheduling computes fit in `usize`.
pub open spec fn input_fits(input: SchedulerInput) -> bool {
    let nodes = candidates(input);
    let c = input.model_config;
    nodes.len() > 0 ==> node_sizes_fit(c, input.max_seq_len) && match input.mode {
        SchedulingMode::Auto => nodes.len() > 1 ==> model_sizes_fit(c, input.max_seq_len),
        SchedulingMode::EqualSplit => shares_can_be_told(nodes, c, input.max_seq_len),
        SchedulingMode::Manual(_) => true,
    }
}

/// What the scheduler gives.
pub open spec fn scheduled(
    input: SchedulerInput,
    estimates: Seq<Estimate>,
    res: core::result::Result<LayerPlan, ScheduleError>,
) -> bool {
    let nodes = candidates(input);
    let c = input.model_config;
    if nodes.len() == 0 {
        res matches Err(ScheduleError::Refused(e)) && e.is_pipeline(
            "no workers available for scheduling"@,
        )
    } else {
        match input.mode {
            SchedulingMode::Auto => auto_scheduled(nodes, c, input.max_seq_len, estimates, res),
            SchedulingMode::EqualSplit => equally_scheduled(nodes, c, input.max_seq_len, res),
            SchedulingMode::Manual(asked) => manually_scheduled(
                asked@,
                nodes,
                c,
                input.max_seq_len,
                res,
            ),
        }
    }
}

/// Run the scheduler.
///
/// In Auto mode `estimates` are those for the candidates after 0, 1, 2, … of them were
/// taken out with [`drop_slowest`]; the other modes use none.
pub fn schedule(input: &SchedulerInput, estimates: &[Estimate]) -> (res: core::result::Result<
    LayerPlan,
    ScheduleError,
>)
    requires
        input_fits(*input),
        input.mode is Auto ==> estimates_match(candidates(*input).len() as int, estimates@),
    ensures
        scheduled(*input, estimates@, res),
{
    let nodes = merge_candidates(input);
    if nodes.len() == 0 {
        return Err(
            ScheduleError::Refused(
                FractureError::Pipeline("no workers available for scheduling".to_owned()),
            ),
        );
    }
    match &input.mode {
        SchedulingMode::Auto => schedule_auto(
            &input.model_config,
            input.max_seq_len,
            nodes,
            estimates,
        ),
        SchedulingMode::EqualSplit => schedule_equal(&input.model_config, input.max_seq_len, nodes),
        SchedulingMode::Manual(asked) => schedule_manual(
            &input.model_config,
            input.max_seq_len,
            &nodes,
            asked.as_slice(),
        ),
    }
}

/// What was computed for a node and its layers.
#[derive(Debug, Clone, Copy, PartialEq, Eq, Structural)]
pub struct NodeFigures {
    /// Time of its layers, in ms.
    pub decode_ms: Single,
    /// Memory of its weights, in GB.
    pub weight_memory_gb: Single,
    /// Memory of its cache, in GB.
    pub cache_memory_gb: Single,
}

/// The role of node `i` of `n`.
pub open spec fn role_of(i: int, n: int) -> NodeRole {
    if i == 0 {
        NodeRole::Head
    } else if i == n - 1 {
        NodeRole::Tail
    } else {
        NodeRole::Middle
    }
}

/// `a` is what node `i` of the plan gets: the layers that follow those of the nodes before
/// it.
pub open spec fn is_assignment(a: LayerAssignment, p: LayerPlan, f: Seq<NodeFigures>, i: int) -> bool {
    &&& a.node_id == p.workers@[i].node_id
    &&& a.start() == sum(p.layer_counts@.take(i))
    &&& a.end() == sum(p.layer_counts@.take(i + 1))
    &&& a.role == role_of(i, p.workers@.len() as int)
    &&& a.expected_decode_ms == f[i].decode_ms
    &&& a.weight_memory_gb == f[i].weight_memory_gb
    &&& a.cache_memory_gb == f[i].cache_memory_gb
}

/// The one of the first `k` nodes that takes the longest; the last one of several.
pub open spec fn longest(f: Seq<NodeFigures>, k: int) -> int
    decreases k,
{
    if k <= 1 {
        0
    } else {
        let b = longest(f, k - 1);
        if f[k - 1].decode_ms.below(f[b].decode_ms) {
            b
        } else {
            k - 1
        }
    }
}

/// Build the final SchedulerResult from layer counts.
pub fn build_result(
    plan: LayerPlan,
    figures: &[NodeFigures],
    pipeline_decode_ms: Single,
    imbalance_ratio: Single,
) -> (res: SchedulerResult)
    requires
        plan.workers@.len() > 0,
        plan.layer_counts@.len() == plan.workers@.len(),
        figures@.len() == plan.workers@.len(),
        sum(plan.layer_counts@) <= usize::MAX,
    ensures
        res.assignments@.len() == plan.workers@.len(),
        forall|i: int|
            0 <= i < plan.workers@.len() ==> is_assignment(
                #[trigger] res.assignments@[i],
                plan,
                figures@,
                i,
            ),
        res.excluded_nodes == plan.excluded,
        res.pipeline_decode_ms == pipeline_decode_ms,
        res.imbalance_ratio == imbalance_ratio,
        res.bottleneck_node == plan.workers@[longest(
            figures@,
            figures@.len() as int,
        )].node_id,
{
    let n: usize = plan.workers.len();
    let ghost counts = plan.layer_counts@;
    let mut assignments: Vec<LayerAssignment> = Vec::new();
    let mut start: usize = 0;
    let mut bottleneck: usize = 0;
    let mut i: usize = 0;
    assert(counts.take(0) =~= Seq::empty());
    while i < n
        invariant
            i <= n,
            0 < n == plan.workers@.len() == plan.layer_counts@.len() == figures@.len(),
            counts == plan.layer_counts@,
            sum(counts) <= usize::MAX,
            start == sum(counts.take(i as int)),
            assignments@.len() == i,
            forall|j: int|
                0 <= j < i ==> is_assignment(#[trigger] assignments@[j], plan, figures@, j),
            bottleneck < n,
            i > 0 ==> bottleneck < i,
            bottleneck == longest(figures@, i as int),
        decreases n - i,
    {
        proof {
            assert(counts.take(i + 1).drop_last() =~= counts.take(i as int));
            prefix_sum(counts, i + 1);
        }
        let end: usize = start + plan.layer_counts[i];
        let role = if i == 0 {
            NodeRole::Head
        } else if i == n - 1 {
            NodeRole::Tail
        } else {
            NodeRole::Middle
        };
        let f = figures[i];
        let a = LayerAssignment {
            node_id: plan.workers[i].node_id.clone(),
            layer_range: start..end,
            role,
            expected_decode_ms: f.decode_ms,
            weight_memory_gb: f.weight_memory_gb,
            cache_memory_gb: f.cache_memory_gb,
        };
        assert(is_assignment(a, plan, figures@, i as int));
        assignments.push(a);
        if !f.decode_ms.is_below(figures[bottleneck].decode_ms) {
            bottleneck = i;
        }
        start = end;
        i = i + 1;
    }
    let bottleneck_node: String = plan.workers[bottleneck].node_id.clone();
    SchedulerResult {
        assignments,
        excluded_nodes: plan.excluded,
        pipeline_decode_ms,
        imbalance_ratio,
        bottleneck_node,
    }
}

/// The layers of a result lie one after the other and are all those of the plan: the first
/// node begins at layer 0, each node begins where the one before it ends, and the last one
/// ends behind the last layer.
pub proof fn assignments_are_contiguous(
    p: LayerPlan,
    f: Seq<NodeFigures>,
    assignments: Seq<LayerAssignment>,
    i: int,
)
    requires
        p.layer_counts@.len() == p.workers@.len(),
        assignments.len() == p.workers@.len(),
        0 <= i < assignments.len(),
        forall|j: int|
            0 <= j < assignments.len() ==> is_assignment(#[trigger] assignments[j], p, f, j),
    ensures
        assignments[0].start() == 0,
        i > 0 ==> assignments[i].start() == assignments[i - 1].end(),
        assignments[i].end() - assignments[i].start() == p.layer_counts@[i],
        assignments.last().end() == sum(p.layer_counts@),
{
    let counts = p.layer_counts@;
    assert(is_assignment(assignments[0], p, f, 0));
    assert(is_assignment(assignments[i], p, f, i));
    assert(counts.take(0) =~= Seq::empty());
    assert(counts.take(i + 1).drop_last() =~= counts.take(i));
    if i > 0 {
        assert(is_assignment(assignments[i - 1], p, f, i - 1));
    }
    let l = assignments.len() - 1;
    assert(is_assignment(assignments[l], p, f, l));
    assert(counts.take(l + 1) =~= counts);
}

/// The node that is taken out is a slowest one: no node takes longer.
pub proof fn slowest_is_slowest(nodes: Seq<WorkerCapabilities>, k: int, i: int)
    requires
        0 <= i < k <= nodes.len(),
        forall|j: int| 0 <= j < nodes.len() ==> (#[trigger] nodes[j]).calibrated(),
    ensures
        !nodes[slowest_of(nodes, k)].decode_ms_per_layer.below(nodes[i].decode_ms_per_layer),
    decreases k,
{
    if k > 1 {
        slowest_bounds(nodes, k - 1);
        let s = slowest_of(nodes, k - 1);
        assert(nodes[k - 1].calibrated() && nodes[s].calibrated() && nodes[i].calibrated());
        if i < k - 1 {
            slowest_is_slowest(nodes, k - 1, i);
        }
    }
}

/// Pruning keeps enough memory for the model if there was enough: a node is taken out only
/// where the model fits without it, and only where that makes the pipeline faster.
pub proof fn pruning_keeps_memory(
    nodes: Seq<WorkerCapabilities>,
    c: ModelConfig,
    max_seq_len: usize,
    estimates: Seq<Estimate>,
    j: int,
    k: int,
)
    requires
        0 <= j <= k,
        k == prune_count(nodes, c, max_seq_len, estimates, j),
    ensures
        fits(pruned(nodes, j), c, max_seq_len) ==> fits(pruned(nodes, k), c, max_seq_len),
        forall|i: int|
            j <= i < k ==> #[trigger] estimates[i + 1].latency_ms.below(estimates[i].latency_ms),
        j < nodes.len() ==> k < nodes.len(),
    decreases k - j, nodes.len() - j,
{
    if 0 <= j < nodes.len() && better_without(
        pruned(nodes, j),
        c,
        max_seq_len,
        estimates[j],
        estimates[j + 1],
    ) {
        prune_count_grows(nodes, c, max_seq_len, estimates, j + 1);
        pruned_len(nodes, j);
        pruning_keeps_memory(nodes, c, max_seq_len, estimates, j + 1, k);
    }
}

proof fn prune_count_grows(
    nodes: Seq<WorkerCapabilities>,
    c: ModelConfig,
    max_seq_len: usize,
    estimates: Seq<Estimate>,
    j: int,
)
    ensures
        prune_count(nodes, c, max_seq_len, estimates, j) >= j,
    decreases nodes.len() - j,
{
    if 0 <= j < nodes.len() && better_without(
        pruned(nodes, j),
        c,
        max_seq_len,
        estimates[j],
        estimates[j + 1],
    ) {
        prune_count_grows(nodes, c, max_seq_len, estimates, j + 1);
    }
}

} // verus!

//! Which nodes take part in a plan, in which place, and which of them get or lose layers first.
use crate::base::model_config::ModelConfig;
use crate::base::numeric::{below_is_an_order, Single};
use crate::coordinator::counts::{
    fastest_with_room, filled, redistributed, slowest_with_layer, sum, thinned, topped_up, usable,
};
use crate::coordinator::memory::rest_of;
use crate::coordinator::scheduler::{
    candidates, clamped, equal_counts, fits, is_assignment, largest, largest_outside, longest,
    memories, prune_count, pruned, says_excluded, scheduled, slowest, slowest_of, without_slowest,
    Estimate, LayerPlan, NodeFigures, SchedulerInput,
};
use crate::coordinator::worker::{LayerAssignment, NodeRole, WorkerCapabilities};
use vstd::prelude::*;

verus! {

/// The first node of a plan is the head, and it alone. The last one is the tail, unless it is
/// the first one too, and no other is. All others lie between them.
pub proof fn roles_follow_the_places(
    p: LayerPlan,
    f: Seq<NodeFigures>,
    assignments: Seq<LayerAssignment>,
    i: int,
)
    requires
        assignments.len() == p.workers@.len(),
        0 <= i < assignments.len(),
        forall|j: int|
            0 <= j < assignments.len() ==> is_assignment(#[trigger] assignments[j], p, f, j),
    ensures
        assignments[i].role == NodeRole::Head <==> i == 0,
        assignments[i].role == NodeRole::Tail <==> 0 < i && i == assignments.len() - 1,
        assignments[i].role == NodeRole::Middle <==> 0 < i < assignments.len() - 1,
        assignments[i].node_id@ == p.workers@[i].node_id@,
{
    assert(is_assignment(assignments[i], p, f, i));
}

/// The coordinator, if it computes, comes before all workers, and the workers keep their order.
pub proof fn coordinators_come_first(input: SchedulerInput, i: int)
    requires
        0 <= i < input.workers@.len(),
    ensures
        input.coordinator_compute matches Some(w) ==> candidates(input).len()
            == input.workers@.len() + 1 && candidates(input)[0] == w && candidates(input)[i + 1]
            == input.workers@[i],
        input.coordinator_compute is None ==> candidates(input) == input.workers@,
{
    assert(input.coordinator_compute is None ==> candidates(input) =~= input.workers@);
}

/// The bottleneck takes no less time than any other node, and more than every node behind it.
pub proof fn bottlenecks_take_longest(f: Seq<NodeFigures>, k: int, i: int)
    requires
        0 <= i < k <= f.len(),
        forall|j: int| 0 <= j < f.len() ==> !(#[trigger] f[j]).decode_ms.nan(),
    ensures
        0 <= longest(f, k) < k,
        !f[longest(f, k)].decode_ms.below(f[i].decode_ms),
        longest(f, k) < i ==> f[i].decode_ms.below(f[longest(f, k)].decode_ms),
    decreases k,
{
    if k > 1 {
        let b = longest(f, k - 1);
        if i < k - 1 {
            bottlenecks_take_longest(f, k - 1, i);
        } else {
            bottlenecks_take_longest(f, k - 1, 0);
        }
        assert(!f[k - 1].decode_ms.nan() && !f[b].decode_ms.nan() && !f[i].decode_ms.nan());
        below_is_an_order(f[b].decode_ms, f[k - 1].decode_ms, f[i].decode_ms);
        below_is_an_order(f[k - 1].decode_ms, f[b].decode_ms, f[i].decode_ms);
        below_is_an_order(f[k - 1].decode_ms, f[i].decode_ms, f[b].decode_ms);
    }
}

/// The slowest node is one of the nodes.
proof fn slowest_is_one(nodes: Seq<WorkerCapabilities>, k: int)
    requires
        0 < k <= nodes.len(),
    ensures
        0 <= slowest_of(nodes, k) < k,
    decreases k,
{
    if k > 1 {
        slowest_is_one(nodes, k - 1);
    }
}

/// Some of the first `k` nodes that were taken out is `w`.
pub open spec fn taken_out(
    nodes: Seq<WorkerCapabilities>,
    k: int,
    w: WorkerCapabilities,
) -> bool {
    exists|j: int|
        0 <= j < k && #[trigger] pruned(nodes, j).len() > 0 && w == pruned(nodes, j)[slowest(
            pruned(nodes, j),
        )]
}

/// Taking nodes out loses none: each is left or was taken out.
proof fn none_is_lost(nodes: Seq<WorkerCapabilities>, k: int, w: WorkerCapabilities)
    requires
        0 <= k <= nodes.len(),
        nodes.contains(w),
    ensures
        pruned(nodes, k).len() == nodes.len() - k,
        pruned(nodes, k).contains(w) || taken_out(nodes, k, w),
    decreases k,
{
    if k > 0 {
        none_is_lost(nodes, k - 1, w);
        let before = pruned(nodes, k - 1);
        let s = slowest(before);
        slowest_is_one(before, before.len() as int);
        let after = pruned(nodes, k);
        if before.contains(w) {
            let i = before.index_of(w);
            if i < s {
                assert(after[i] == w);
            } else if i > s {
                assert(after[i - 1] == w);
            } else {
                assert(taken_out(nodes, k, w));
            }
        } else {
            let j = choose|j: int|
                0 <= j < k - 1 && #[trigger] pruned(nodes, j).len() > 0 && w == pruned(
                    nodes,
                    j,
                )[slowest(pruned(nodes, j))];
            assert(pruned(nodes, j).len() > 0);
        }
    }
}

/// Every node is in the plan or among those that are said to be left out.
pub proof fn nodes_are_planned_or_excluded(
    input: SchedulerInput,
    estimates: Seq<Estimate>,
    p: LayerPlan,
    w: WorkerCapabilities,
)
    requires
        scheduled(input, estimates, Ok(p)),
        input.mode is Auto,
        candidates(input).contains(w),
    ensures
        p.workers@.len() + p.excluded@.len() == candidates(input).len(),
        p.workers@.contains(w) || exists|j: int|
            0 <= j < p.excluded@.len() && (#[trigger] p.excluded@[j]).node_id@ == w.node_id@,
{
    let nodes = candidates(input);
    let c = input.model_config;
    let k = prune_count(nodes, c, input.max_seq_len, estimates, 0);
    prune_count_is_sound(nodes, c, input.max_seq_len, estimates, 0);
    none_is_lost(nodes, k, w);
    if !p.workers@.contains(w) {
        let j = choose|j: int|
            0 <= j < k && #[trigger] pruned(nodes, j).len() > 0 && w == pruned(nodes, j)[slowest(
                pruned(nodes, j),
            )];
        assert(says_excluded(p.excluded@[j], nodes, estimates, j));
        assert(p.excluded@[j].node_id@ == w.node_id@);
    }
}

/// The number of nodes that are taken out is no more than there are.
proof fn prune_count_is_sound(
    nodes: Seq<WorkerCapabilities>,
    c: ModelConfig,
    max_seq_len: usize,
    estimates: Seq<Estimate>,
    k: int,
)
    requires
        0 <= k <= nodes.len(),
    ensures
        k <= prune_count(nodes, c, max_seq_len, estimates, k) <= nodes.len(),
    decreases nodes.len() - k,
{
    if k < nodes.len() {
        prune_count_is_sound(nodes, c, max_seq_len, estimates, k + 1);
    }
}

/// Nodes are taken out as long as that makes the pipeline faster and the model still fits, and
/// no longer.
pub proof fn pruning_goes_on_while_it_helps(
    nodes: Seq<WorkerCapabilities>,
    c: ModelConfig,
    max_seq_len: usize,
    estimates: Seq<Estimate>,
    j: int,
    k: int,
)
    requires
        0 <= j <= nodes.len(),
        k == prune_count(nodes, c, max_seq_len, estimates, j),
    ensures
        forall|i: int|
            j <= i < k ==> #[trigger] estimates[i + 1].latency_ms.below(estimates[i].latency_ms)
                && pruned(nodes, i).len() > 1 && fits(pruned(nodes, i + 1), c, max_seq_len),
        k < nodes.len() && pruned(nodes, k).len() > 1 && fits(
            pruned(nodes, k + 1),
            c,
            max_seq_len,
        ) ==> !estimates[k + 1].latency_ms.below(estimates[k].latency_ms),
    decreases nodes.len() - j,
{
    if j < k {
        pruning_goes_on_while_it_helps(nodes, c, max_seq_len, estimates, j + 1, k);
        assert forall|i: int| j <= i < k implies #[trigger] estimates[i + 1].latency_ms.below(
            estimates[i].latency_ms,
        ) && pruned(nodes, i).len() > 1 && fits(pruned(nodes, i + 1), c, max_seq_len) by {
            if i == j {
                assert(pruned(nodes, j + 1) == without_slowest(pruned(nodes, j)));
            } else {
                assert(estimates[i + 1].latency_ms.below(estimates[i].latency_ms));
            }
        }
    } else if j < nodes.len() {
        prune_count_is_sound(nodes, c, max_seq_len, estimates, j + 1);
        assert(pruned(nodes, j + 1) == without_slowest(pruned(nodes, j)));
    }
}

/// All speeds are positive numbers below the greatest one.
pub open spec fn all_usable(speeds: Seq<Single>) -> bool {
    forall|i: int| 0 <= i < speeds.len() ==> usable(#[trigger] speeds[i])
}

/// Node `j` gets a layer before node `i`: it is faster, or as fast and named before it.
pub open spec fn comes_first(speeds: Seq<Single>, j: int, i: int) -> bool {
    speeds[i].below(speeds[j]) || (!speeds[j].below(speeds[i]) && j < i)
}

/// Node `j` loses a layer before node `i`: it is slower, or as slow and named before it.
pub open spec fn leaves_first(speeds: Seq<Single>, j: int, i: int) -> bool {
    speeds[j].below(speeds[i]) || (!speeds[i].below(speeds[j]) && j < i)
}

/// A node that is chosen has room, and no node with room comes before it. If none is chosen,
/// none has room.
proof fn chosen_is_fastest(
    counts: Seq<usize>,
    rooms: Seq<usize>,
    speeds: Seq<Single>,
    k: int,
    j: int,
)
    requires
        0 <= k <= counts.len(),
        counts.len() == rooms.len(),
        counts.len() == speeds.len(),
        all_usable(speeds),
        0 <= j < k,
    ensures
        match fastest_with_room(counts, rooms, speeds, k) {
            Some(i) => 0 <= i < k && counts[i] < rooms[i] && (counts[j] < rooms[j]
                ==> !comes_first(speeds, j, i)),
            None => counts[j] >= rooms[j],
        },
    decreases k,
{
    let last = k - 1;
    assert(usable(speeds[last]) && usable(speeds[j]));
    if j < last {
        chosen_is_fastest(counts, rooms, speeds, last, j);
    } else if last > 0 {
        chosen_is_fastest(counts, rooms, speeds, last, 0);
    }
    if let Some(b) = fastest_with_room(counts, rooms, speeds, last) {
        if last > 0 {
            assert(usable(speeds[b]));
        }
    }
}

/// What filling up to `k` layers in does.
proof fn filling(
    counts: Seq<usize>,
    rooms: Seq<usize>,
    speeds: Seq<Single>,
    k: int,
    i: int,
    j: int,
)
    requires
        counts.len() == rooms.len(),
        counts.len() == speeds.len(),
        all_usable(speeds),
        0 <= i < counts.len(),
        0 <= j < counts.len(),
    ensures
        filled(counts, rooms, speeds, k).len() == counts.len(),
        counts[i] <= filled(counts, rooms, speeds, k)[i],
        filled(counts, rooms, speeds, k)[i] > counts[i] ==> filled(counts, rooms, speeds, k)[i]
            <= rooms[i],
        filled(counts, rooms, speeds, k)[i] > counts[i] && comes_first(speeds, j, i) ==> filled(
            counts,
            rooms,
            speeds,
            k,
        )[j] >= rooms[j],
    decreases k,
{
    if k > 0 {
        filling(counts, rooms, speeds, k - 1, i, j);
        filling(counts, rooms, speeds, k - 1, j, i);
        let c = filled(counts, rooms, speeds, k - 1);
        chosen_is_fastest(c, rooms, speeds, c.len() as int, j);
    }
}

/// Missing layers go to the fastest nodes: where a node has got one, every faster node is full,
/// and so is every node that is as fast and named before it.
pub proof fn faster_nodes_are_filled_first(
    counts: Seq<usize>,
    rooms: Seq<usize>,
    speeds: Seq<Single>,
    num_layers: usize,
    i: int,
    j: int,
)
    requires
        counts.len() == rooms.len(),
        counts.len() == speeds.len(),
        all_usable(speeds),
        0 <= i < counts.len(),
        0 <= j < counts.len(),
        topped_up(counts, rooms, speeds, num_layers)[i] > counts[i],
        comes_first(speeds, j, i),
    ensures
        topped_up(counts, rooms, speeds, num_layers)[j] >= rooms[j],
{
    filling(counts, rooms, speeds, rest_of(num_layers as int, sum(counts)), i, j);
}

/// A node that is chosen has a layer, and no node with one leaves before it. If none is chosen,
/// none has one.
proof fn chosen_is_slowest(counts: Seq<usize>, speeds: Seq<Single>, k: int, j: int)
    requires
        0 <= k <= counts.len(),
        counts.len() == speeds.len(),
        all_usable(speeds),
        0 <= j < k,
    ensures
        match slowest_with_layer(counts, speeds, k) {
            Some(i) => 0 <= i < k && counts[i] > 0 && (counts[j] > 0 ==> !leaves_first(
                speeds,
                j,
                i,
            )),
            None => counts[j] == 0,
        },
    decreases k,
{
    let last = k - 1;
    assert(usable(speeds[last]) && usable(speeds[j]));
    if j < last {
        chosen_is_slowest(counts, speeds, last, j);
    } else if last > 0 {
        chosen_is_slowest(counts, speeds, last, 0);
    }
    if let Some(b) = slowest_with_layer(counts, speeds, last) {
        if last > 0 {
            assert(usable(speeds[b]));
        }
    }
}

/// What taking up to `k` layers away does.
proof fn thinning(counts: Seq<usize>, speeds: Seq<Single>, k: int, i: int, j: int)
    requires
        counts.len() == speeds.len(),
        all_usable(speeds),
        0 <= i < counts.len(),
        0 <= j < counts.len(),
    ensures
        thinned(counts, speeds, k).len() == counts.len(),
        thinned(counts, speeds, k)[i] <= counts[i],
        thinned(counts, speeds, k)[i] < counts[i] && leaves_first(speeds, j, i) ==> thinned(
            counts,
            speeds,
            k,
        )[j] == 0,
    decreases k,
{
    if k > 0 {
        thinning(counts, speeds, k - 1, i, j);
        thinning(counts, speeds, k - 1, j, i);
        let c = thinned(counts, speeds, k - 1);
        chosen_is_slowest(c, speeds, c.len() as int, j);
    }
}

/// Surplus layers are taken from the slowest nodes: where a node has lost one, every slower
/// node has none, nor has a node that is as slow and named before it.
pub proof fn slower_nodes_are_emptied_first(
    counts: Seq<usize>,
    rooms: Seq<usize>,
    speeds: Seq<Single>,
    num_layers: usize,
    i: int,
    j: int,
)
    requires
        counts.len() == rooms.len(),
        counts.len() == speeds.len(),
        all_usable(speeds),
        0 <= i < counts.len(),
        0 <= j < counts.len(),
        redistributed(counts, rooms, speeds, num_layers)[i] < topped_up(
            counts,
            rooms,
            speeds,
            num_layers,
        )[i],
        leaves_first(speeds, j, i),
    ensures
        redistributed(counts, rooms, speeds, num_layers)[j] == 0,
{
    let k = rest_of(num_layers as int, sum(counts));
    filling(counts, rooms, speeds, k, i, j);
    let f = topped_up(counts, rooms, speeds, num_layers);
    thinning(f, speeds, rest_of(sum(f), num_layers as int), i, j);
}

/// Of nodes that are as slow as the slowest, the last one is taken out.
pub proof fn last_of_the_slowest_is_taken_out(nodes: Seq<WorkerCapabilities>, k: int, i: int)
    requires
        0 <= i < k <= nodes.len(),
        slowest_of(nodes, k) < i,
    ensures
        nodes[i].decode_ms_per_layer.below(nodes[slowest_of(nodes, k)].decode_ms_per_layer),
    decreases k,
{
    if k > 1 && i < k - 1 {
        last_of_the_slowest_is_taken_out(nodes, k - 1, i);
    }
}

/// A node with more memory, or as much and named before, is chosen first.
proof fn largest_come_first(mem: Seq<usize>, got: Set<int>, k: int, j: int)
    requires
        0 <= j < k <= mem.len(),
        !got.contains(j),
    ensures
        largest_outside(mem, got, k) matches Some(x) && 0 <= x < k && !got.contains(x) && (mem[x]
            > mem[j] || (mem[x] == mem[j] && x <= j)),
    decreases k,
{
    if j < k - 1 {
        largest_come_first(mem, got, k - 1, j);
    } else if let Some(b) = largest_outside(mem, got, k - 1) {
        chosen_is_outside(mem, got, k - 1);
    }
}

proof fn chosen_is_outside(mem: Seq<usize>, got: Set<int>, k: int)
    requires
        0 <= k <= mem.len(),
    ensures
        largest_outside(mem, got, k) matches Some(x) ==> 0 <= x < k && !got.contains(x),
    decreases k,
{
    if k > 0 {
        chosen_is_outside(mem, got, k - 1);
    }
}

proof fn chosen_are_largest(mem: Seq<usize>, r: int, i: int, j: int)
    requires
        largest(mem, r).contains(i),
        0 <= j < mem.len(),
        !largest(mem, r).contains(j),
    ensures
        0 <= i < mem.len(),
        mem[i] > mem[j] || (mem[i] == mem[j] && i < j),
    decreases r,
{
    if r > 0 {
        let got = largest(mem, r - 1);
        chosen_is_outside(mem, got, mem.len() as int);
        if got.contains(i) {
            chosen_are_largest(mem, r - 1, i, j);
        } else {
            largest_come_first(mem, got, mem.len() as int, j);
        }
    }
}

/// In an equal split, of nodes with as much memory those that are named first get the extra
/// layers.
pub proof fn extra_layers_go_to_the_first(
    nodes: Seq<WorkerCapabilities>,
    num_layers: usize,
    i: int,
    j: int,
)
    requires
        0 <= i < nodes.len(),
        0 <= j < nodes.len(),
        equal_counts(nodes, num_layers)[i] > equal_counts(nodes, num_layers)[j],
        nodes[i].gpu_memory_available == nodes[j].gpu_memory_available,
    ensures
        i < j,
{
    let n = nodes.len() as int;
    let q = num_layers as int / n;
    let r = num_layers as int % n;
    let mem = memories(nodes);
    vstd::arithmetic::div_mod::lemma_fundamental_div_mod(num_layers as int, n);
    assert(0 <= r < n && 0 <= q <= num_layers && (r > 0 ==> q < num_layers)) by (nonlinear_arith)
        requires
            n > 0,
            q == num_layers as int / n,
            r == num_layers as int % n,
            num_layers == n * q + r,
    ;
    if r == 0 {
        assert(largest(mem, 0) == Set::<int>::empty());
    } else {
        chosen_are_largest(mem, r, i, j);
    }
}

/// A share that is clamped is the share or the room of the node, whichever is less.
pub proof fn clamped_shares_fit(shares: Seq<usize>, rooms: Seq<usize>, i: int)
    requires
        shares.len() == rooms.len(),
        0 <= i < rooms.len(),
    ensures
        clamped(shares, rooms).len() == rooms.len(),
        clamped(shares, rooms)[i] <= shares[i],
        clamped(shares, rooms)[i] <= rooms[i],
        clamped(shares, rooms)[i] == shares[i] || clamped(shares, rooms)[i] == rooms[i],
{
}

} // verus!

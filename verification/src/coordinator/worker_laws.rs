//! What holds of a worker through the calls that change its state.
use crate::base::model_config::ModelConfig;
use crate::base::numeric::Single;
use crate::coordinator::heartbeat::{missed_by, HeartbeatAckPayload, HeartbeatTracker};
use crate::coordinator::rebalance::{is_ack, remaining, RegisterAckPayload};
use crate::coordinator::registry::{serving_of, PeerRegistry, WorkerEntry, WorkerStatus};
use crate::coordinator::worker::{LayerAssignment, WorkerCapabilities};
use vstd::prelude::*;

verus! {

/// A worker serves from when it is given layers until it is marked otherwise. One that never
/// got layers does not serve, whatever its status.
pub proof fn workers_serve_from_assignment_on<C>(
    e: WorkerEntry<C>,
    a: LayerAssignment,
    status: WorkerStatus,
)
    ensures
        (WorkerEntry { assignment: Some(a), status: WorkerStatus::Ready, ..e }).serving(),
        status != WorkerStatus::Ready ==> !(WorkerEntry { status, ..e }).serving(),
        !(WorkerEntry { assignment: None, ..e }).serving(),
        e.serving() ==> e.alive(),
        (WorkerEntry { assignment: Some(a), ..e }).first_layer() == a.layer_range.start,
{
}

/// A worker is alive in every status but one.
pub proof fn only_dead_workers_are_not_alive<C>(e: WorkerEntry<C>)
    ensures
        (WorkerEntry { status: WorkerStatus::Connected, ..e }).alive(),
        (WorkerEntry { status: WorkerStatus::Ready, ..e }).alive(),
        (WorkerEntry { status: WorkerStatus::Draining, ..e }).alive(),
        (WorkerEntry { status: WorkerStatus::Pending, ..e }).alive(),
        !(WorkerEntry { status: WorkerStatus::Dead, ..e }).alive(),
{
}

/// A mark changes the status of the worker that it names, and nothing else of it or of any
/// other worker.
pub proof fn marks_change_one_status<C>(
    peers: Map<Seq<char>, WorkerEntry<C>>,
    id: Seq<char>,
    status: WorkerStatus,
    other: Seq<char>,
)
    ensures
        ({
            let after = PeerRegistry::<C>::with_status(peers, id, status);
            &&& after.dom() == peers.dom()
            &&& peers.contains_key(other) && other != id ==> after[other] == peers[other]
            &&& peers.contains_key(id) ==> {
                &&& after[id].status == status
                &&& after[id].capabilities == peers[id].capabilities
                &&& after[id].connection == peers[id].connection
                &&& after[id].assignment == peers[id].assignment
                &&& after[id].last_heartbeat == peers[id].last_heartbeat
                &&& after[id].free_blocks == peers[id].free_blocks
                &&& after[id].gpu_memory_used == peers[id].gpu_memory_used
            }
        }),
{
    assert(PeerRegistry::<C>::with_status(peers, id, status).dom() =~= peers.dom());
}

/// A worker that serves is late from just after its time is over, and stays so until it is heard
/// of again. One that was heard of just now is not late, and one that does not serve never is.
pub proof fn silent_workers_become_late<C>(
    e: WorkerEntry<C>,
    now_ms: u64,
    later_ms: u64,
    timeout_ms: u64,
)
    requires
        now_ms <= later_ms,
    ensures
        e.serving() && e.last_heartbeat + timeout_ms < now_ms ==> e.late(now_ms, timeout_ms),
        now_ms <= e.last_heartbeat + timeout_ms ==> !e.late(now_ms, timeout_ms),
        e.late(now_ms, timeout_ms) ==> e.late(later_ms, timeout_ms),
        !(WorkerEntry { last_heartbeat: now_ms, ..e }).late(now_ms, timeout_ms),
        !e.serving() ==> !e.late(now_ms, timeout_ms),
{
}

/// An answer to the heartbeat that was sent last is taken from every worker that is alive.
pub proof fn right_answers_are_taken<C>(
    tracker: HeartbeatTracker,
    peers: Map<Seq<char>, WorkerEntry<C>>,
    id: Seq<char>,
    ack: HeartbeatAckPayload,
)
    requires
        peers.contains_key(id),
        peers[id].status != WorkerStatus::Dead,
        tracker.pending() matches Some(n) && n == ack.nonce_echo,
    ensures
        tracker.accepts(peers, id, ack),
{
}

/// An answer is taken from no worker that is not known, and none is taken while no heartbeat is
/// out.
pub proof fn strangers_are_not_heard<C>(
    tracker: HeartbeatTracker,
    peers: Map<Seq<char>, WorkerEntry<C>>,
    id: Seq<char>,
    ack: HeartbeatAckPayload,
)
    ensures
        !peers.contains_key(id) ==> !tracker.accepts(peers, id, ack),
        tracker.pending() is None ==> !tracker.accepts(peers, id, ack),
{
}

/// A worker that has just answered counts as having missed none, whatever it missed before.
pub proof fn answers_end_the_count(
    missed: Map<Seq<char>, usize>,
    id: Seq<char>,
    other: Seq<char>,
)
    ensures
        missed_by(missed.insert(id, 0), id) == 0,
        other != id ==> missed_by(missed.insert(id, 0), other) == missed_by(missed, other),
        missed_by(Map::empty(), id) == 0,
{
}

/// What a worker is told are its own layers and the sizes of the model, where they have 32 bits.
pub proof fn workers_are_told_their_layers(
    ack: RegisterAckPayload,
    a: LayerAssignment,
    c: ModelConfig,
    max_seq_len: usize,
)
    requires
        is_ack(ack, a, c, max_seq_len),
        a.layer_range.start <= u32::MAX,
        a.layer_range.end <= u32::MAX,
        c.num_layers <= u32::MAX,
        max_seq_len <= u32::MAX,
    ensures
        ack.layer_start == a.layer_range.start,
        ack.layer_end == a.layer_range.end,
        ack.total_layers == c.num_layers,
        ack.max_seq_len == max_seq_len,
        ack.model_config == c,
{
}

/// Times of a worker are taken as plausible where the decode time is a positive number below
/// the bound, and the prefill time is not negative. A shorter positive decode time is as
/// plausible as a longer one.
pub proof fn shorter_times_are_plausible(
    w: WorkerCapabilities,
    shorter: Single,
    zero: Single,
)
    requires
        w.calibrated(),
        zero.bits == 0,
        zero.below(shorter),
        !w.decode_ms_per_layer.below(shorter),
    ensures
        zero.below(w.decode_ms_per_layer),
        w.decode_ms_per_layer.finite(),
        !w.prefill_ms_per_layer_128.below(zero),
        (WorkerCapabilities { decode_ms_per_layer: shorter, ..w }).calibrated(),
{
}

/// The workers that are left of some are those that are not left out, each as often and in the
/// order in which they were given.
pub proof fn the_others_keep_their_order(
    caps: Seq<WorkerCapabilities>,
    skip: Seq<String>,
    k: int,
)
    requires
        0 <= k <= caps.len(),
    ensures
        remaining(caps, skip, k) == caps.take(k).filter(
            |w: WorkerCapabilities|
                forall|i: int| 0 <= i < skip.len() ==> (#[trigger] skip[i])@ != w.node_id@,
        ),
    decreases k,
{
    reveal(Seq::filter);
    if k > 0 {
        the_others_keep_their_order(caps, skip, k - 1);
        assert(caps.take(k).drop_last() =~= caps.take(k - 1));
        assert(caps.take(k).last() == caps[k - 1]);
    } else {
        assert(caps.take(0) =~= Seq::empty());
    }
}

/// The least number of free blocks is no more than any worker that serves has, and one of them
/// has just so many. Where none serves it is zero.
pub proof fn least_is_least<C>(r: PeerRegistry<C>, n: u32, id: Seq<char>)
    requires
        r.wf(),
        r.is_least_free(n),
    ensures
        r.peers().contains_key(id) && r.peers()[id].serving() ==> n <= r.peers()[id].free_blocks,
        (exists|x: Seq<char>| #[trigger] r.peers().contains_key(x) && r.peers()[x].serving())
            ==> exists|x: Seq<char>| #[trigger]
            r.peers().contains_key(x) && r.peers()[x].serving() && r.peers()[x].free_blocks == n,
        (forall|x: Seq<char>| #[trigger] r.peers().contains_key(x) ==> !r.peers()[x].serving())
            ==> n == 0,
{
    let s = serving_of(r.entries());
    if r.peers().contains_key(id) && r.peers()[id].serving() {
        r.readers_see_every_worker(id, 0, 0);
        let i = s.index_of(r.peers()[id]);
        assert(n <= s[i].free_blocks);
    }
    if s.len() > 0 {
        let i = choose|i: int| 0 <= i < s.len() && n == (#[trigger] s[i]).free_blocks;
        assert(s.contains(s[i]));
        r.readers_see_only_workers(s[i], 0, 0);
        let x = choose|x: Seq<char>| #[trigger]
            r.peers().contains_key(x) && r.peers()[x] == s[i];
        r.readers_see_every_worker(x, 0, 0);
        assert(r.peers().contains_key(x) && r.peers()[x].serving());
    } else if exists|x: Seq<char>| #[trigger]
        r.peers().contains_key(x) && r.peers()[x].serving() {
        let x = choose|x: Seq<char>| #[trigger]
            r.peers().contains_key(x) && r.peers()[x].serving();
        r.readers_see_every_worker(x, 0, 0);
        assert(s.contains(r.peers()[x]));
    }
}

} // verus!

//! Heartbeat protocol for worker health monitoring.
//!
//! The coordinator sends Heartbeat messages to all workers every `interval`
//! and expects HeartbeatAck responses. Workers that miss `max_missed`
//! consecutive heartbeats are marked as dead.
use crate::base::table::TextTable;
use crate::coordinator::registry::{by_layers, serving_of, PeerRegistry, WorkerEntry, WorkerStatus};
use vstd::prelude::*;

verus! {

/// Default heartbeat interval, in seconds.
pub const DEFAULT_INTERVAL: u64 = 5;

/// Default number of missed heartbeats before marking a worker dead.
pub const DEFAULT_MAX_MISSED: usize = 3;

/// `rand::random::<u64>`: a number drawn by chance, of which nothing is known. That it was
/// drawn is [`drawn`].
#[verifier::external_body]
fn random_nonce() -> u64 {
    rand::random::<u64>()
}

/// The number was drawn by chance.
pub closed spec fn drawn(nonce: u64) -> bool {
    call_ensures(random_nonce, (), nonce)
}

/// What a heartbeat says.
#[derive(Debug, Clone, Copy, PartialEq, Eq, Structural)]
pub struct HeartbeatPayload {
    pub timestamp_ns: u64,
    pub nonce: u64,
}

/// What a worker answers to a heartbeat.
#[derive(Debug, Clone, Copy, PartialEq, Eq, Structural)]
pub struct HeartbeatAckPayload {
    pub timestamp_echo: u64,
    pub nonce_echo: u64,
    pub gpu_memory_used: u64,
    pub active_sequences: u32,
    pub free_blocks: u32,
}

/// The missed heartbeats of a worker.
pub open spec fn missed_by(missed: Map<Seq<char>, usize>, id: Seq<char>) -> usize {
    if missed.contains_key(id) {
        missed[id]
    } else {
        0
    }
}

/// The counters after the first `k` of these workers missed a heartbeat.
pub open spec fn missed_after(missed: Map<Seq<char>, usize>, ids: Seq<String>, k: int) -> Map<
    Seq<char>,
    usize,
>
    decreases k,
{
    if k <= 0 {
        missed
    } else {
        let m = missed_after(missed, ids, k - 1);
        m.insert(ids[k - 1]@, (missed_by(m, ids[k - 1]@) + 1) as usize)
    }
}

/// Those of the first `k` workers whose counter has reached `max_missed`.
pub open spec fn timed_out(
    missed: Map<Seq<char>, usize>,
    ids: Seq<String>,
    max_missed: usize,
    k: int,
) -> Seq<String>
    decreases k,
{
    if k <= 0 {
        Seq::empty()
    } else {
        let rest = timed_out(missed, ids, max_missed, k - 1);
        if missed_by(missed_after(missed, ids, k), ids[k - 1]@) >= max_missed {
            rest.push(ids[k - 1])
        } else {
            rest
        }
    }
}

/// Tracks pending nonces for heartbeat ack validation.
///
/// Each heartbeat round sends a unique nonce to all workers. When
/// processing acks, only a matching nonce resets the heartbeat timer.
pub struct HeartbeatTracker {
    /// The nonce sent in the most recent heartbeat round.
    pending_nonce: Option<u64>,
    /// Per-worker missed-heartbeat counters.
    missed_counts: TextTable<usize>,
}

impl Default for HeartbeatTracker {
    fn default() -> (res: Self)
        ensures
            res.wf(),
            res.pending() is None,
            res.missed() == Map::<Seq<char>, usize>::empty(),
    {
        HeartbeatTracker::new()
    }
}

impl HeartbeatTracker {
    /// The nonce of the last round.
    pub closed spec fn pending(&self) -> Option<u64> {
        self.pending_nonce
    }

    /// The counters.
    pub closed spec fn missed(&self) -> Map<Seq<char>, usize> {
        self.missed_counts.map()
    }

    /// Each worker has one counter at most.
    pub closed spec fn wf(&self) -> bool {
        self.missed_counts.wf()
    }

    pub fn new() -> (res: Self)
        ensures
            res.wf(),
            res.pending() is None,
            res.missed() == Map::<Seq<char>, usize>::empty(),
    {
        HeartbeatTracker { pending_nonce: None, missed_counts: TextTable::new() }
    }

    /// Get the current pending nonce (if any).
    pub fn pending_nonce(&self) -> (res: Option<u64>)
        ensures
            res == self.pending(),
    {
        self.pending_nonce
    }

    /// Get the missed-heartbeat count for a worker.
    pub fn missed_count(&self, node_id: &str) -> (res: usize)
        requires
            self.wf(),
        ensures
            res == missed_by(self.missed(), node_id@),
    {
        match self.missed_counts.get(node_id) {
            Some(n) => *n,
            None => 0,
        }
    }

    /// Record the nonce sent in a heartbeat round.
    pub fn set_pending_nonce(&mut self, nonce: u64)
        ensures
            final(self).pending() == Some(nonce),
            final(self).missed() == old(self).missed(),
            final(self).wf() == old(self).wf(),
    {
        self.pending_nonce = Some(nonce);
    }

    /// The ack is valid: it comes from a worker that has not been given up, and it echoes
    /// the nonce of the last round.
    pub open spec fn accepts<C>(
        self,
        peers: Map<Seq<char>, WorkerEntry<C>>,
        id: Seq<char>,
        ack: HeartbeatAckPayload,
    ) -> bool {
        &&& peers.contains_key(id)
        &&& peers[id].alive()
        &&& self.pending() == Some(ack.nonce_echo)
    }

    /// Process a HeartbeatAck from a worker.
    ///
    /// Returns `true` if the ack was valid (matching nonce and worker is
    /// not Dead), `false` otherwise.
    ///
    /// A valid ack resets the worker's missed-heartbeat counter to zero
    /// and updates the heartbeat timestamp in the registry.
    ///
    /// Invalid cases (returns false):
    /// - Worker is Dead
    /// - Nonce does not match the pending nonce
    /// - No pending nonce (no heartbeat was sent)
    /// - Worker not found in registry
    pub fn process_ack<C>(
        &mut self,
        registry: &mut PeerRegistry<C>,
        node_id: &str,
        ack: &HeartbeatAckPayload,
        now_ms: u64,
    ) -> (res: bool)
        requires
            old(self).wf(),
            old(registry).wf(),
        ensures
            final(self).wf(),
            final(registry).wf(),
            final(registry).ids() == old(registry).ids(),
            final(self).pending() == old(self).pending(),
            res == old(self).accepts(old(registry).peers(), node_id@, *ack),
            res ==> final(self).missed() == old(self).missed().insert(node_id@, 0)
                && final(registry).peers() == old(registry).peers().insert(
                node_id@,
                WorkerEntry {
                    last_heartbeat: now_ms,
                    free_blocks: ack.free_blocks,
                    gpu_memory_used: ack.gpu_memory_used,
                    ..old(registry).peers()[node_id@]
                },
            ),
            !res ==> final(self).missed() == old(self).missed() && final(registry).peers() == old(
                registry,
            ).peers(),
    {
        match registry.get(node_id) {
            Some(e) => {
                if e.status == WorkerStatus::Dead {
                    return false;
                }
            },
            None => {
                return false;
            },
        }
        match self.pending_nonce {
            Some(n) => {
                if ack.nonce_echo != n {
                    return false;
                }
            },
            None => {
                return false;
            },
        }
        self.missed_counts.insert(node_id.to_owned(), 0);
        registry.record_heartbeat(node_id, ack.free_blocks, ack.gpu_memory_used, now_ms);
        true
    }

    /// Increment missed counters for workers that did not ack.
    /// Returns node IDs of workers that have exceeded `max_missed`.
    pub fn increment_missed(&mut self, ready_node_ids: &[String], max_missed: usize) -> (res: Vec<
        String,
    >)
        requires
            old(self).wf(),
            forall|id: Seq<char>|
                #[trigger] missed_by(old(self).missed(), id) + ready_node_ids@.len() <= usize::MAX,
        ensures
            final(self).wf(),
            final(self).pending() == old(self).pending(),
            final(self).missed() == missed_after(
                old(self).missed(),
                ready_node_ids@,
                ready_node_ids@.len() as int,
            ),
            res@ == timed_out(
                old(self).missed(),
                ready_node_ids@,
                max_missed,
                ready_node_ids@.len() as int,
            ),
    {
        let ghost before = self.missed();
        let mut late: Vec<String> = Vec::new();
        let mut i: usize = 0;
        while i < ready_node_ids.len()
            invariant
                i <= ready_node_ids@.len(),
                self.wf(),
                self.pending() == old(self).pending(),
                before == old(self).missed(),
                forall|id: Seq<char>|
                    #[trigger] missed_by(before, id) + ready_node_ids@.len() <= usize::MAX,
                self.missed() == missed_after(before, ready_node_ids@, i as int),
                late@ == timed_out(before, ready_node_ids@, max_missed, i as int),
            decreases ready_node_ids@.len() - i,
        {
            let id = &ready_node_ids[i];
            proof {
                missed_bounds(before, ready_node_ids@, i as int, id@);
            }
            let n: usize = self.missed_count(id.as_str()) + 1;
            self.missed_counts.insert(id.clone(), n);
            if n >= max_missed {
                late.push(id.clone());
            }
            i = i + 1;
        }
        late
    }
}

/// A counter grows by at most one for each worker that is counted.
proof fn missed_bounds(
    missed: Map<Seq<char>, usize>,
    ids: Seq<String>,
    k: int,
    id: Seq<char>,
)
    requires
        0 <= k <= ids.len(),
        forall|x: Seq<char>| #[trigger] missed_by(missed, x) + ids.len() <= usize::MAX,
    ensures
        missed_by(missed_after(missed, ids, k), id) <= missed_by(missed, id) + k,
    decreases k,
{
    if k > 0 {
        missed_bounds(missed, ids, k - 1, id);
        missed_bounds(missed, ids, k - 1, ids[k - 1]@);
    }
}

/// The heartbeat of a round and the workers that it goes to: those that take part in the
/// pipeline, in its order. Its nonce is drawn by chance.
pub fn plan_heartbeats<C>(registry: &PeerRegistry<C>, timestamp_ns: u64) -> (res: (
    HeartbeatPayload,
    Vec<String>,
))
    requires
        registry.wf(),
    ensures
        res.0.timestamp_ns == timestamp_ns,
        drawn(res.0.nonce),
        res.1@ == by_layers(serving_of(registry.entries())).map_values(
            |e: WorkerEntry<C>| e.capabilities.node_id,
        ),
{
    let nonce: u64 = random_nonce();
    (HeartbeatPayload { timestamp_ns, nonce }, registry.pipeline_order())
}

/// The workers after the first `k` of these were given up.
pub open spec fn given_up<C>(
    peers: Map<Seq<char>, WorkerEntry<C>>,
    ids: Seq<String>,
    k: int,
) -> Map<Seq<char>, WorkerEntry<C>>
    decreases k,
{
    if k <= 0 {
        peers
    } else {
        PeerRegistry::<C>::with_status(
            given_up(peers, ids, k - 1),
            ids[k - 1]@,
            WorkerStatus::Dead,
        )
    }
}

/// Mark timed-out workers as dead in the registry.
pub fn mark_dead_workers<C>(registry: &mut PeerRegistry<C>, timed_out: &[String])
    requires
        old(registry).wf(),
    ensures
        final(registry).wf(),
        final(registry).ids() == old(registry).ids(),
        final(registry).peers() == given_up(
            old(registry).peers(),
            timed_out@,
            timed_out@.len() as int,
        ),
{
    let mut i: usize = 0;
    while i < timed_out.len()
        invariant
            i <= timed_out@.len(),
            registry.wf(),
            registry.ids() == old(registry).ids(),
            registry.peers() == given_up(old(registry).peers(), timed_out@, i as int),
        decreases timed_out@.len() - i,
    {
        registry.mark_dead(timed_out[i].as_str());
        i = i + 1;
    }
}

/// The ack of a dead worker, or one with another nonce, is not accepted: acks do not bring
/// a dead worker back.
pub proof fn dead_workers_stay_dead<C>(
    tracker: HeartbeatTracker,
    peers: Map<Seq<char>, WorkerEntry<C>>,
    id: Seq<char>,
    ack: HeartbeatAckPayload,
)
    requires
        peers.contains_key(id),
        !peers[id].alive() || tracker.pending() != Some(ack.nonce_echo),
    ensures
        !tracker.accepts(peers, id, ack),
{
}

/// A worker that is given up is dead; the others are as they were.
pub proof fn timed_out_workers_are_dead<C>(
    peers: Map<Seq<char>, WorkerEntry<C>>,
    ids: Seq<String>,
    k: int,
    id: Seq<char>,
)
    requires
        0 <= k <= ids.len(),
        peers.contains_key(id),
    ensures
        given_up(peers, ids, k).contains_key(id),
        (exists|i: int| 0 <= i < k && (#[trigger] ids[i])@ == id) ==> !given_up(
            peers,
            ids,
            k,
        )[id].alive(),
        (forall|i: int| 0 <= i < k ==> (#[trigger] ids[i])@ != id) ==> given_up(peers, ids, k)[id]
            == peers[id],
    decreases k,
{
    if k > 0 {
        timed_out_workers_are_dead(peers, ids, k - 1, id);
    }
}

/// How often a worker is among the first `k` of these.
pub open spec fn times_among(ids: Seq<String>, k: int, id: Seq<char>) -> int
    decreases k,
{
    if k <= 0 {
        0
    } else {
        times_among(ids, k - 1, id) + if ids[k - 1]@ == id {
            1int
        } else {
            0
        }
    }
}

/// The worker is one of these.
pub open spec fn is_among(ids: Seq<String>, id: Seq<char>) -> bool {
    exists|i: int| 0 <= i < ids.len() && (#[trigger] ids[i])@ == id
}

/// A worker's counter grows by one each time that it is counted, and those of the others
/// stay.
pub proof fn missed_heartbeats_are_counted(
    missed: Map<Seq<char>, usize>,
    ids: Seq<String>,
    k: int,
    id: Seq<char>,
)
    requires
        0 <= k <= ids.len(),
        missed_by(missed, id) + ids.len() <= usize::MAX,
    ensures
        missed_by(missed_after(missed, ids, k), id) == missed_by(missed, id) + times_among(
            ids,
            k,
            id,
        ),
        0 <= times_among(ids, k, id) <= k,
    decreases k,
{
    if k > 0 {
        missed_heartbeats_are_counted(missed, ids, k - 1, id);
    }
}

/// A worker that is counted once is reported just if it has now missed as many heartbeats
/// as are allowed; one that is not counted is not reported.
pub proof fn timeouts_are_exact(
    missed: Map<Seq<char>, usize>,
    ids: Seq<String>,
    max_missed: usize,
    k: int,
    id: Seq<char>,
)
    requires
        0 <= k <= ids.len(),
        missed_by(missed, id) + ids.len() <= usize::MAX,
        times_among(ids, k, id) <= 1,
    ensures
        is_among(timed_out(missed, ids, max_missed, k), id) <==> times_among(ids, k, id) == 1
            && missed_by(missed, id) + 1 >= max_missed,
    decreases k,
{
    if k > 0 {
        missed_heartbeats_are_counted(missed, ids, k - 1, id);
        missed_heartbeats_are_counted(missed, ids, k, id);
        timeouts_are_exact(missed, ids, max_missed, k - 1, id);
        let rest = timed_out(missed, ids, max_missed, k - 1);
        let all = timed_out(missed, ids, max_missed, k);
        if is_among(rest, id) {
            let i = choose|i: int| 0 <= i < rest.len() && (#[trigger] rest[i])@ == id;
            assert(all[i]@ == id);
        }
        if is_among(all, id) {
            let i = choose|i: int| 0 <= i < all.len() && (#[trigger] all[i])@ == id;
            if i < rest.len() {
                assert(rest[i]@ == id);
            }
        }
        if ids[k - 1]@ == id && missed_by(missed, id) + 1 >= max_missed {
            assert(all[rest.len() as int]@ == id);
        }
    }
}

/// The counters after the first `n` rounds, in each of which these workers did not answer.
pub open spec fn missed_rounds(
    missed: Map<Seq<char>, usize>,
    rounds: Seq<Seq<String>>,
    n: int,
) -> Map<Seq<char>, usize>
    decreases n,
{
    if n <= 0 {
        missed
    } else {
        let ids = rounds[n - 1];
        missed_after(missed_rounds(missed, rounds, n - 1), ids, ids.len() as int)
    }
}

/// A worker that has missed no heartbeat and then does not answer is reported in the round
/// in which it has missed `max_missed` in a row, and not before.
pub proof fn silent_workers_time_out(
    missed: Map<Seq<char>, usize>,
    rounds: Seq<Seq<String>>,
    n: int,
    max_missed: usize,
    id: Seq<char>,
)
    requires
        0 < n <= rounds.len(),
        missed_by(missed, id) == 0,
        forall|r: int|
            0 <= r < n ==> times_among(#[trigger] rounds[r], rounds[r].len() as int, id) == 1 && n
                + rounds[r].len() <= usize::MAX,
    ensures
        missed_by(missed_rounds(missed, rounds, n), id) == n,
        is_among(
            timed_out(
                missed_rounds(missed, rounds, n - 1),
                rounds[n - 1],
                max_missed,
                rounds[n - 1].len() as int,
            ),
            id,
        ) <==> n >= max_missed,
    decreases n,
{
    let ids = rounds[n - 1];
    let before = missed_rounds(missed, rounds, n - 1);
    if n > 1 {
        silent_workers_time_out(missed, rounds, n - 1, max_missed, id);
    }
    assert(missed_by(before, id) == n - 1);
    missed_heartbeats_are_counted(before, ids, ids.len() as int, id);
    timeouts_are_exact(before, ids, max_missed, ids.len() as int, id);
}

} // verus!

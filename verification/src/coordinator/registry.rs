//! Peer registry: tracks connected workers, their capabilities,
//! layer assignments, health state, and connection handles.
use crate::base::error::{FractureError, Result};
use crate::base::table::TextTable;
use crate::coordinator::worker::{LayerAssignment, WorkerCapabilities};
use vstd::prelude::*;
use vstd::string::StringExecFns;

verus! {

/// Health status of a worker.
#[derive(Debug, Clone, Copy, PartialEq, Eq, Structural)]
pub enum WorkerStatus {
    /// Connected but not yet assigned layers.
    Connected,
    /// Assigned layers and ready to serve.
    Ready,
    /// Missed too many heartbeats.
    Dead,
    /// About to leave: takes no more work, but can be scheduled anew.
    Draining,
    /// Joined, and waits for layers.
    Pending,
}

/// A registered worker and its associated state. `C` is its connection.
pub struct WorkerEntry<C> {
    pub capabilities: WorkerCapabilities,
    pub connection: C,
    pub assignment: Option<LayerAssignment>,
    /// When the worker was last heard of, in ms.
    pub last_heartbeat: u64,
    pub status: WorkerStatus,
    /// Free blocks in this worker's paged KV cache pool (from heartbeat ack).
    pub free_blocks: u32,
    /// GPU memory used in bytes (from heartbeat ack).
    pub gpu_memory_used: u64,
}

impl<C> WorkerEntry<C> {
    /// The worker takes part in the pipeline.
    pub open spec fn serving(self) -> bool {
        self.status == WorkerStatus::Ready && self.assignment is Some
    }

    /// The worker has not been given up.
    pub open spec fn alive(self) -> bool {
        self.status != WorkerStatus::Dead
    }

    /// The first layer of the worker.
    pub open spec fn first_layer(self) -> usize {
        self.assignment->0.start()
    }

    fn is_serving(&self) -> (res: bool)
        ensures
            res == self.serving(),
    {
        self.status == WorkerStatus::Ready && self.assignment.is_some()
    }

    /// The worker is in the pipeline and was not heard of for longer than `timeout_ms`.
    pub open spec fn late(self, now_ms: u64, timeout_ms: u64) -> bool {
        self.serving() && now_ms - self.last_heartbeat > timeout_ms
    }

    fn layer_start(&self) -> (res: usize)
        requires
            self.assignment is Some,
        ensures
            res == self.first_layer(),
    {
        match &self.assignment {
            Some(a) => a.layer_range.start,
            None => 0,
        }
    }
}

/// A worker among others by their first layers: behind all that do not begin later.
pub open spec fn placed<C>(s: Seq<WorkerEntry<C>>, e: WorkerEntry<C>) -> Seq<WorkerEntry<C>>
    decreases s.len(),
{
    if s.len() > 0 && s.last().first_layer() > e.first_layer() {
        placed(s.drop_last(), e).push(s.last())
    } else {
        s.push(e)
    }
}

/// Workers in the order of their first layers.
pub open spec fn by_layers<C>(s: Seq<WorkerEntry<C>>) -> Seq<WorkerEntry<C>>
    decreases s.len(),
{
    if s.len() == 0 {
        s
    } else {
        placed(by_layers(s.drop_last()), s.last())
    }
}

/// Those of the workers that take part in the pipeline.
pub open spec fn serving_of<C>(s: Seq<WorkerEntry<C>>) -> Seq<WorkerEntry<C>> {
    s.filter(|e: WorkerEntry<C>| e.serving())
}

/// Those of the workers that have not been given up.
pub open spec fn alive_of<C>(s: Seq<WorkerEntry<C>>) -> Seq<WorkerEntry<C>> {
    s.filter(|e: WorkerEntry<C>| e.alive())
}

/// Those of the workers that wait for a place in the pipeline.
pub open spec fn pending_of<C>(s: Seq<WorkerEntry<C>>) -> Seq<WorkerEntry<C>> {
    s.filter(|e: WorkerEntry<C>| e.status == WorkerStatus::Pending)
}

/// Those of the workers in the pipeline that were not heard of for longer than `timeout_ms`.
pub open spec fn late_of<C>(s: Seq<WorkerEntry<C>>, now_ms: u64, timeout_ms: u64) -> Seq<
    WorkerEntry<C>,
> {
    s.filter(|e: WorkerEntry<C>| e.late(now_ms, timeout_ms))
}

/// What is kept of a list is what stands in it and is to be kept.
proof fn kept_exactly<A>(s: Seq<A>, keep: spec_fn(A) -> bool, e: A)
    ensures
        s.filter(keep).contains(e) <==> s.contains(e) && keep(e),
    decreases s.len(),
{
    reveal(Seq::filter);
    if s.len() > 0 {
        let front = s.drop_last();
        let some = front.filter(keep);
        let all = s.filter(keep);
        kept_exactly(front, keep, e);
        assert(s =~= front.push(s.last()));
        if front.contains(e) {
            assert(s[front.index_of(e)] == e);
        }
        if some.contains(e) {
            assert(all[some.index_of(e)] == e);
        }
        if s.contains(e) && !front.contains(e) {
            let i = s.index_of(e);
            assert(i == s.len() - 1) by {
                if i < s.len() - 1 {
                    assert(front[i] == e);
                }
            }
            if keep(e) {
                assert(all.last() == e);
            }
        }
        if all.contains(e) && !some.contains(e) {
            let i = all.index_of(e);
            if i < some.len() {
                assert(some[i] == e);
            }
            assert(s.last() == e);
            assert(s[s.len() - 1] == e);
        }
    }
}

/// The text "worker '…'" with what is said of it.
pub open spec fn worker_text(before: Seq<char>, node_id: Seq<char>, after: Seq<char>) -> Seq<char> {
    before + "worker '"@ + node_id + "'"@ + after
}

fn about_worker(before: &str, node_id: &str, after: &str) -> (res: String)
    ensures
        res@ == worker_text(before@, node_id@, after@),
{
    let mut m: String = before.to_owned();
    m.append("worker '");
    m.append(node_id);
    m.append("'");
    m.append(after);
    m
}

/// The error of a lookup of a worker that is not there.
pub open spec fn is_not_found(e: FractureError, node_id: Seq<char>) -> bool {
    e.is_protocol(worker_text(""@, node_id, " not found"@))
}

/// Tracks all connected workers.
pub struct PeerRegistry<C> {
    workers: TextTable<WorkerEntry<C>>,
}

impl<C> Default for PeerRegistry<C> {
    fn default() -> (res: Self)
        ensures
            res.wf(),
            res.ids() == Seq::<Seq<char>>::empty(),
            res.peers() == Map::<Seq<char>, WorkerEntry<C>>::empty(),
    {
        PeerRegistry::new()
    }
}

impl<C> PeerRegistry<C> {
    /// The workers by node ID.
    pub closed spec fn peers(&self) -> Map<Seq<char>, WorkerEntry<C>> {
        self.workers.map()
    }

    /// The node IDs, in the order in which they were first registered.
    pub closed spec fn ids(&self) -> Seq<Seq<char>> {
        self.workers.keys()
    }

    /// The workers, in the order in which they were first registered.
    pub closed spec fn entries(&self) -> Seq<WorkerEntry<C>> {
        self.workers.values()
    }

    /// Each worker stands once, under its ID.
    pub closed spec fn wf(&self) -> bool {
        self.workers.wf()
    }

    /// What is read of the workers in order is what was written under their IDs: each ID
    /// stands once, the worker with number `i` is the one with ID number `i`, and no
    /// worker is left out.
    pub proof fn entries_are_peers(&self)
        requires
            self.wf(),
        ensures
            self.ids().no_duplicates(),
            self.entries().len() == self.ids().len(),
            forall|i: int|
                0 <= i < self.ids().len() ==> self.peers().contains_key(#[trigger] self.ids()[i])
                    && self.peers()[self.ids()[i]] == self.entries()[i],
            forall|id: Seq<char>| #[trigger]
                self.peers().contains_key(id) <==> self.ids().contains(id),
    {
        assert forall|i: int| 0 <= i < self.ids().len() implies self.peers().contains_key(
            #[trigger] self.ids()[i],
        ) && self.peers()[self.ids()[i]] == self.entries()[i] by {
            self.workers.value_at(i);
        }
    }

    pub fn new() -> (res: Self)
        ensures
            res.wf(),
            res.ids() == Seq::<Seq<char>>::empty(),
            res.peers() == Map::<Seq<char>, WorkerEntry<C>>::empty(),
    {
        PeerRegistry { workers: TextTable::new() }
    }

    /// Every worker is read as it was written last: it is among those that are alive, that
    /// serve, that wait or that are late just if it is so itself.
    pub proof fn readers_see_every_worker(&self, id: Seq<char>, now_ms: u64, timeout_ms: u64)
        requires
            self.wf(),
            self.peers().contains_key(id),
        ensures
            ({
                let e = self.peers()[id];
                let all = self.entries();
                &&& alive_of(all).contains(e) <==> e.alive()
                &&& serving_of(all).contains(e) <==> e.serving()
                &&& pending_of(all).contains(e) <==> e.status == WorkerStatus::Pending
                &&& late_of(all, now_ms, timeout_ms).contains(e) <==> e.late(now_ms, timeout_ms)
            }),
    {
        let e = self.peers()[id];
        let all = self.entries();
        self.entries_are_peers();
        assert(self.ids().contains(id));
        let i = self.ids().index_of(id);
        assert(self.peers()[self.ids()[i]] == all[i]);
        assert(all.contains(e));
        kept_exactly(all, |w: WorkerEntry<C>| w.alive(), e);
        kept_exactly(all, |w: WorkerEntry<C>| w.serving(), e);
        kept_exactly(all, |w: WorkerEntry<C>| w.status == WorkerStatus::Pending, e);
        kept_exactly(all, |w: WorkerEntry<C>| w.late(now_ms, timeout_ms), e);
    }

    /// Whatever is read of the workers was written under an ID.
    pub proof fn readers_see_only_workers(
        &self,
        e: WorkerEntry<C>,
        now_ms: u64,
        timeout_ms: u64,
    )
        requires
            self.wf(),
            alive_of(self.entries()).contains(e) || serving_of(self.entries()).contains(e)
                || pending_of(self.entries()).contains(e) || late_of(
                self.entries(),
                now_ms,
                timeout_ms,
            ).contains(e),
        ensures
            exists|id: Seq<char>| #[trigger]
                self.peers().contains_key(id) && self.peers()[id] == e,
    {
        let all = self.entries();
        self.entries_are_peers();
        kept_exactly(all, |w: WorkerEntry<C>| w.alive(), e);
        kept_exactly(all, |w: WorkerEntry<C>| w.serving(), e);
        kept_exactly(all, |w: WorkerEntry<C>| w.status == WorkerStatus::Pending, e);
        kept_exactly(all, |w: WorkerEntry<C>| w.late(now_ms, timeout_ms), e);
        let i = all.index_of(e);
        assert(self.peers().contains_key(self.ids()[i]));
    }

    /// Register a new worker at the time `now_ms`. Returns error if a worker with the same
    /// node_id is already registered and not dead.
    pub fn register(&mut self, capabilities: WorkerCapabilities, connection: C, now_ms: u64) -> (res:
        Result<()>)
        requires
            old(self).wf(),
        ensures
            final(self).wf(),
            ({
                let id = capabilities.node_id@;
                let taken = old(self).peers().contains_key(id) && old(self).peers()[id].alive();
                &&& res is Err <==> taken
                &&& res matches Err(e) ==> e.is_protocol(
                    worker_text(""@, id, " is already registered"@),
                ) && final(self).peers() == old(self).peers() && final(self).ids() == old(
                    self,
                ).ids()
                &&& res is Ok ==> final(self).peers() == old(self).peers().insert(
                    id,
                    WorkerEntry {
                        capabilities,
                        connection,
                        assignment: None,
                        last_heartbeat: now_ms,
                        status: WorkerStatus::Connected,
                        free_blocks: 0,
                        gpu_memory_used: 0,
                    },
                ) && final(self).ids() == (if old(self).peers().contains_key(id) {
                    old(self).ids()
                } else {
                    old(self).ids().push(id)
                })
            }),
    {
        if let Some(existing) = self.workers.get(capabilities.node_id.as_str()) {
            if existing.status != WorkerStatus::Dead {
                return Err(
                    FractureError::Protocol(
                        about_worker(
                            "",
                            capabilities.node_id.as_str(),
                            " is already registered",
                        ),
                    ),
                );
            }
        }
        let node_id: String = capabilities.node_id.clone();
        self.workers.insert(
            node_id,
            WorkerEntry {
                capabilities,
                connection,
                assignment: None,
                last_heartbeat: now_ms,
                status: WorkerStatus::Connected,
                free_blocks: 0,
                gpu_memory_used: 0,
            },
        );
        Ok(())
    }

    /// Get a reference to a worker entry.
    pub fn get(&self, node_id: &str) -> (res: Option<&WorkerEntry<C>>)
        requires
            self.wf(),
        ensures
            res is Some <==> self.peers().contains_key(node_id@),
            res matches Some(e) ==> *e == self.peers()[node_id@],
    {
        self.workers.get(node_id)
    }

    /// Get a mutable reference to a worker entry.
    pub fn get_mut(&mut self, node_id: &str) -> (res: Option<&mut WorkerEntry<C>>)
        requires
            old(self).wf(),
        ensures
            final(self).wf(),
            final(self).ids() == old(self).ids(),
            res is Some <==> old(self).peers().contains_key(node_id@),
            res is None ==> final(self).peers() == old(self).peers(),
            res matches Some(e) ==> *e == old(self).peers()[node_id@] && final(self).peers() == old(
                self,
            ).peers().insert(node_id@, *final(e)),
    {
        self.workers.get_mut(node_id)
    }

    /// Assign layers to a worker and mark it Ready.
    ///
    /// Returns an error if the worker is not found or is Dead.
    /// If the worker already has an assignment (is Ready), the
    /// assignment is overwritten (layer reassignment).
    pub fn assign(&mut self, node_id: &str, assignment: LayerAssignment) -> (res: Result<()>)
        requires
            old(self).wf(),
        ensures
            final(self).wf(),
            final(self).ids() == old(self).ids(),
            res is Ok <==> old(self).peers().contains_key(node_id@) && old(
                self,
            ).peers()[node_id@].alive(),
            res is Ok ==> final(self).peers() == old(self).peers().insert(
                node_id@,
                WorkerEntry {
                    assignment: Some(assignment),
                    status: WorkerStatus::Ready,
                    ..old(self).peers()[node_id@]
                },
            ),
            res matches Err(e) ==> final(self).peers() == old(self).peers() && if old(
                self,
            ).peers().contains_key(node_id@) {
                e.is_protocol(worker_text("cannot assign layers to dead "@, node_id@, ""@))
            } else {
                is_not_found(e, node_id@)
            },
    {
        match self.workers.get(node_id) {
            None => {
                return Err(FractureError::Protocol(about_worker("", node_id, " not found")));
            },
            Some(e) => {
                if e.status == WorkerStatus::Dead {
                    return Err(
                        FractureError::Protocol(
                            about_worker("cannot assign layers to dead ", node_id, ""),
                        ),
                    );
                }
            },
        }
        if let Some(entry) = self.workers.get_mut(node_id) {
            entry.assignment = Some(assignment);
            entry.status = WorkerStatus::Ready;
        }
        Ok(())
    }

    /// Look up a worker entry, returning an error if not found.
    pub fn lookup(&self, node_id: &str) -> (res: Result<&WorkerEntry<C>>)
        requires
            self.wf(),
        ensures
            res is Ok <==> self.peers().contains_key(node_id@),
            res matches Ok(e) ==> *e == self.peers()[node_id@],
            res matches Err(e) ==> is_not_found(e, node_id@),
    {
        match self.workers.get(node_id) {
            Some(e) => Ok(e),
            None => Err(FractureError::Protocol(about_worker("", node_id, " not found"))),
        }
    }

    /// The workers with the status of one of them changed, if it is there.
    pub open spec fn with_status(
        peers: Map<Seq<char>, WorkerEntry<C>>,
        id: Seq<char>,
        status: WorkerStatus,
    ) -> Map<Seq<char>, WorkerEntry<C>> {
        if peers.contains_key(id) {
            peers.insert(id, WorkerEntry { status, ..peers[id] })
        } else {
            peers
        }
    }

    /// Mark a worker as dead.
    pub fn mark_dead(&mut self, node_id: &str)
        requires
            old(self).wf(),
        ensures
            final(self).wf(),
            final(self).ids() == old(self).ids(),
            final(self).peers() == Self::with_status(
                old(self).peers(),
                node_id@,
                WorkerStatus::Dead,
            ),
    {
        if let Some(entry) = self.workers.get_mut(node_id) {
            entry.status = WorkerStatus::Dead;
        }
    }

    /// Changes the status of a worker that is not dead.
    fn mark_alive(&mut self, node_id: &str, status: WorkerStatus)
        requires
            old(self).wf(),
        ensures
            final(self).wf(),
            final(self).ids() == old(self).ids(),
            final(self).peers() == if old(self).peers().contains_key(node_id@) && !old(
                self,
            ).peers()[node_id@].alive() {
                old(self).peers()
            } else {
                Self::with_status(old(self).peers(), node_id@, status)
            },
    {
        if let Some(e) = self.workers.get(node_id) {
            if e.status == WorkerStatus::Dead {
                return;
            }
        }
        if let Some(entry) = self.workers.get_mut(node_id) {
            entry.status = status;
        }
    }

    /// Mark a worker as about to leave. A dead worker stays dead.
    pub fn mark_draining(&mut self, node_id: &str)
        requires
            old(self).wf(),
        ensures
            final(self).wf(),
            final(self).ids() == old(self).ids(),
            final(self).peers() == if old(self).peers().contains_key(node_id@) && !old(
                self,
            ).peers()[node_id@].alive() {
                old(self).peers()
            } else {
                Self::with_status(old(self).peers(), node_id@, WorkerStatus::Draining)
            },
    {
        self.mark_alive(node_id, WorkerStatus::Draining)
    }

    /// Mark a worker as waiting for layers. A dead worker stays dead.
    pub fn mark_pending(&mut self, node_id: &str)
        requires
            old(self).wf(),
        ensures
            final(self).wf(),
            final(self).ids() == old(self).ids(),
            final(self).peers() == if old(self).peers().contains_key(node_id@) && !old(
                self,
            ).peers()[node_id@].alive() {
                old(self).peers()
            } else {
                Self::with_status(old(self).peers(), node_id@, WorkerStatus::Pending)
            },
    {
        self.mark_alive(node_id, WorkerStatus::Pending)
    }

    /// Update a worker's last heartbeat time and block pool stats.
    pub fn record_heartbeat(
        &mut self,
        node_id: &str,
        free_blocks: u32,
        gpu_memory_used: u64,
        now_ms: u64,
    )
        requires
            old(self).wf(),
        ensures
            final(self).wf(),
            final(self).ids() == old(self).ids(),
            final(self).peers() == if old(self).peers().contains_key(node_id@) {
                old(self).peers().insert(
                    node_id@,
                    WorkerEntry {
                        last_heartbeat: now_ms,
                        free_blocks,
                        gpu_memory_used,
                        ..old(self).peers()[node_id@]
                    },
                )
            } else {
                old(self).peers()
            },
    {
        if let Some(entry) = self.workers.get_mut(node_id) {
            entry.last_heartbeat = now_ms;
            entry.free_blocks = free_blocks;
            entry.gpu_memory_used = gpu_memory_used;
        }
    }

    /// The least number of free blocks of a worker in the pipeline; 0 without workers.
    pub open spec fn is_least_free(&self, n: u32) -> bool {
        let s = serving_of(self.entries());
        if s.len() == 0 {
            n == 0
        } else {
            &&& forall|i: int| 0 <= i < s.len() ==> n <= (#[trigger] s[i]).free_blocks
            &&& exists|i: int| 0 <= i < s.len() && n == (#[trigger] s[i]).free_blocks
        }
    }

    /// Minimum free blocks across all ready pipeline workers.
    ///
    /// Returns 0 if no workers are ready. The distributed scheduler uses
    /// this as the effective memory constraint: the bottleneck worker
    /// determines how many new sequences can be admitted.
    pub fn min_free_blocks(&self) -> (res: u32)
        requires
            self.wf(),
        ensures
            self.is_least_free(res),
    {
        let serving = self.serving_workers();
        let ghost s = serving_of(self.entries());
        if serving.len() == 0 {
            assert(s.len() == 0);
            return 0;
        }
        let mut least: u32 = serving[0].free_blocks;
        let mut i: usize = 1;
        assert(s[0] == *serving@[0]);
        while i < serving.len()
            invariant
                1 <= i <= serving@.len(),
                s == entries_of(serving@),
                forall|j: int| 0 <= j < i ==> least <= (#[trigger] s[j]).free_blocks,
                exists|j: int| 0 <= j < i && least == (#[trigger] s[j]).free_blocks,
            decreases serving@.len() - i,
        {
            assert(s[i as int] == *serving@[i as int]);
            if serving[i].free_blocks < least {
                least = serving[i].free_blocks;
            }
            i = i + 1;
        }
        least
    }

    /// The workers that take part in the pipeline.
    fn serving_workers(&self) -> (res: Vec<&WorkerEntry<C>>)
        requires
            self.wf(),
        ensures
            entries_of(res@) == serving_of(self.entries()),
    {
        let ghost p = |e: WorkerEntry<C>| e.serving();
        let mut out: Vec<&WorkerEntry<C>> = Vec::new();
        let mut i: usize = 0;
        assert(self.entries().take(0) =~= Seq::empty());
        proof {
            filter_empty(p);
        }
        assert(entries_of(out@) =~= Seq::empty());
        while i < self.workers.len()
            invariant
                self.wf(),
                i <= self.ids().len(),
                self.ids().len() == self.entries().len(),
                p == (|e: WorkerEntry<C>| e.serving()),
                entries_of(out@) == self.entries().take(i as int).filter(p),
            decreases self.ids().len() - i,
        {
            let e = self.workers.value(i);
            let ghost before = out@;
            if e.is_serving() {
                out.push(e);
                assert(entries_of(out@) =~= entries_of(before).push(*e));
            }
            proof {
                filter_step(self.entries(), i as int, p);
            }
            i = i + 1;
        }
        assert(self.entries().take(i as int) =~= self.entries());
        out
    }

    /// Return all worker capabilities (for scheduler input).
    pub fn all_capabilities(&self) -> (res: Vec<WorkerCapabilities>)
        requires
            self.wf(),
        ensures
            res@ == alive_of(self.entries()).map_values(
                |e: WorkerEntry<C>| e.capabilities,
            ),
    {
        let ghost p = |e: WorkerEntry<C>| e.alive();
        let ghost caps = |e: WorkerEntry<C>| e.capabilities;
        let mut out: Vec<WorkerCapabilities> = Vec::new();
        let mut i: usize = 0;
        assert(self.entries().take(0) =~= Seq::empty());
        proof {
            filter_empty(p);
        }
        assert(out@ =~= self.entries().take(0).filter(p).map_values(caps));
        while i < self.workers.len()
            invariant
                self.wf(),
                i <= self.ids().len(),
                self.ids().len() == self.entries().len(),
                p == (|e: WorkerEntry<C>| e.alive()),
                caps == (|e: WorkerEntry<C>| e.capabilities),
                out@ == self.entries().take(i as int).filter(p).map_values(caps),
            decreases self.ids().len() - i,
        {
            let e = self.workers.value(i);
            proof {
                filter_step(self.entries(), i as int, p);
            }
            if e.status != WorkerStatus::Dead {
                out.push(e.capabilities.clone());
            }
            assert(out@ =~= self.entries().take(i + 1).filter(p).map_values(caps));
            i = i + 1;
        }
        assert(self.entries().take(i as int) =~= self.entries());
        out
    }

    /// The node IDs of workers that wait for layers.
    pub fn pending_workers(&self) -> (res: Vec<String>)
        requires
            self.wf(),
        ensures
            res@ == pending_of(self.entries()).map_values(
                |e: WorkerEntry<C>| e.capabilities.node_id,
            ),
    {
        let ghost p = |e: WorkerEntry<C>| e.status == WorkerStatus::Pending;
        let ghost name = |e: WorkerEntry<C>| e.capabilities.node_id;
        let mut out: Vec<String> = Vec::new();
        let mut i: usize = 0;
        assert(self.entries().take(0) =~= Seq::empty());
        proof {
            filter_empty(p);
        }
        assert(out@ =~= self.entries().take(0).filter(p).map_values(name));
        while i < self.workers.len()
            invariant
                self.wf(),
                i <= self.ids().len(),
                self.ids().len() == self.entries().len(),
                p == (|e: WorkerEntry<C>| e.status == WorkerStatus::Pending),
                name == (|e: WorkerEntry<C>| e.capabilities.node_id),
                out@ == self.entries().take(i as int).filter(p).map_values(name),
            decreases self.ids().len() - i,
        {
            let e = self.workers.value(i);
            proof {
                filter_step(self.entries(), i as int, p);
            }
            if e.status == WorkerStatus::Pending {
                out.push(e.capabilities.node_id.clone());
            }
            assert(out@ =~= self.entries().take(i + 1).filter(p).map_values(name));
            i = i + 1;
        }
        assert(self.entries().take(i as int) =~= self.entries());
        out
    }

    /// Return node IDs of all ready workers in pipeline order
    /// (sorted by layer_range.start).
    pub fn pipeline_order(&self) -> (res: Vec<String>)
        requires
            self.wf(),
        ensures
            res@ == by_layers(
                serving_of(self.entries()),
            ).map_values(|e: WorkerEntry<C>| e.capabilities.node_id),
    {
        let serving = self.serving_workers();
        let ghost all = entries_of(serving@);
        let mut sorted: Vec<&WorkerEntry<C>> = Vec::new();
        let mut i: usize = 0;
        assert(all.take(0) =~= Seq::empty());
        assert(entries_of(sorted@) =~= Seq::empty());
        proof {
            serving_filtered(self.entries());
        }
        while i < serving.len()
            invariant
                i <= serving@.len(),
                all == entries_of(serving@),
                forall|j: int| 0 <= j < all.len() ==> (#[trigger] all[j]).serving(),
                entries_of(sorted@) == by_layers(all.take(i as int)),
                forall|j: int| 0 <= j < sorted@.len() ==> (#[trigger] sorted@[j]).serving(),
            decreases serving@.len() - i,
        {
            let e = serving[i];
            assert(all[i as int] == *e);
            let start: usize = e.layer_start();
            let mut at: usize = sorted.len();
            let ghost before = entries_of(sorted@);
            while at > 0 && sorted[at - 1].layer_start() > start
                invariant
                    at <= sorted@.len(),
                    before == entries_of(sorted@),
                    start == e.first_layer(),
                    forall|j: int| 0 <= j < sorted@.len() ==> (#[trigger] sorted@[j]).serving(),
                    forall|j: int| at <= j < before.len() ==> (#[trigger] before[j]).first_layer() > start,
                ensures
                    at > 0 ==> before[at - 1].first_layer() <= start,
                decreases at,
            {
                at = at - 1;
            }
            proof {
                placed_at(before, *e, at as int);
            }
            sorted.insert(at, e);
            assert(entries_of(sorted@) =~= before.insert(at as int, *e));
            assert(all.take(i + 1).drop_last() =~= all.take(i as int));
            assert forall|j: int| 0 <= j < sorted@.len() implies (#[trigger] sorted@[j]).serving() by {
                assert(entries_of(sorted@)[j] == *sorted@[j]);
                if j > at {
                    assert(before[j - 1].serving());
                } else if j < at {
                    assert(before[j].serving());
                }
            }
            i = i + 1;
        }
        assert(all.take(i as int) =~= all);
        let ghost name = |e: WorkerEntry<C>| e.capabilities.node_id;
        let ghost order = entries_of(sorted@);
        let mut out: Vec<String> = Vec::new();
        i = 0;
        while i < sorted.len()
            invariant
                i <= sorted@.len(),
                order == entries_of(sorted@),
                name == (|e: WorkerEntry<C>| e.capabilities.node_id),
                out@ =~= order.map_values(name).take(i as int),
            decreases sorted@.len() - i,
        {
            out.push(sorted[i].capabilities.node_id.clone());
            i = i + 1;
        }
        assert(order.map_values(name).take(i as int) =~= order.map_values(name));
        out
    }

    /// Number of registered (non-dead) workers.
    pub fn active_count(&self) -> (res: usize)
        requires
            self.wf(),
        ensures
            res == alive_of(self.entries()).len(),
    {
        self.all_capabilities().len()
    }

    /// The connections of all ready workers, with their node IDs.
    pub fn reader_handles(&self) -> (res: Vec<(String, &C)>)
        requires
            self.wf(),
        ensures
            res@.len() == serving_of(self.entries()).len(),
            forall|i: int|
                0 <= i < res@.len() ==> {
                    let e = serving_of(self.entries())[i];
                    (#[trigger] res@[i]).0 == e.capabilities.node_id && *res@[i].1 == e.connection
                },
    {
        let serving = self.serving_workers();
        let ghost s = serving_of(self.entries());
        let mut out: Vec<(String, &C)> = Vec::new();
        let mut i: usize = 0;
        while i < serving.len()
            invariant
                i <= serving@.len(),
                s == entries_of(serving@),
                out@.len() == i,
                forall|j: int|
                    0 <= j < i ==> (#[trigger] out@[j]).0 == s[j].capabilities.node_id
                        && *out@[j].1 == s[j].connection,
            decreases serving@.len() - i,
        {
            assert(s[i as int] == *serving@[i as int]);
            out.push((serving[i].capabilities.node_id.clone(), &serving[i].connection));
            i = i + 1;
        }
        assert(s.len() == serving@.len());
        out
    }

    /// The node IDs of ready workers that were not heard of for more than `timeout_ms`.
    pub fn check_heartbeats(&self, now_ms: u64, timeout_ms: u64) -> (res: Vec<String>)
        requires
            self.wf(),
        ensures
            res@ == late_of(self.entries(), now_ms, timeout_ms).map_values(
                |e: WorkerEntry<C>| e.capabilities.node_id,
            ),
    {
        let ghost p = |e: WorkerEntry<C>| e.late(now_ms, timeout_ms);
        let ghost name = |e: WorkerEntry<C>| e.capabilities.node_id;
        let mut out: Vec<String> = Vec::new();
        let mut i: usize = 0;
        assert(self.entries().take(0) =~= Seq::empty());
        proof {
            filter_empty(p);
        }
        assert(out@ =~= self.entries().take(0).filter(p).map_values(name));
        while i < self.workers.len()
            invariant
                self.wf(),
                i <= self.ids().len(),
                self.ids().len() == self.entries().len(),
                p == (|e: WorkerEntry<C>|
                    e.serving() && now_ms - e.last_heartbeat > timeout_ms),
                name == (|e: WorkerEntry<C>| e.capabilities.node_id),
                out@ == self.entries().take(i as int).filter(p).map_values(name),
            decreases self.ids().len() - i,
        {
            let e = self.workers.value(i);
            proof {
                filter_step(self.entries(), i as int, p);
            }
            if e.is_serving() && now_ms > e.last_heartbeat && now_ms - e.last_heartbeat
                > timeout_ms {
                out.push(e.capabilities.node_id.clone());
            }
            assert(out@ =~= self.entries().take(i + 1).filter(p).map_values(name));
            i = i + 1;
        }
        assert(self.entries().take(i as int) =~= self.entries());
        out
    }

    /// All workers with their node IDs.
    pub fn iter(&self) -> (res: Vec<(&String, &WorkerEntry<C>)>)
        requires
            self.wf(),
        ensures
            res@.len() == self.ids().len(),
            forall|i: int|
                0 <= i < res@.len() ==> (#[trigger] res@[i]).0@ == self.ids()[i] && *res@[i].1
                    == self.entries()[i],
    {
        let mut out: Vec<(&String, &WorkerEntry<C>)> = Vec::new();
        let mut i: usize = 0;
        while i < self.workers.len()
            invariant
                self.wf(),
                i <= self.ids().len(),
                out@.len() == i,
                forall|j: int|
                    0 <= j < i ==> (#[trigger] out@[j]).0@ == self.ids()[j] && *out@[j].1
                        == self.entries()[j],
            decreases self.ids().len() - i,
        {
            out.push((self.workers.key(i), self.workers.value(i)));
            i = i + 1;
        }
        out
    }
}

/// What references point to.
pub open spec fn entries_of<C>(s: Seq<&WorkerEntry<C>>) -> Seq<WorkerEntry<C>> {
    s.map_values(|e: &WorkerEntry<C>| *e)
}

proof fn filter_empty<A>(p: spec_fn(A) -> bool)
    ensures
        Seq::<A>::empty().filter(p) == Seq::<A>::empty(),
{
    reveal(Seq::filter);
}

proof fn filter_step<A>(s: Seq<A>, i: int, p: spec_fn(A) -> bool)
    requires
        0 <= i < s.len(),
    ensures
        s.take(i + 1).filter(p) == if p(s[i]) {
            s.take(i).filter(p).push(s[i])
        } else {
            s.take(i).filter(p)
        },
{
    reveal(Seq::filter);
    assert(s.take(i + 1).drop_last() =~= s.take(i));
}

proof fn serving_filtered<C>(s: Seq<WorkerEntry<C>>)
    ensures
        forall|i: int| 0 <= i < serving_of(s).len() ==> (#[trigger] serving_of(s)[i]).serving(),
    decreases s.len(),
{
    reveal(Seq::filter);
    if s.len() > 0 {
        serving_filtered(s.drop_last());
    }
}

/// Where a worker is placed.
proof fn placed_at<C>(s: Seq<WorkerEntry<C>>, e: WorkerEntry<C>, at: int)
    requires
        0 <= at <= s.len(),
        forall|j: int| at <= j < s.len() ==> (#[trigger] s[j]).first_layer() > e.first_layer(),
        at > 0 ==> s[at - 1].first_layer() <= e.first_layer(),
    ensures
        placed(s, e) == s.insert(at, e),
    decreases s.len(),
{
    if at < s.len() {
        assert(s[s.len() - 1].first_layer() > e.first_layer());
        placed_at(s.drop_last(), e, at);
        assert(s.drop_last().insert(at, e).push(s.last()) =~= s.insert(at, e));
    } else {
        assert(s.insert(at, e) =~= s.push(e));
    }
}

proof fn placed_keeps_order<C>(s: Seq<WorkerEntry<C>>, e: WorkerEntry<C>)
    requires
        forall|i: int, j: int|
            0 <= i < j < s.len() ==> (#[trigger] s[i]).first_layer() <= (
            #[trigger] s[j]).first_layer(),
    ensures
        forall|i: int, j: int|
            0 <= i < j < placed(s, e).len() ==> (#[trigger] placed(s, e)[i]).first_layer() <= (
            #[trigger] placed(s, e)[j]).first_layer(),
        placed(s, e).len() == s.len() + 1,
        placed(s, e).to_multiset() == s.to_multiset().insert(e),
        forall|i: int|
            0 <= i < placed(s, e).len() ==> (#[trigger] placed(s, e)[i]) == e || s.contains(
                placed(s, e)[i],
            ),
    decreases s.len(),
{
    broadcast use vstd::seq_lib::group_to_multiset_ensures;

    if s.len() > 0 && s.last().first_layer() > e.first_layer() {
        let r = s.drop_last();
        placed_keeps_order(r, e);
        let p = placed(s, e);
        assert(s =~= r.push(s.last()));
        assert(p.to_multiset() =~= s.to_multiset().insert(e));
        assert forall|i: int| 0 <= i < p.len() implies (#[trigger] p[i]) == e || s.contains(
            p[i],
        ) by {
            if i < p.len() - 1 {
                assert(p[i] == placed(r, e)[i]);
                if p[i] != e {
                    let k = r.index_of(p[i]);
                    assert(s[k] == p[i]);
                }
            } else {
                assert(s[s.len() - 1] == p[i]);
            }
        }
        assert forall|i: int, j: int| 0 <= i < j < p.len() implies (
        #[trigger] p[i]).first_layer() <= (#[trigger] p[j]).first_layer() by {
            if j == p.len() - 1 {
                assert(p[i] == placed(r, e)[i]);
                if p[i] != e {
                    let k = r.index_of(p[i]);
                    assert(s[k] == p[i]);
                    assert(s[k].first_layer() <= s[s.len() - 1].first_layer());
                }
            } else {
                assert(p[i] == placed(r, e)[i] && p[j] == placed(r, e)[j]);
            }
        }
    } else {
        let p = placed(s, e);
        assert forall|i: int, j: int| 0 <= i < j < p.len() implies (
        #[trigger] p[i]).first_layer() <= (#[trigger] p[j]).first_layer() by {
            if j == p.len() - 1 && s.len() > 0 {
                if i < s.len() - 1 {
                    assert(s[i].first_layer() <= s[s.len() - 1].first_layer());
                }
            }
        }
    }
}

/// The pipeline order is an order by first layers of just those workers that serve: no
/// worker is left out, and none is named twice.
pub proof fn pipeline_order_sorts<C>(s: Seq<WorkerEntry<C>>)
    ensures
        by_layers(s).to_multiset() == s.to_multiset(),
        forall|i: int, j: int|
            0 <= i < j < by_layers(s).len() ==> (#[trigger] by_layers(s)[i]).first_layer() <= (
            #[trigger] by_layers(s)[j]).first_layer(),
        by_layers(s).len() == s.len(),
    decreases s.len(),
{
    broadcast use vstd::seq_lib::group_to_multiset_ensures;

    if s.len() > 0 {
        pipeline_order_sorts(s.drop_last());
        placed_keeps_order(by_layers(s.drop_last()), s.last());
        assert(s =~= s.drop_last().push(s.last()));
    }
}

} // verus!

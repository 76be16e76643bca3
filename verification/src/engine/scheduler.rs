//! Iteration-level batch scheduling.
use crate::base::error::StopReason;
use crate::base::keys::{map_keys, orders};
use crate::base::numeric::Single;
use crate::engine::kv_cache::CacheHandle;
use crate::engine::paged_kv_cache::PagedKvCacheManager;
use std::collections::{HashMap, VecDeque};
use tokio::sync::mpsc::UnboundedSender;
use vstd::prelude::*;

verus! {

broadcast use vstd::std_specs::hash::group_hash_axioms;

/// `tokio::sync::mpsc::UnboundedSender`, the sending half of a client's stream.
#[verifier::external_type_specification]
#[verifier::external_body]
#[verifier::reject_recursive_types(T)]
pub struct ExUnboundedSender<T>(tokio::sync::mpsc::UnboundedSender<T>);

/// `UnboundedSender::is_closed`: whether the client has gone. That can change at any
/// time, so nothing is said of the answer. That the client was asked is [`answered`].
#[verifier::external_body]
fn is_closed(tx: &UnboundedSender<GenerationEvent>) -> bool {
    tx.is_closed()
}

/// `UnboundedSender::send`: puts the event on the client's stream. Whether a client is
/// still there to receive it is not known, and the answer is dropped. That the event was
/// handed over is [`sent`].
#[verifier::external_body]
fn send_event(tx: &UnboundedSender<GenerationEvent>, event: GenerationEvent) {
    let _ = tx.send(event);
}

/// A client's stream was asked whether the client is gone, and this was the answer.
pub closed spec fn answered(tx: UnboundedSender<GenerationEvent>, gone: bool) -> bool {
    call_ensures(is_closed, (&tx,), gone)
}

/// The event was put on a client's stream.
pub closed spec fn sent(tx: UnboundedSender<GenerationEvent>, event: GenerationEvent) -> bool {
    call_ensures(send_event, (&tx, event), ())
}

/// `closed` is what the clients of these sequences answered, one after the other, when they
/// were asked whether they are gone.
pub open spec fn all_answered(
    active: Map<u64, ActiveInfo>,
    ids: Seq<u64>,
    closed: Seq<bool>,
) -> bool {
    &&& closed.len() == ids.len()
    &&& forall|j: int|
        0 <= j < ids.len() && active.contains_key(#[trigger] ids[j]) ==> answered(
            active[ids[j]].event_tx,
            closed[j],
        )
}

/// Each notice was sent to the client of its sequence.
pub open spec fn all_sent(
    active: Map<u64, ActiveInfo>,
    told: Seq<(u64, GenerationEvent)>,
) -> bool {
    forall|j: int|
        0 <= j < told.len() ==> sent(active[(#[trigger] told[j]).0].event_tx, told[j].1)
}

/// Events sent from the scheduler to a client's response stream.
#[derive(Debug, Clone)]
pub enum GenerationEvent {
    /// A new token was generated.
    Token(u32),
    /// Generation finished.
    Finished { stop_reason: StopReason, completion_tokens: usize },
    /// Generation failed mid-stream.
    Error(String),
}

/// A request waiting in the prefill queue.
pub struct PendingRequest {
    pub seq_id: u64,
    pub prompt_tokens: Vec<u32>,
    pub max_tokens: usize,
    pub temperature: Single,
    pub top_k: usize,
    pub top_p: Single,
    pub seed: Option<u64>,
    pub stop_tokens: Vec<u32>,
    /// Channel to send events to the client.
    pub event_tx: UnboundedSender<GenerationEvent>,
}

/// A sequence actively generating tokens.
pub struct ActiveSequence {
    pub seq_id: u64,
    pub handle: CacheHandle,
    pub max_tokens: usize,
    pub temperature: Single,
    pub top_k: usize,
    pub top_p: Single,
    pub seed: Option<u64>,
    pub stop_tokens: Vec<u32>,
    pub current_pos: usize,
    pub generated_tokens: Vec<u32>,
    pub event_tx: UnboundedSender<GenerationEvent>,
    /// Remaining prompt tokens for chunked prefill. Empty = fully prefilled.
    pub remaining_prefill: Vec<u32>,
}

/// A job to prefill (part of) a sequence.
pub struct PrefillJob {
    pub seq_id: u64,
    pub token_ids: Vec<u32>,
    pub positions: Vec<u32>,
    pub handle: CacheHandle,
}

/// A job to decode one token for a sequence.
#[derive(Clone, Copy)]
pub struct DecodeJob {
    pub seq_id: u64,
    pub token_id: u32,
    pub position: u32,
    pub handle: CacheHandle,
}

/// The scheduler's decision for one iteration.
pub struct SchedulerDecision {
    pub prefills: Vec<PrefillJob>,
    pub decodes: Vec<DecodeJob>,
    /// Total tokens in this batch.
    pub total_tokens: usize,
}

/// What is known of a waiting request.
#[verifier::ext_equal]
pub struct PendingInfo {
    pub seq_id: u64,
    pub prompt_tokens: Seq<u32>,
    pub max_tokens: usize,
    pub temperature: Single,
    pub top_k: usize,
    pub top_p: Single,
    pub seed: Option<u64>,
    pub stop_tokens: Seq<u32>,
    pub event_tx: UnboundedSender<GenerationEvent>,
}

/// What is known of an active sequence.
#[verifier::ext_equal]
pub struct ActiveInfo {
    pub seq_id: u64,
    pub handle: CacheHandle,
    pub max_tokens: usize,
    pub temperature: Single,
    pub top_k: usize,
    pub top_p: Single,
    pub seed: Option<u64>,
    pub stop_tokens: Seq<u32>,
    pub current_pos: usize,
    pub generated_tokens: Seq<u32>,
    pub event_tx: UnboundedSender<GenerationEvent>,
    pub remaining_prefill: Seq<u32>,
}

/// What a prefill job says.
#[verifier::ext_equal]
pub struct PrefillInfo {
    pub seq_id: u64,
    pub token_ids: Seq<u32>,
    pub positions: Seq<u32>,
    pub handle: CacheHandle,
}

impl View for PendingRequest {
    type V = PendingInfo;

    open spec fn view(&self) -> PendingInfo {
        PendingInfo {
            seq_id: self.seq_id,
            prompt_tokens: self.prompt_tokens@,
            max_tokens: self.max_tokens,
            temperature: self.temperature,
            top_k: self.top_k,
            top_p: self.top_p,
            seed: self.seed,
            stop_tokens: self.stop_tokens@,
            event_tx: self.event_tx,
        }
    }
}

impl View for ActiveSequence {
    type V = ActiveInfo;

    open spec fn view(&self) -> ActiveInfo {
        ActiveInfo {
            seq_id: self.seq_id,
            handle: self.handle,
            max_tokens: self.max_tokens,
            temperature: self.temperature,
            top_k: self.top_k,
            top_p: self.top_p,
            seed: self.seed,
            stop_tokens: self.stop_tokens@,
            current_pos: self.current_pos,
            generated_tokens: self.generated_tokens@,
            event_tx: self.event_tx,
            remaining_prefill: self.remaining_prefill@,
        }
    }
}

impl View for PrefillJob {
    type V = PrefillInfo;

    open spec fn view(&self) -> PrefillInfo {
        PrefillInfo {
            seq_id: self.seq_id,
            token_ids: self.token_ids@,
            positions: self.positions@,
            handle: self.handle,
        }
    }
}

/// What prefill jobs say.
pub open spec fn prefill_infos(jobs: Seq<PrefillJob>) -> Seq<PrefillInfo> {
    jobs.map_values(|j: PrefillJob| j@)
}

impl ActiveInfo {
    /// Why the sequence ends, if it does: it has generated as many tokens as it may, or
    /// its last token is a stop token.
    pub open spec fn finished(self) -> Option<StopReason> {
        if self.generated_tokens.len() >= self.max_tokens {
            Some(StopReason::Length)
        } else if self.generated_tokens.len() > 0 && self.stop_tokens.contains(
            self.generated_tokens.last(),
        ) {
            Some(StopReason::Stop)
        } else {
            None
        }
    }

    /// The tokens of the prompt, those that are prefilled and those that are not, can be
    /// counted.
    pub open spec fn countable(self) -> bool {
        self.current_pos + self.remaining_prefill.len() <= usize::MAX
    }
}

impl PendingInfo {
    /// The sequence that the request becomes, with the first `n` tokens of its prompt
    /// prefilled. Its handle is the sequence id until the caller gives it a cache.
    pub open spec fn started(self, n: int) -> ActiveInfo {
        ActiveInfo {
            seq_id: self.seq_id,
            handle: CacheHandle(self.seq_id),
            max_tokens: self.max_tokens,
            temperature: self.temperature,
            top_k: self.top_k,
            top_p: self.top_p,
            seed: self.seed,
            stop_tokens: self.stop_tokens,
            current_pos: n as usize,
            generated_tokens: Seq::empty(),
            event_tx: self.event_tx,
            remaining_prefill: self.prompt_tokens.skip(n),
        }
    }

    /// The job that prefills the first `n` tokens of the prompt.
    pub open spec fn first_job(self, n: int) -> PrefillInfo {
        PrefillInfo {
            seq_id: self.seq_id,
            token_ids: self.prompt_tokens.take(n),
            positions: positions_from(0, n),
            handle: CacheHandle(self.seq_id),
        }
    }
}

/// A token's position as the device takes it: the low 32 bits.
pub open spec fn position(p: int) -> u32 {
    (p % 0x1_0000_0000) as u32
}

/// The positions of `n` tokens from `start` on.
pub open spec fn positions_from(start: int, n: int) -> Seq<u32> {
    Seq::new(n as nat, |i: int| position(start + i))
}

fn position_of(p: usize) -> (res: u32)
    ensures
        res == position(p as int),
{
    (p as u64 % 0x1_0000_0000) as u32
}

fn make_positions(start: usize, n: usize) -> (res: Vec<u32>)
    requires
        start + n <= usize::MAX,
    ensures
        res@ == positions_from(start as int, n as int),
{
    let mut out: Vec<u32> = Vec::new();
    let mut i: usize = 0;
    while i < n
        invariant
            i <= n,
            start + n <= usize::MAX,
            out@ =~= positions_from(start as int, i as int),
        decreases n - i,
    {
        out.push(position_of(start + i));
        i = i + 1;
    }
    out
}

/// What bounds a batch.
pub struct Limits {
    /// Jobs in a batch.
    pub batch_size: usize,
    /// Tokens in a batch.
    pub batch_tokens: usize,
    /// Prompt tokens in a batch.
    pub prefill_tokens: usize,
    /// Blocks that a new request may need.
    pub blocks: int,
}

/// A batch in the making.
#[verifier::ext_equal]
pub struct Batch {
    /// The active sequences.
    pub active: Map<u64, ActiveInfo>,
    /// The waiting requests.
    pub queue: Seq<PendingInfo>,
    pub prefills: Seq<PrefillInfo>,
    pub decodes: Seq<DecodeJob>,
    /// Tokens in the batch.
    pub total: int,
    /// Prompt tokens in the batch.
    pub prefill_tokens: int,
}

/// The smaller of two numbers.
pub open spec fn lesser(a: int, b: int) -> int {
    if a < b {
        a
    } else {
        b
    }
}

impl Batch {
    /// There is a place for another job.
    pub open spec fn has_place(self, lim: Limits) -> bool {
        self.decodes.len() + self.prefills.len() < lim.batch_size
    }

    /// How many more prompt tokens fit.
    pub open spec fn prompt_room(self, lim: Limits) -> int {
        lesser(lim.batch_tokens - self.total, lim.prefill_tokens - self.prefill_tokens)
    }

    /// With a decode job for a sequence, if the batch has place for it, the sequence
    /// exists and has a token to decode, and its client is there.
    pub open spec fn with_decode(self, lim: Limits, id: u64, closed: bool) -> Batch {
        if !self.has_place(lim) || self.total >= lim.batch_tokens || !self.active.contains_key(id)
            || closed || self.active[id].generated_tokens.len() == 0 {
            self
        } else {
            let s = self.active[id];
            Batch {
                decodes: self.decodes.push(
                    DecodeJob {
                        seq_id: id,
                        token_id: s.generated_tokens.last(),
                        position: position(s.current_pos as int),
                        handle: s.handle,
                    },
                ),
                total: self.total + 1,
                ..self
            }
        }
    }

    /// With decode jobs for the first `k` of these sequences.
    pub open spec fn with_decodes(
        self,
        lim: Limits,
        ids: Seq<u64>,
        closed: Seq<bool>,
        k: int,
    ) -> Batch
        decreases k,
    {
        if k <= 0 {
            self
        } else {
            self.with_decodes(lim, ids, closed, k - 1).with_decode(lim, ids[k - 1], closed[k - 1])
        }
    }

    /// With the next part of a sequence's prompt, as much as fits, if the batch has place
    /// for it.
    pub open spec fn with_chunk(self, lim: Limits, id: u64) -> Batch {
        if !self.has_place(lim) || self.prompt_room(lim) <= 0 || !self.active.contains_key(id) {
            self
        } else {
            let s = self.active[id];
            let n = lesser(s.remaining_prefill.len() as int, self.prompt_room(lim));
            Batch {
                active: self.active.insert(
                    id,
                    ActiveInfo {
                        remaining_prefill: s.remaining_prefill.skip(n),
                        current_pos: (s.current_pos + n) as usize,
                        ..s
                    },
                ),
                prefills: self.prefills.push(
                    PrefillInfo {
                        seq_id: id,
                        token_ids: s.remaining_prefill.take(n),
                        positions: positions_from(s.current_pos as int, n),
                        handle: s.handle,
                    },
                ),
                total: self.total + n,
                prefill_tokens: self.prefill_tokens + n,
                ..self
            }
        }
    }

    /// With the next parts of the prompts of the first `k` of these sequences.
    pub open spec fn with_chunks(self, lim: Limits, ids: Seq<u64>, k: int) -> Batch
        decreases k,
    {
        if k <= 0 {
            self
        } else {
            self.with_chunks(lim, ids, k - 1).with_chunk(lim, ids[k - 1])
        }
    }

    /// The first waiting request can join: the batch has place for it, and there are
    /// blocks for its prompt.
    pub open spec fn can_join(self, lim: Limits) -> bool {
        &&& self.queue.len() > 0
        &&& self.has_place(lim)
        &&& self.prompt_room(lim) > 0
        &&& (self.queue[0].prompt_tokens.len() + 15) / 16 <= lim.blocks
    }

    /// The first waiting request becomes an active sequence, with as much of its prompt
    /// as fits.
    pub open spec fn joined(self, lim: Limits) -> Batch {
        let r = self.queue[0];
        let n = lesser(r.prompt_tokens.len() as int, self.prompt_room(lim));
        Batch {
            active: self.active.insert(r.seq_id, r.started(n)),
            queue: self.queue.skip(1),
            prefills: self.prefills.push(r.first_job(n)),
            total: self.total + n,
            prefill_tokens: self.prefill_tokens + n,
            ..self
        }
    }

    /// With waiting requests, in their order, until one cannot join.
    pub open spec fn with_requests(self, lim: Limits) -> Batch
        decreases self.queue.len(),
    {
        if self.can_join(lim) {
            self.joined(lim).with_requests(lim)
        } else {
            self
        }
    }

    /// The whole batch: decodes first, then prompts that are under way, then new requests.
    pub open spec fn planned(
        self,
        lim: Limits,
        decode_ids: Seq<u64>,
        closed: Seq<bool>,
        chunked_ids: Seq<u64>,
    ) -> Batch {
        self.with_decodes(lim, decode_ids, closed, decode_ids.len() as int).with_chunks(
            lim,
            chunked_ids,
            chunked_ids.len() as int,
        ).with_requests(lim)
    }
}

/// The ids of those sequences, in an order of their keys, whose prompt is prefilled, or of
/// the others.
pub open spec fn ids_where(
    active: Map<u64, ActiveInfo>,
    order: Seq<u64>,
    prefilled: bool,
) -> Seq<u64>
    decreases order.len(),
{
    if order.len() == 0 {
        Seq::empty()
    } else {
        let rest = ids_where(active, order.drop_last(), prefilled);
        let s = active[order.last()];
        if (s.remaining_prefill.len() == 0) == prefilled {
            rest.push(s.seq_id)
        } else {
            rest
        }
    }
}

/// The sequences that leave, in the order of `order`: those that have ended and those
/// whose client is gone.
pub open spec fn leaving(
    active: Map<u64, ActiveInfo>,
    order: Seq<u64>,
    closed: Seq<bool>,
    k: int,
) -> Seq<(u64, CacheHandle)>
    decreases k,
{
    if k <= 0 {
        Seq::empty()
    } else {
        let rest = leaving(active, order, closed, k - 1);
        let id = order[k - 1];
        if active.contains_key(id) && (active[id].finished() is Some || closed[k - 1]) {
            rest.push((id, active[id].handle))
        } else {
            rest
        }
    }
}

/// What the clients of those of the first `k` sequences that have ended are told, in the
/// order of `order`.
pub open spec fn notices(active: Map<u64, ActiveInfo>, order: Seq<u64>, k: int) -> Seq<
    (u64, GenerationEvent),
>
    decreases k,
{
    if k <= 0 {
        Seq::empty()
    } else {
        let rest = notices(active, order, k - 1);
        let id = order[k - 1];
        if active.contains_key(id) && active[id].finished() is Some {
            rest.push(
                (
                    id,
                    GenerationEvent::Finished {
                        stop_reason: active[id].finished()->0,
                        completion_tokens: active[id].generated_tokens.len() as usize,
                    },
                ),
            )
        } else {
            rest
        }
    }
}

/// Notices are for sequences that there are.
proof fn notices_are_active(active: Map<u64, ActiveInfo>, order: Seq<u64>, k: int)
    ensures
        forall|j: int|
            0 <= j < notices(active, order, k).len() ==> active.contains_key(
                (#[trigger] notices(active, order, k)[j]).0,
            ),
    decreases k,
{
    if k > 0 {
        notices_are_active(active, order, k - 1);
        let rest = notices(active, order, k - 1);
        let all = notices(active, order, k);
        assert forall|j: int| 0 <= j < all.len() implies active.contains_key(
            (#[trigger] all[j]).0,
        ) by {
            if j < rest.len() {
                assert(all[j] == rest[j]);
            }
        }
    }
}

/// The sequences without those that leave.
pub open spec fn without(
    active: Map<u64, ActiveInfo>,
    gone: Seq<(u64, CacheHandle)>,
) -> Map<u64, ActiveInfo>
    decreases gone.len(),
{
    if gone.len() == 0 {
        active
    } else {
        without(active, gone.drop_last()).remove(gone.last().0)
    }
}

impl ActiveSequence {
    /// The event that tells the client why the sequence has ended, if it has.
    pub fn finished_event(&self) -> (res: Option<GenerationEvent>)
        ensures
            res is Some <==> self@.finished() is Some,
            res matches Some(e) ==> e == (GenerationEvent::Finished {
                stop_reason: self@.finished()->0,
                completion_tokens: self@.generated_tokens.len() as usize,
            }),
    {
        let n: usize = self.generated_tokens.len();
        if n >= self.max_tokens {
            return Some(
                GenerationEvent::Finished {
                    stop_reason: StopReason::Length,
                    completion_tokens: n,
                },
            );
        }
        if n == 0 {
            return None;
        }
        let last: u32 = self.generated_tokens[n - 1];
        let mut i: usize = 0;
        while i < self.stop_tokens.len()
            invariant
                i <= self.stop_tokens@.len(),
                0 < n == self.generated_tokens@.len() < self.max_tokens,
                last == self.generated_tokens@.last(),
                forall|j: int| 0 <= j < i ==> self.stop_tokens@[j] != last,
            decreases self.stop_tokens@.len() - i,
        {
            if self.stop_tokens[i] == last {
                assert(self.stop_tokens@[i as int] == last);
                return Some(
                    GenerationEvent::Finished {
                        stop_reason: StopReason::Stop,
                        completion_tokens: n,
                    },
                );
            }
            i = i + 1;
        }
        None
    }
}

/// Iteration-level batch scheduler.
///
/// Decides which sequences to include in each forward pass using
/// a decode-priority policy with configurable prefill chunking.
pub struct BatchScheduler {
    /// Requests waiting for their first prefill.
    pub prefill_queue: VecDeque<PendingRequest>,
    /// Sequences actively generating.
    pub active: HashMap<u64, ActiveSequence>,
    /// Maximum sequences in a single batch.
    pub max_batch_size: usize,
    /// Maximum total tokens per iteration.
    pub max_batch_tokens: usize,
    /// Maximum prefill tokens per iteration.
    pub max_prefill_tokens: usize,
    /// Fraction of block pool to reserve for active sequence growth (0.0-1.0).
    pub block_pool_reserve: Single,
    /// Next sequence ID.
    pub next_id: u64,
}

impl BatchScheduler {
    /// The active sequences.
    pub open spec fn sequences(&self) -> Map<u64, ActiveInfo> {
        self.active@.map_values(|s: ActiveSequence| s@)
    }

    /// The waiting requests.
    pub open spec fn waiting(&self) -> Seq<PendingInfo> {
        self.prefill_queue@.map_values(|r: PendingRequest| r@)
    }

    /// The positions of all active sequences can be counted.
    pub open spec fn countable(&self) -> bool {
        forall|id: u64| #[trigger]
            self.sequences().contains_key(id) ==> self.sequences()[id].countable()
    }

    /// The limits and the next sequence ID are the same.
    pub open spec fn same_settings(&self, other: &Self) -> bool {
        &&& self.max_batch_size == other.max_batch_size
        &&& self.max_batch_tokens == other.max_batch_tokens
        &&& self.max_prefill_tokens == other.max_prefill_tokens
        &&& self.block_pool_reserve == other.block_pool_reserve
        &&& self.next_id == other.next_id
    }

    /// What bounds the next batch.
    pub open spec fn limits(&self, free_blocks: usize, reserved_blocks: usize) -> Limits {
        Limits {
            batch_size: self.max_batch_size,
            batch_tokens: self.max_batch_tokens,
            prefill_tokens: self.max_prefill_tokens,
            blocks: if free_blocks > reserved_blocks {
                free_blocks - reserved_blocks
            } else {
                0
            },
        }
    }

    /// The batch so far.
    pub open spec fn batch(&self, d: SchedulerDecision, prefill_tokens: int) -> Batch {
        Batch {
            active: self.sequences(),
            queue: self.waiting(),
            prefills: prefill_infos(d.prefills@),
            decodes: d.decodes@,
            total: d.total_tokens as int,
            prefill_tokens,
        }
    }

    /// An empty batch.
    pub open spec fn empty_batch(&self) -> Batch {
        Batch {
            active: self.sequences(),
            queue: self.waiting(),
            prefills: Seq::empty(),
            decodes: Seq::empty(),
            total: 0,
            prefill_tokens: 0,
        }
    }

    /// The scheduler `after` and the decision `d` are those of the batch `b`.
    pub open spec fn shows(b: Batch, after: Self, d: SchedulerDecision) -> bool {
        &&& after.sequences() == b.active
        &&& after.waiting() == b.queue
        &&& prefill_infos(d.prefills@) == b.prefills
        &&& d.decodes@ == b.decodes
        &&& d.total_tokens == b.total
    }

    pub fn new(
        max_batch_size: usize,
        max_batch_tokens: usize,
        max_prefill_tokens: usize,
        block_pool_reserve: Single,
    ) -> (res: Self)
        ensures
            res.sequences() == Map::<u64, ActiveInfo>::empty(),
            res.waiting() == Seq::<PendingInfo>::empty(),
            res.max_batch_size == max_batch_size,
            res.max_batch_tokens == max_batch_tokens,
            res.max_prefill_tokens == max_prefill_tokens,
            res.block_pool_reserve == block_pool_reserve,
            res.next_id == 0,
    {
        let res = BatchScheduler {
            prefill_queue: VecDeque::new(),
            active: HashMap::new(),
            max_batch_size,
            max_batch_tokens,
            max_prefill_tokens,
            block_pool_reserve,
            next_id: 0,
        };
        assert(res.sequences() =~= Map::<u64, ActiveInfo>::empty());
        assert(res.waiting() =~= Seq::<PendingInfo>::empty());
        res
    }

    /// Allocate a new sequence ID.
    pub fn next_seq_id(&mut self) -> (res: u64)
        requires
            old(self).next_id < u64::MAX,
        ensures
            res == old(self).next_id,
            *final(self) == (BatchScheduler { next_id: (res + 1) as u64, ..*old(self) }),
    {
        let id: u64 = self.next_id;
        self.next_id = self.next_id + 1;
        id
    }

    /// Enqueue a new request for prefill.
    pub fn enqueue(&mut self, request: PendingRequest)
        ensures
            final(self).waiting() == old(self).waiting().push(request@),
            final(self).active == old(self).active,
            final(self).same_settings(old(self)),
    {
        self.prefill_queue.push_back(request);
        assert(self.waiting() =~= old(self).waiting().push(request@));
    }

    /// Adds decode jobs for these sequences.
    fn add_decodes(&self, ids: &[u64], closed: &[bool], decision: &mut SchedulerDecision, Ghost(lim):
        Ghost<Limits>)
        requires
            ids@.len() == closed@.len(),
            lim.batch_size == self.max_batch_size,
            lim.batch_tokens == self.max_batch_tokens,
            old(decision).total_tokens <= self.max_batch_tokens,
            old(decision).decodes@.len() + old(decision).prefills@.len() <= usize::MAX,
        ensures
            self.batch(*final(decision), 0) == self.batch(*old(decision), 0).with_decodes(
                lim,
                ids@,
                closed@,
                ids@.len() as int,
            ),
            final(decision).total_tokens <= self.max_batch_tokens,
            final(decision).decodes@.len() + final(decision).prefills@.len() <= usize::MAX,
    {
        let ghost start = self.batch(*decision, 0);
        let mut i: usize = 0;
        while i < ids.len()
            invariant
                i <= ids@.len() == closed@.len(),
                start == self.batch(*old(decision), 0),
                lim.batch_size == self.max_batch_size,
                lim.batch_tokens == self.max_batch_tokens,
                decision.total_tokens <= self.max_batch_tokens,
                decision.decodes@.len() + decision.prefills@.len() <= usize::MAX,
                self.batch(*decision, 0) == start.with_decodes(lim, ids@, closed@, i as int),
            decreases ids@.len() - i,
        {
            let id: u64 = ids[i];
            let ghost now = self.batch(*decision, 0);
            if decision.decodes.len() + decision.prefills.len() < self.max_batch_size
                && decision.total_tokens < self.max_batch_tokens && !closed[i] {
                if let Some(seq) = self.active.get(&id) {
                    assert(self.sequences()[id] == seq@);
                    let n: usize = seq.generated_tokens.len();
                    // A sequence without a token has nothing to decode yet.
                    if n > 0 {
                        decision.decodes.push(
                            DecodeJob {
                                seq_id: id,
                                token_id: seq.generated_tokens[n - 1],
                                position: position_of(seq.current_pos),
                                handle: seq.handle,
                            },
                        );
                        decision.total_tokens = decision.total_tokens + 1;
                    }
                }
            }
            assert(self.batch(*decision, 0) =~= now.with_decode(lim, id, closed@[i as int]));
            i = i + 1;
        }
    }

    /// Moves the next part of a sequence's prompt into the batch.
    fn take_chunk(&mut self, id: u64, room: usize) -> (res: Option<PrefillJob>)
        requires
            old(self).countable(),
        ensures
            final(self).countable(),
            final(self).same_settings(old(self)),
            final(self).prefill_queue == old(self).prefill_queue,
            res is Some <==> old(self).sequences().contains_key(id),
            res is None ==> final(self).sequences() == old(self).sequences(),
            res matches Some(job) ==> ({
                let s = old(self).sequences()[id];
                let n = lesser(s.remaining_prefill.len() as int, room as int);
                &&& final(self).sequences() == old(self).sequences().insert(
                    id,
                    ActiveInfo {
                        remaining_prefill: s.remaining_prefill.skip(n),
                        current_pos: (s.current_pos + n) as usize,
                        ..s
                    },
                )
                &&& job@ == (PrefillInfo {
                    seq_id: id,
                    token_ids: s.remaining_prefill.take(n),
                    positions: positions_from(s.current_pos as int, n),
                    handle: s.handle,
                })
            }),
    {
        match self.active.remove(&id) {
            None => {
                assert(self.sequences() =~= old(self).sequences());
                None
            },
            Some(mut seq) => {
                let ghost s = seq@;
                assert(old(self).sequences().contains_key(id));
                assert(old(self).sequences()[id] == s);
                let have: usize = seq.remaining_prefill.len();
                let n: usize = if have < room {
                    have
                } else {
                    room
                };
                let rest = seq.remaining_prefill.split_off(n);
                let chunk = seq.remaining_prefill;
                seq.remaining_prefill = rest;
                let positions = make_positions(seq.current_pos, n);
                let handle = seq.handle;
                seq.current_pos = seq.current_pos + n;
                assert(seq@ =~= (ActiveInfo {
                    remaining_prefill: s.remaining_prefill.skip(n as int),
                    current_pos: (s.current_pos + n) as usize,
                    ..s
                }));
                assert(chunk@ =~= s.remaining_prefill.take(n as int));
                let ghost next = seq@;
                self.active.insert(id, seq);
                assert(self.sequences() =~= old(self).sequences().insert(id, next));
                Some(PrefillJob { seq_id: id, token_ids: chunk, positions, handle })
            },
        }
    }

    /// Adds the next parts of the prompts of these sequences.
    fn add_chunks(&mut self, ids: &[u64], decision: &mut SchedulerDecision, Ghost(lim): Ghost<
        Limits,
    >) -> (res: usize)
        requires
            old(self).countable(),
            lim.batch_size == old(self).max_batch_size,
            lim.batch_tokens == old(self).max_batch_tokens,
            lim.prefill_tokens == old(self).max_prefill_tokens,
            old(decision).total_tokens <= old(self).max_batch_tokens,
            old(decision).decodes@.len() + old(decision).prefills@.len() <= usize::MAX,
        ensures
            final(self).countable(),
            final(self).same_settings(old(self)),
            final(self).batch(*final(decision), res as int) == old(self).batch(
                *old(decision),
                0,
            ).with_chunks(lim, ids@, ids@.len() as int),
            final(decision).total_tokens <= old(self).max_batch_tokens,
            res <= old(self).max_prefill_tokens,
            final(decision).decodes@.len() + final(decision).prefills@.len() <= usize::MAX,
    {
        let ghost start = self.batch(*decision, 0);
        let mut used: usize = 0;
        let mut i: usize = 0;
        while i < ids.len()
            invariant
                i <= ids@.len(),
                self.countable(),
                self.same_settings(old(self)),
                start == old(self).batch(*old(decision), 0),
                lim.batch_size == self.max_batch_size,
                lim.batch_tokens == self.max_batch_tokens,
                lim.prefill_tokens == self.max_prefill_tokens,
                decision.total_tokens <= self.max_batch_tokens,
                used <= self.max_prefill_tokens,
                decision.decodes@.len() + decision.prefills@.len() <= usize::MAX,
                self.batch(*decision, used as int) == start.with_chunks(lim, ids@, i as int),
            decreases ids@.len() - i,
        {
            let id: u64 = ids[i];
            let ghost now = self.batch(*decision, used as int);
            let ghost was = *decision;
            let batch_room: usize = self.max_batch_tokens - decision.total_tokens;
            let prefill_room: usize = self.max_prefill_tokens - used;
            let room: usize = if batch_room < prefill_room {
                batch_room
            } else {
                prefill_room
            };
            if decision.decodes.len() + decision.prefills.len() < self.max_batch_size && room > 0 {
                if let Some(job) = self.take_chunk(id, room) {
                    let n: usize = job.token_ids.len();
                    let ghost info = job@;
                    decision.prefills.push(job);
                    decision.total_tokens = decision.total_tokens + n;
                    used = used + n;
                    assert(prefill_infos(decision.prefills@) =~= prefill_infos(was.prefills@).push(
                        info,
                    ));
                }
            }
            assert(self.batch(*decision, used as int) =~= now.with_chunk(lim, id));
            i = i + 1;
        }
        used
    }

    /// Takes the first waiting request.
    fn take_first(&mut self) -> (res: Option<PendingRequest>)
        ensures
            final(self).sequences() == old(self).sequences(),
            final(self).same_settings(old(self)),
            res is Some <==> old(self).waiting().len() > 0,
            res is None ==> final(self).waiting() == old(self).waiting(),
            res matches Some(r) ==> r@ == old(self).waiting()[0] && final(self).waiting() == old(
                self,
            ).waiting().skip(1),
    {
        let ghost queue = self.prefill_queue@;
        let res = self.prefill_queue.pop_front();
        proof {
            assert(old(self).waiting().len() == queue.len());
            if res is Some {
                assert(old(self).waiting()[0] == queue[0]@);
                assert(self.waiting() =~= old(self).waiting().skip(1));
            }
        }
        res
    }

    /// Adds an active sequence.
    fn activate(&mut self, seq: ActiveSequence)
        requires
            old(self).countable(),
            seq@.countable(),
        ensures
            final(self).countable(),
            final(self).same_settings(old(self)),
            final(self).prefill_queue == old(self).prefill_queue,
            final(self).sequences() == old(self).sequences().insert(seq.seq_id, seq@),
    {
        let ghost info = seq@;
        let id: u64 = seq.seq_id;
        self.active.insert(id, seq);
        proof {
            assert(self.sequences() =~= old(self).sequences().insert(id, info));
            assert forall|x: u64| #[trigger] self.sequences().contains_key(x) implies
                self.sequences()[x].countable() by {
                if x != id {
                    assert(old(self).sequences().contains_key(x));
                }
            }
        }
    }

    /// Makes the first waiting request an active sequence.
    fn join_first(&mut self, room: usize) -> (res: Option<PrefillJob>)
        requires
            old(self).countable(),
        ensures
            final(self).countable(),
            final(self).same_settings(old(self)),
            res is Some <==> old(self).waiting().len() > 0,
            res is None ==> final(self).sequences() == old(self).sequences()
                && final(self).waiting() == old(self).waiting(),
            res matches Some(job) ==> ({
                let r = old(self).waiting()[0];
                let n = lesser(r.prompt_tokens.len() as int, room as int);
                &&& final(self).waiting() == old(self).waiting().skip(1)
                &&& final(self).sequences() == old(self).sequences().insert(r.seq_id, r.started(n))
                &&& job@ == r.first_job(n)
            }),
    {
        match self.take_first() {
            None => None,
            Some(req) => {
                let ghost r = req@;
                let mut chunk = req.prompt_tokens;
                let len: usize = chunk.len();
                let n: usize = if len < room {
                    len
                } else {
                    room
                };
                let remaining = chunk.split_off(n);
                assert(chunk@ =~= r.prompt_tokens.take(n as int));
                assert(remaining@ =~= r.prompt_tokens.skip(n as int));
                let positions = make_positions(0, n);
                let seq_id: u64 = req.seq_id;
                // The caller gives the sequence its cache; until then the handle is the
                // sequence id.
                let handle = CacheHandle(seq_id);
                let seq = ActiveSequence {
                    seq_id,
                    handle,
                    max_tokens: req.max_tokens,
                    temperature: req.temperature,
                    top_k: req.top_k,
                    top_p: req.top_p,
                    seed: req.seed,
                    stop_tokens: req.stop_tokens,
                    current_pos: n,
                    generated_tokens: Vec::new(),
                    event_tx: req.event_tx,
                    remaining_prefill: remaining,
                };
                assert(seq@ =~= r.started(n as int));
                self.activate(seq);
                Some(PrefillJob { seq_id, token_ids: chunk, positions, handle })
            },
        }
    }

    /// Admits waiting requests.
    fn add_requests(
        &mut self,
        available: usize,
        decision: &mut SchedulerDecision,
        used: usize,
        Ghost(lim): Ghost<Limits>,
    )
        requires
            old(self).countable(),
            lim.batch_size == old(self).max_batch_size,
            lim.batch_tokens == old(self).max_batch_tokens,
            lim.prefill_tokens == old(self).max_prefill_tokens,
            lim.blocks == available,
            old(decision).total_tokens <= old(self).max_batch_tokens,
            used <= old(self).max_prefill_tokens,
            old(decision).decodes@.len() + old(decision).prefills@.len() <= usize::MAX,
        ensures
            final(self).countable(),
            final(self).same_settings(old(self)),
            Self::shows(
                old(self).batch(*old(decision), used as int).with_requests(lim),
                *final(self),
                *final(decision),
            ),
    {
        let mut used: usize = used;
        let ghost end = self.batch(*decision, used as int).with_requests(lim);
        while self.prefill_queue.len() > 0
            invariant
                self.countable(),
                self.same_settings(old(self)),
                lim.batch_size == self.max_batch_size,
                lim.batch_tokens == self.max_batch_tokens,
                lim.prefill_tokens == self.max_prefill_tokens,
                lim.blocks == available,
                decision.total_tokens <= self.max_batch_tokens,
                used <= self.max_prefill_tokens,
                decision.decodes@.len() + decision.prefills@.len() <= usize::MAX,
                self.batch(*decision, used as int).with_requests(lim) == end,
            ensures
                !self.batch(*decision, used as int).can_join(lim),
            decreases self.prefill_queue@.len(),
        {
            let ghost now = self.batch(*decision, used as int);
            let ghost was = *decision;
            assert(self.waiting()[0] == self.prefill_queue@[0]@);
            let batch_room: usize = self.max_batch_tokens - decision.total_tokens;
            let prefill_room: usize = self.max_prefill_tokens - used;
            let room: usize = if batch_room < prefill_room {
                batch_room
            } else {
                prefill_room
            };
            if decision.decodes.len() + decision.prefills.len() >= self.max_batch_size || room
                == 0 {
                break;
            }
            let prompt_len: usize = self.prefill_queue[0].prompt_tokens.len();
            let blocks_needed: usize = if prompt_len % 16 == 0 {
                prompt_len / 16
            } else {
                prompt_len / 16 + 1
            };
            if blocks_needed > available {
                break;
            }
            if let Some(job) = self.join_first(room) {
                let n: usize = job.token_ids.len();
                let ghost info = job@;
                decision.prefills.push(job);
                decision.total_tokens = decision.total_tokens + n;
                used = used + n;
                assert(prefill_infos(decision.prefills@) =~= prefill_infos(was.prefills@).push(
                    info,
                ));
                assert(self.batch(*decision, used as int) =~= now.joined(lim));
            }
            assert(self.waiting().len() == self.prefill_queue@.len());
        }
    }

    /// Builds a batch: decode jobs for `decode_ids`, without those whose client is gone and
    /// those that have no token yet, then the next parts of the prompts of `chunked_ids`,
    /// then waiting requests.
    pub fn plan(
        &mut self,
        decode_ids: &[u64],
        closed: &[bool],
        chunked_ids: &[u64],
        free_blocks: usize,
        reserved_blocks: usize,
    ) -> (res: SchedulerDecision)
        requires
            old(self).countable(),
            decode_ids@.len() == closed@.len(),
        ensures
            final(self).countable(),
            final(self).same_settings(old(self)),
            Self::shows(
                old(self).empty_batch().planned(
                    old(self).limits(free_blocks, reserved_blocks),
                    decode_ids@,
                    closed@,
                    chunked_ids@,
                ),
                *final(self),
                res,
            ),
    {
        let ghost lim = self.limits(free_blocks, reserved_blocks);
        let mut decision = SchedulerDecision {
            prefills: Vec::new(),
            decodes: Vec::new(),
            total_tokens: 0,
        };
        assert(self.batch(decision, 0) =~= self.empty_batch());
        let available: usize = if free_blocks > reserved_blocks {
            free_blocks - reserved_blocks
        } else {
            0
        };
        self.add_decodes(decode_ids, closed, &mut decision, Ghost(lim));
        let used: usize = self.add_chunks(chunked_ids, &mut decision, Ghost(lim));
        self.add_requests(available, &mut decision, used, Ghost(lim));
        decision
    }

    /// The ids of the sequences whose prompt is prefilled, or of the others, in the order
    /// in which the map gives them out.
    fn collect_ids(&self, prefilled: bool) -> (res: Vec<u64>)
        ensures
            exists|order: Seq<u64>|
                orders(self.sequences(), order) && res@ == #[trigger] ids_where(
                    self.sequences(),
                    order,
                    prefilled,
                ),
    {
        let keys = map_keys(&self.active);
        let mut ids: Vec<u64> = Vec::new();
        let mut i: usize = 0;
        let ghost seqs = self.sequences();
        assert(keys@.take(0) =~= Seq::empty());
        while i < keys.len()
            invariant
                i <= keys@.len(),
                orders(self.active@, keys@),
                seqs == self.sequences(),
                ids@ == ids_where(seqs, keys@.take(i as int), prefilled),
            decreases keys@.len() - i,
        {
            let id: u64 = keys[i];
            assert(keys@.contains(id));
            assert(keys@.take(i + 1).drop_last() =~= keys@.take(i as int));
            if let Some(seq) = self.active.get(&id) {
                assert(seqs[id] == seq@);
                if (seq.remaining_prefill.len() == 0) == prefilled {
                    ids.push(seq.seq_id);
                }
            }
            i = i + 1;
        }
        assert(keys@.take(i as int) =~= keys@);
        assert(orders(self.sequences(), keys@)) by {
            assert(self.sequences().dom() =~= self.active@.dom());
            assert forall|k: u64| #[trigger]
                self.sequences().contains_key(k) <==> keys@.contains(k) by {
                assert(self.active@.contains_key(k) <==> keys@.contains(k));
            }
        }
        ids
    }

    /// Whether the client of each of these sequences is gone.
    fn ask_closed(&self, ids: &Vec<u64>) -> (res: Vec<bool>)
        ensures
            all_answered(self.sequences(), ids@, res@),
    {
        let mut closed: Vec<bool> = Vec::new();
        let mut i: usize = 0;
        while i < ids.len()
            invariant
                i <= ids@.len(),
                closed@.len() == i,
                forall|j: int|
                    0 <= j < i && self.sequences().contains_key(#[trigger] ids@[j]) ==> answered(
                        self.sequences()[ids@[j]].event_tx,
                        closed@[j],
                    ),
            decreases ids@.len() - i,
        {
            let gone: bool = match self.active.get(&ids[i]) {
                Some(seq) => {
                    assert(self.sequences()[ids@[i as int]] == seq@);
                    is_closed(&seq.event_tx)
                },
                None => false,
            };
            closed.push(gone);
            i = i + 1;
        }
        closed
    }

    /// What [`BatchScheduler::schedule`] does, whatever order the map gives its keys out
    /// in, and whatever the clients answer that are to be decoded.
    pub open spec fn scheduled(
        self,
        after: Self,
        lim: Limits,
        res: SchedulerDecision,
        decode_order: Seq<u64>,
        closed: Seq<bool>,
        chunked_order: Seq<u64>,
    ) -> bool {
        let decode_ids = ids_where(self.sequences(), decode_order, true);
        let chunked_ids = ids_where(self.sequences(), chunked_order, false);
        &&& orders(self.sequences(), decode_order)
        &&& orders(self.sequences(), chunked_order)
        &&& all_answered(self.sequences(), decode_ids, closed)
        &&& Self::shows(
            self.empty_batch().planned(lim, decode_ids, closed, chunked_ids),
            after,
            res,
        )
    }

    /// Build the batch for this iteration.
    ///
    /// Policy: decode-priority with prefill slots.
    /// 1. Include all active decodes (cheap, latency-sensitive).
    /// 2. Continue chunked prefills for partially-prefilled sequences.
    /// 3. Admit new requests if capacity and memory allow.
    ///
    /// `reserved_blocks` is the number of blocks that new requests must leave free.
    pub fn schedule(&mut self, cache: &PagedKvCacheManager, reserved_blocks: usize) -> (res:
        SchedulerDecision)
        requires
            old(self).countable(),
        ensures
            final(self).countable(),
            final(self).same_settings(old(self)),
            exists|decode_order: Seq<u64>, closed: Seq<bool>, chunked_order: Seq<u64>| #[trigger]
                old(self).scheduled(
                    *final(self),
                    old(self).limits(cache.blocks().free().len() as usize, reserved_blocks),
                    res,
                    decode_order,
                    closed,
                    chunked_order,
                ),
    {
        let ghost before = *self;
        let free_blocks: usize = cache.num_free_blocks();
        let decode_ids = self.collect_ids(true);
        let closed = self.ask_closed(&decode_ids);
        let chunked_ids = self.collect_ids(false);
        let res = self.plan(
            decode_ids.as_slice(),
            closed.as_slice(),
            chunked_ids.as_slice(),
            free_blocks,
            reserved_blocks,
        );
        proof {
            let a = choose|order: Seq<u64>|
                orders(before.sequences(), order) && decode_ids@ == #[trigger] ids_where(
                    before.sequences(),
                    order,
                    true,
                );
            let b = choose|order: Seq<u64>|
                orders(before.sequences(), order) && chunked_ids@ == #[trigger] ids_where(
                    before.sequences(),
                    order,
                    false,
                );
            assert(old(self).scheduled(
                *self,
                old(self).limits(cache.blocks().free().len() as usize, reserved_blocks),
                res,
                a,
                closed@,
                b,
            ));
        }
        res
    }

    /// What the clients of those of the sequences in `order` that have ended are told.
    pub fn finished_notices(&self, order: &[u64]) -> (res: Vec<(u64, GenerationEvent)>)
        ensures
            res@ == notices(self.sequences(), order@, order@.len() as int),
    {
        let mut out: Vec<(u64, GenerationEvent)> = Vec::new();
        let mut i: usize = 0;
        while i < order.len()
            invariant
                i <= order@.len(),
                out@ == notices(self.sequences(), order@, i as int),
            decreases order@.len() - i,
        {
            let id: u64 = order[i];
            if let Some(seq) = self.active.get(&id) {
                assert(self.sequences()[id] == seq@);
                if let Some(event) = seq.finished_event() {
                    out.push((id, event));
                }
            }
            i = i + 1;
        }
        out
    }

    /// Removes those of the sequences in `order` that have ended or whose client is gone.
    pub fn remove_completed(&mut self, order: &[u64], closed: &[bool]) -> (res: Vec<
        (u64, CacheHandle),
    >)
        requires
            order@.len() == closed@.len(),
        ensures
            res@ == leaving(old(self).sequences(), order@, closed@, order@.len() as int),
            final(self).sequences() == without(old(self).sequences(), res@),
            final(self).prefill_queue == old(self).prefill_queue,
            final(self).same_settings(old(self)),
    {
        let mut gone: Vec<(u64, CacheHandle)> = Vec::new();
        let mut i: usize = 0;
        while i < order.len()
            invariant
                i <= order@.len() == closed@.len(),
                *self == *old(self),
                gone@ == leaving(old(self).sequences(), order@, closed@, i as int),
            decreases order@.len() - i,
        {
            let id: u64 = order[i];
            if let Some(seq) = self.active.get(&id) {
                assert(self.sequences()[id] == seq@);
                if seq.finished_event().is_some() || closed[i] {
                    gone.push((id, seq.handle));
                }
            }
            i = i + 1;
        }
        let ghost seqs = self.sequences();
        i = 0;
        assert(gone@.take(0) =~= Seq::empty());
        while i < gone.len()
            invariant
                i <= gone@.len(),
                self.sequences() == without(seqs, gone@.take(i as int)),
                self.prefill_queue == old(self).prefill_queue,
                self.same_settings(old(self)),
            decreases gone@.len() - i,
        {
            let ghost now = self.sequences();
            let id: u64 = gone[i].0;
            self.active.remove(&id);
            assert(self.sequences() =~= now.remove(id));
            assert(gone@.take(i + 1).drop_last() =~= gone@.take(i as int));
            i = i + 1;
        }
        assert(gone@.take(i as int) =~= gone@);
        gone
    }

    /// What [`BatchScheduler::cleanup_completed`] does, whatever order the map gives its
    /// keys out in, and whatever the clients answer.
    pub open spec fn cleaned(
        self,
        gone: Seq<(u64, CacheHandle)>,
        order: Seq<u64>,
        closed: Seq<bool>,
    ) -> bool {
        let n = order.len() as int;
        &&& orders(self.sequences(), order)
        &&& all_answered(self.sequences(), order, closed)
        &&& all_sent(self.sequences(), notices(self.sequences(), order, n))
        &&& gone == leaving(self.sequences(), order, closed, n)
    }

    /// Remove completed or disconnected sequences, after the clients of those that
    /// completed are told. Returns the list of cache handles to free.
    ///
    /// What the clients are told is [`BatchScheduler::finished_notices`].
    pub fn cleanup_completed(&mut self) -> (res: Vec<(u64, CacheHandle)>)
        ensures
            final(self).prefill_queue == old(self).prefill_queue,
            final(self).same_settings(old(self)),
            final(self).sequences() == without(old(self).sequences(), res@),
            exists|order: Seq<u64>, closed: Seq<bool>| #[trigger]
                old(self).cleaned(res@, order, closed),
    {
        let order = map_keys(&self.active);
        let closed = self.ask_closed(&order);
        let told = self.finished_notices(order.as_slice());
        let ghost seqs = self.sequences();
        let ghost all = told@;
        proof {
            notices_are_active(seqs, order@, order@.len() as int);
        }
        for notice in it: told
            invariant
                *self == *old(self),
                seqs == self.sequences(),
                it.seq() == all,
                forall|j: int| 0 <= j < all.len() ==> seqs.contains_key((#[trigger] all[j]).0),
                forall|j: int|
                    0 <= j < it.index() ==> sent(
                        seqs[(#[trigger] all[j]).0].event_tx,
                        all[j].1,
                    ),
        {
            let (id, event) = notice;
            if let Some(seq) = self.active.get(&id) {
                assert(seqs[id] == seq@);
                send_event(&seq.event_tx, event);
            }
        }
        assert(orders(self.sequences(), order@)) by {
            assert(self.sequences().dom() =~= self.active@.dom());
            assert forall|k: u64| #[trigger]
                self.sequences().contains_key(k) <==> order@.contains(k) by {
                assert(self.active@.contains_key(k) <==> order@.contains(k));
            }
        }
        let res = self.remove_completed(order.as_slice(), closed.as_slice());
        assert(old(self).cleaned(res@, order@, closed@));
        res
    }

    /// Whether there's any work to do (pending requests or active sequences).
    pub fn has_work(&self) -> (res: bool)
        ensures
            res == (self.waiting().len() > 0 || self.active@.len() > 0),
    {
        self.prefill_queue.len() > 0 || self.active.len() > 0
    }

    /// Number of active sequences.
    pub fn num_active(&self) -> (res: usize)
        ensures
            res == self.active@.len(),
    {
        self.active.len()
    }

    /// Number of pending requests.
    pub fn num_pending(&self) -> (res: usize)
        ensures
            res == self.waiting().len(),
    {
        self.prefill_queue.len()
    }
}

} // verus!

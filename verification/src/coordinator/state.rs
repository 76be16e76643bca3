//! Sequence state management for the coordinator.
//!
//! Tracks the lifecycle of every active inference sequence across the
//! distributed pipeline: status, position, generated tokens, and which
//! workers have active KV cache for the sequence.
use crate::base::error::{FractureError, Result};
use crate::base::keys::map_keys;
use crate::base::text::{decimal, numbered};
use std::collections::HashMap;
use vstd::prelude::*;
use vstd::string::StringExecFns;

verus! {

broadcast use vstd::std_specs::hash::group_hash_axioms;

/// Status of an inference sequence.
#[derive(Debug, Clone, Copy, PartialEq, Eq, Structural)]
pub enum SequenceStatus {
    Prefilling,
    Decoding,
    Complete,
    Error,
}

impl SequenceStatus {
    /// The name of the status.
    pub open spec fn name(self) -> Seq<char> {
        match self {
            SequenceStatus::Prefilling => "Prefilling"@,
            SequenceStatus::Decoding => "Decoding"@,
            SequenceStatus::Complete => "Complete"@,
            SequenceStatus::Error => "Error"@,
        }
    }

    fn as_text(self) -> (res: &'static str)
        ensures
            res@ == self.name(),
    {
        match self {
            SequenceStatus::Prefilling => "Prefilling",
            SequenceStatus::Decoding => "Decoding",
            SequenceStatus::Complete => "Complete",
            SequenceStatus::Error => "Error",
        }
    }

    /// The sequence is being worked on.
    pub open spec fn active(self) -> bool {
        self == SequenceStatus::Prefilling || self == SequenceStatus::Decoding
    }
}

/// Per-sequence state tracked by the coordinator.
#[derive(Debug, Clone)]
pub struct SequenceState {
    pub seq_id: u64,
    pub status: SequenceStatus,
    /// Next position to generate.
    pub current_pos: usize,
    /// Maximum tokens to generate.
    pub max_tokens: usize,
    /// Token IDs generated so far.
    pub generated_tokens: Vec<u32>,
    /// Node IDs that have active KV cache for this sequence.
    pub cache_allocated_on: Vec<String>,
}

/// What is known of a sequence.
#[verifier::ext_equal]
pub struct SequenceInfo {
    pub seq_id: u64,
    pub status: SequenceStatus,
    pub current_pos: usize,
    pub max_tokens: usize,
    pub generated_tokens: Seq<u32>,
    pub cache_allocated_on: Seq<String>,
}

impl View for SequenceState {
    type V = SequenceInfo;

    open spec fn view(&self) -> SequenceInfo {
        SequenceInfo {
            seq_id: self.seq_id,
            status: self.status,
            current_pos: self.current_pos,
            max_tokens: self.max_tokens,
            generated_tokens: self.generated_tokens@,
            cache_allocated_on: self.cache_allocated_on@,
        }
    }
}

/// The error of an operation on a sequence that does not exist.
pub open spec fn is_unknown_sequence(e: FractureError, seq_id: u64) -> bool {
    e.is_pipeline("unknown sequence: "@ + decimal(seq_id as nat))
}

fn unknown_sequence(seq_id: u64) -> (res: FractureError)
    ensures
        is_unknown_sequence(res, seq_id),
{
    FractureError::Pipeline(numbered("unknown sequence: ", seq_id))
}

/// The sequences of a manager, and the ID that the next one gets.
#[verifier::ext_equal]
pub struct ManagerInfo {
    pub seqs: Map<u64, SequenceInfo>,
    pub next: u64,
}

/// A call that changes a manager.
pub enum StateCall {
    Create { prompt_len: usize, max_tokens: usize, node_ids: Seq<String> },
    BeginDecoding { id: u64 },
    RecordToken { id: u64, token: u32 },
    Complete { id: u64 },
    MarkError { id: u64 },
    Remove { id: u64 },
}

impl ManagerInfo {
    /// A new manager.
    pub open spec fn fresh() -> Self {
        ManagerInfo { seqs: Map::empty(), next: 1 }
    }

    /// The sequences that are being worked on.
    pub open spec fn active_ids(self) -> Set<u64> {
        self.seqs.dom().filter(|id: u64| self.seqs[id].status.active())
    }

    /// The sequence is being worked on.
    pub open spec fn is_active(self, id: u64) -> bool {
        self.seqs.contains_key(id) && self.seqs[id].status.active()
    }

    /// With the status of a sequence set, if there is the sequence.
    pub open spec fn with_status(self, id: u64, status: SequenceStatus) -> Self {
        if self.seqs.contains_key(id) {
            ManagerInfo {
                seqs: self.seqs.insert(id, SequenceInfo { status, ..self.seqs[id] }),
                ..self
            }
        } else {
            self
        }
    }

    /// What a call makes of a manager.
    pub open spec fn after(self, call: StateCall) -> Self {
        match call {
            StateCall::Create { prompt_len, max_tokens, node_ids } => ManagerInfo {
                seqs: self.seqs.insert(
                    self.next,
                    SequenceInfo {
                        seq_id: self.next,
                        status: SequenceStatus::Prefilling,
                        current_pos: prompt_len,
                        max_tokens,
                        generated_tokens: Seq::empty(),
                        cache_allocated_on: node_ids,
                    },
                ),
                next: (self.next + 1) as u64,
            },
            StateCall::BeginDecoding { id } => if self.seqs.contains_key(id) && self.seqs[id].status
                == SequenceStatus::Prefilling {
                self.with_status(id, SequenceStatus::Decoding)
            } else {
                self
            },
            StateCall::RecordToken { id, token } => if self.seqs.contains_key(id)
                && self.seqs[id].status == SequenceStatus::Decoding {
                let s = self.seqs[id];
                ManagerInfo {
                    seqs: self.seqs.insert(
                        id,
                        SequenceInfo {
                            generated_tokens: s.generated_tokens.push(token),
                            current_pos: (s.current_pos + 1) as usize,
                            ..s
                        },
                    ),
                    ..self
                }
            } else {
                self
            },
            StateCall::Complete { id } => self.with_status(id, SequenceStatus::Complete),
            StateCall::MarkError { id } => self.with_status(id, SequenceStatus::Error),
            StateCall::Remove { id } => ManagerInfo { seqs: self.seqs.remove(id), ..self },
        }
    }

    /// What calls make of a manager, one after the other.
    pub open spec fn after_all(self, calls: Seq<StateCall>) -> Self
        decreases calls.len(),
    {
        if calls.len() == 0 {
            self
        } else {
            self.after_all(calls.drop_last()).after(calls.last())
        }
    }
}

/// How many of the calls create a sequence.
pub open spec fn creates(calls: Seq<StateCall>) -> int
    decreases calls.len(),
{
    if calls.len() == 0 {
        0
    } else {
        creates(calls.drop_last()) + if calls.last() is Create {
            1int
        } else {
            0
        }
    }
}

/// Manages all active sequences.
pub struct SequenceStateManager {
    sequences: HashMap<u64, SequenceState>,
    next_id: u64,
}

impl Default for SequenceStateManager {
    fn default() -> (res: Self)
        ensures
            res.wf(),
            res.seqs() == Map::<u64, SequenceInfo>::empty(),
            res.next() == 1,
    {
        SequenceStateManager::new()
    }
}

impl SequenceStateManager {
    /// What is known of each sequence, by ID.
    pub closed spec fn seqs(&self) -> Map<u64, SequenceInfo> {
        self.sequences@.map_values(|s: SequenceState| s@)
    }

    /// The ID that the next sequence gets.
    pub closed spec fn next(&self) -> u64 {
        self.next_id
    }

    /// The sequences and the next ID.
    pub open spec fn info(&self) -> ManagerInfo {
        ManagerInfo { seqs: self.seqs(), next: self.next() }
    }

    /// Every sequence is kept under its own ID, which is below the next one.
    pub open spec fn wf(&self) -> bool {
        forall|id: u64| #[trigger]
            self.seqs().contains_key(id) ==> id < self.next() && self.seqs()[id].seq_id == id
    }

    /// Every sequence that is still there is what an operation can make of it.
    pub open spec fn proceeds_to(&self, after: &Self) -> bool {
        forall|id: u64| #[trigger]
            after.seqs().contains_key(id) && self.seqs().contains_key(id)
                ==> self.seqs()[id].may_become(after.seqs()[id])
    }

    /// The sequences that are being worked on.
    pub open spec fn active_ids(&self) -> Set<u64> {
        self.info().active_ids()
    }

    pub fn new() -> (res: Self)
        ensures
            res.wf(),
            res.seqs() == Map::<u64, SequenceInfo>::empty(),
            res.next() == 1,
    {
        let res = SequenceStateManager { sequences: HashMap::new(), next_id: 1 };
        assert(res.seqs() =~= Map::<u64, SequenceInfo>::empty());
        res
    }

    /// Create a new sequence. Returns the assigned seq_id.
    pub fn create(&mut self, prompt_len: usize, max_tokens: usize, node_ids: Vec<String>) -> (res:
        u64)
        requires
            old(self).wf(),
            old(self).next() < u64::MAX,
        ensures
            final(self).wf(),
            final(self).info() == old(self).info().after(
                StateCall::Create { prompt_len, max_tokens, node_ids: node_ids@ },
            ),
            old(self).proceeds_to(final(self)),
            res == old(self).next(),
            final(self).next() == res + 1,
            !old(self).seqs().contains_key(res),
            final(self).seqs() == old(self).seqs().insert(
                res,
                SequenceInfo {
                    seq_id: res,
                    status: SequenceStatus::Prefilling,
                    current_pos: prompt_len,
                    max_tokens,
                    generated_tokens: Seq::empty(),
                    cache_allocated_on: node_ids@,
                },
            ),
    {
        let seq_id: u64 = self.next_id;
        self.next_id = self.next_id + 1;
        let s = SequenceState {
            seq_id,
            status: SequenceStatus::Prefilling,
            current_pos: prompt_len,
            max_tokens,
            generated_tokens: Vec::new(),
            cache_allocated_on: node_ids,
        };
        let ghost info = s@;
        assert(info.generated_tokens =~= Seq::empty());
        self.sequences.insert(seq_id, s);
        assert(self.seqs() =~= old(self).seqs().insert(seq_id, info));
        seq_id
    }

    /// Puts a sequence that was taken out back in.
    fn put(&mut self, seq_id: u64, s: SequenceState)
        ensures
            final(self).seqs() == old(self).seqs().insert(seq_id, s@),
            final(self).next() == old(self).next(),
    {
        let ghost info = s@;
        self.sequences.insert(seq_id, s);
        assert(self.seqs() =~= old(self).seqs().insert(seq_id, info));
    }

    /// Takes a sequence out.
    fn take(&mut self, seq_id: u64) -> (res: Option<SequenceState>)
        ensures
            res is Some <==> old(self).seqs().contains_key(seq_id),
            res matches Some(s) ==> s@ == old(self).seqs()[seq_id],
            final(self).seqs() == old(self).seqs().remove(seq_id),
            final(self).next() == old(self).next(),
    {
        let res = self.sequences.remove(&seq_id);
        assert(self.seqs() =~= old(self).seqs().remove(seq_id));
        res
    }

    /// Transition from Prefilling to Decoding.
    pub fn begin_decoding(&mut self, seq_id: u64) -> (res: Result<()>)
        requires
            old(self).wf(),
        ensures
            final(self).wf(),
            final(self).info() == old(self).info().after(StateCall::BeginDecoding { id: seq_id }),
            old(self).proceeds_to(final(self)),
            final(self).next() == old(self).next(),
            res is Ok <==> old(self).seqs().contains_key(seq_id) && old(
                self,
            ).seqs()[seq_id].status == SequenceStatus::Prefilling,
            res is Ok ==> final(self).seqs() == old(self).seqs().insert(
                seq_id,
                SequenceInfo {
                    status: SequenceStatus::Decoding,
                    ..old(self).seqs()[seq_id]
                },
            ),
            res matches Err(e) ==> final(self).seqs() == old(self).seqs() && if old(
                self,
            ).seqs().contains_key(seq_id) {
                e.is_pipeline(
                    "seq "@ + decimal(seq_id as nat) + ": cannot transition to Decoding from "@
                        + old(self).seqs()[seq_id].status.name(),
                )
            } else {
                is_unknown_sequence(e, seq_id)
            },
    {
        match self.get(seq_id) {
            Ok(s) => {
                if s.status != SequenceStatus::Prefilling {
                    let mut m: String = numbered("seq ", seq_id);
                    m.append(": cannot transition to Decoding from ");
                    m.append(s.status.as_text());
                    return Err(FractureError::Pipeline(m));
                }
            },
            Err(e) => {
                return Err(e);
            },
        }
        if let Some(mut s) = self.take(seq_id) {
            s.status = SequenceStatus::Decoding;
            self.put(seq_id, s);
            assert(self.seqs() =~= old(self).seqs().insert(seq_id, s@));
        }
        Ok(())
    }

    /// Record a generated token and advance position.
    pub fn record_token(&mut self, seq_id: u64, token_id: u32) -> (res: Result<()>)
        requires
            old(self).wf(),
            old(self).seqs().contains_key(seq_id) && old(self).seqs()[seq_id].status
                == SequenceStatus::Decoding ==> old(self).seqs()[seq_id].current_pos < usize::MAX,
        ensures
            final(self).wf(),
            final(self).info() == old(self).info().after(
                StateCall::RecordToken { id: seq_id, token: token_id },
            ),
            old(self).proceeds_to(final(self)),
            final(self).next() == old(self).next(),
            res is Ok <==> old(self).seqs().contains_key(seq_id) && old(
                self,
            ).seqs()[seq_id].status == SequenceStatus::Decoding,
            res is Ok ==> final(self).seqs() == old(self).seqs().insert(
                seq_id,
                SequenceInfo {
                    generated_tokens: old(self).seqs()[seq_id].generated_tokens.push(token_id),
                    current_pos: (old(self).seqs()[seq_id].current_pos + 1) as usize,
                    ..old(self).seqs()[seq_id]
                },
            ),
            res matches Err(e) ==> final(self).seqs() == old(self).seqs() && if old(
                self,
            ).seqs().contains_key(seq_id) {
                e.is_pipeline(
                    "seq "@ + decimal(seq_id as nat) + ": cannot record token in "@ + old(
                        self,
                    ).seqs()[seq_id].status.name() + " state"@,
                )
            } else {
                is_unknown_sequence(e, seq_id)
            },
    {
        match self.get(seq_id) {
            Ok(s) => {
                if s.status != SequenceStatus::Decoding {
                    let mut m: String = numbered("seq ", seq_id);
                    m.append(": cannot record token in ");
                    m.append(s.status.as_text());
                    m.append(" state");
                    return Err(FractureError::Pipeline(m));
                }
            },
            Err(e) => {
                return Err(e);
            },
        }
        if let Some(mut s) = self.take(seq_id) {
            s.generated_tokens.push(token_id);
            s.current_pos = s.current_pos + 1;
            self.put(seq_id, s);
            assert(self.seqs() =~= old(self).seqs().insert(seq_id, s@));
        }
        Ok(())
    }

    /// Ends a sequence with this status.
    fn set_status(&mut self, seq_id: u64, status: SequenceStatus) -> (res: Result<()>)
        requires
            old(self).wf(),
            !status.active(),
        ensures
            final(self).wf(),
            old(self).proceeds_to(final(self)),
            final(self).next() == old(self).next(),
            res is Ok <==> old(self).seqs().contains_key(seq_id),
            res is Ok ==> final(self).seqs() == old(self).seqs().insert(
                seq_id,
                SequenceInfo { status, ..old(self).seqs()[seq_id] },
            ),
            res matches Err(e) ==> final(self).seqs() == old(self).seqs() && is_unknown_sequence(
                e,
                seq_id,
            ),
    {
        match self.take(seq_id) {
            Some(mut s) => {
                s.status = status;
                self.put(seq_id, s);
                assert(self.seqs() =~= old(self).seqs().insert(seq_id, s@));
                Ok(())
            },
            None => {
                assert(self.seqs() =~= old(self).seqs());
                Err(unknown_sequence(seq_id))
            },
        }
    }

    /// Mark sequence as complete.
    pub fn complete(&mut self, seq_id: u64) -> (res: Result<()>)
        requires
            old(self).wf(),
        ensures
            final(self).wf(),
            final(self).info() == old(self).info().after(StateCall::Complete { id: seq_id }),
            old(self).proceeds_to(final(self)),
            final(self).next() == old(self).next(),
            res is Ok <==> old(self).seqs().contains_key(seq_id),
            res is Ok ==> final(self).seqs() == old(self).seqs().insert(
                seq_id,
                SequenceInfo { status: SequenceStatus::Complete, ..old(self).seqs()[seq_id] },
            ),
            res matches Err(e) ==> final(self).seqs() == old(self).seqs() && is_unknown_sequence(
                e,
                seq_id,
            ),
    {
        self.set_status(seq_id, SequenceStatus::Complete)
    }

    /// Mark sequence as errored.
    pub fn mark_error(&mut self, seq_id: u64) -> (res: Result<()>)
        requires
            old(self).wf(),
        ensures
            final(self).wf(),
            final(self).info() == old(self).info().after(StateCall::MarkError { id: seq_id }),
            old(self).proceeds_to(final(self)),
            final(self).next() == old(self).next(),
            res is Ok <==> old(self).seqs().contains_key(seq_id),
            res is Ok ==> final(self).seqs() == old(self).seqs().insert(
                seq_id,
                SequenceInfo { status: SequenceStatus::Error, ..old(self).seqs()[seq_id] },
            ),
            res matches Err(e) ==> final(self).seqs() == old(self).seqs() && is_unknown_sequence(
                e,
                seq_id,
            ),
    {
        self.set_status(seq_id, SequenceStatus::Error)
    }

    /// Remove a sequence (after cache is freed on all workers).
    pub fn remove(&mut self, seq_id: u64) -> (res: Option<SequenceState>)
        requires
            old(self).wf(),
        ensures
            final(self).wf(),
            final(self).info() == old(self).info().after(StateCall::Remove { id: seq_id }),
            old(self).proceeds_to(final(self)),
            final(self).next() == old(self).next(),
            res is Some <==> old(self).seqs().contains_key(seq_id),
            res matches Some(s) ==> s@ == old(self).seqs()[seq_id],
            final(self).seqs() == old(self).seqs().remove(seq_id),
    {
        self.take(seq_id)
    }

    /// Get sequence state.
    pub fn get(&self, seq_id: u64) -> (res: Result<&SequenceState>)
        ensures
            res is Ok <==> self.seqs().contains_key(seq_id),
            res matches Ok(s) ==> s@ == self.seqs()[seq_id],
            res matches Err(e) ==> is_unknown_sequence(e, seq_id),
    {
        match self.sequences.get(&seq_id) {
            Some(s) => Ok(s),
            None => Err(unknown_sequence(seq_id)),
        }
    }

    /// Check if a sequence has reached its token limit.
    pub fn is_at_limit(&self, seq_id: u64) -> (res: Result<bool>)
        ensures
            res is Ok <==> self.seqs().contains_key(seq_id),
            res matches Ok(b) ==> b == (self.seqs()[seq_id].generated_tokens.len()
                >= self.seqs()[seq_id].max_tokens),
            res matches Err(e) ==> is_unknown_sequence(e, seq_id),
    {
        match self.get(seq_id) {
            Ok(s) => Ok(s.generated_tokens.len() >= s.max_tokens),
            Err(e) => Err(e),
        }
    }

    /// Number of active (non-complete, non-error) sequences.
    pub fn active_count(&self) -> (res: usize)
        ensures
            self.active_ids().finite(),
            res == self.active_ids().len(),
    {
        let keys = map_keys(&self.sequences);
        let mut count: usize = 0;
        let ghost mut got: Set<u64> = Set::empty();
        let mut i: usize = 0;
        while i < keys.len()
            invariant
                i <= keys@.len(),
                crate::base::keys::orders(self.sequences@, keys@),
                got.finite(),
                count == got.len(),
                count <= i,
                forall|id: u64| #[trigger]
                    got.contains(id) <==> keys@.take(i as int).contains(id)
                        && self.seqs()[id].status.active(),
            decreases keys@.len() - i,
        {
            let id: u64 = keys[i];
            assert(keys@.contains(id));
            let ghost before = got;
            assert(!keys@.take(i as int).contains(id));
            if let Some(s) = self.sequences.get(&id) {
                assert(self.seqs()[id] == s@);
                if s.status == SequenceStatus::Prefilling || s.status == SequenceStatus::Decoding {
                    count = count + 1;
                    proof {
                        got = got.insert(id);
                    }
                }
            }
            proof {
                assert(keys@.take(i + 1) =~= keys@.take(i as int).push(id));
                assert forall|x: u64| #[trigger] got.contains(x) <==> keys@.take(i + 1).contains(x)
                    && self.seqs()[x].status.active() by {
                    if keys@.take(i as int).contains(x) {
                        let j = choose|j: int|
                            0 <= j < i && #[trigger] keys@.take(i as int)[j] == x;
                        assert(keys@.take(i + 1)[j] == x);
                    }
                    if keys@.take(i + 1).contains(x) && x != id {
                        let j = choose|j: int|
                            0 <= j < i + 1 && #[trigger] keys@.take(i + 1)[j] == x;
                        assert(keys@.take(i as int)[j] == x);
                    }
                    if x == id {
                        assert(keys@.take(i + 1)[i as int] == id);
                        assert(before.contains(x) <==> keys@.take(i as int).contains(x)
                            && self.seqs()[x].status.active());
                    }
                }
            }
            i = i + 1;
        }
        proof {
            assert(keys@.take(i as int) =~= keys@);
            assert(got =~= self.active_ids()) by {
                assert forall|x: u64| got.contains(x) <==> self.active_ids().contains(x) by {
                    assert(self.sequences@.contains_key(x) <==> keys@.contains(x));
                }
            }
        }
        count
    }
}

impl SequenceInfo {
    /// What the operations can make of a sequence: it decodes after it was prefilled,
    /// records tokens while it decodes, and can be marked complete or failed at any time.
    pub open spec fn may_become(self, after: SequenceInfo) -> bool {
        ||| after == self
        ||| after == (SequenceInfo { status: SequenceStatus::Complete, ..self })
        ||| after == (SequenceInfo { status: SequenceStatus::Error, ..self })
        ||| self.status == SequenceStatus::Prefilling && after == (SequenceInfo {
            status: SequenceStatus::Decoding,
            ..self
        })
        ||| self.status == SequenceStatus::Decoding && exists|token: u32|
            after == (SequenceInfo {
                generated_tokens: #[trigger] self.generated_tokens.push(token),
                current_pos: (self.current_pos + 1) as usize,
                ..self
            })
    }
}

/// A sequence that is complete or has failed does not become active again, and its tokens,
/// its position and the list of nodes that cache it stay as they are.
pub proof fn finished_sequences_stay_finished(before: SequenceInfo, after: SequenceInfo)
    requires
        !before.status.active(),
        before.may_become(after),
    ensures
        !after.status.active(),
        after.generated_tokens == before.generated_tokens,
        after.current_pos == before.current_pos,
        after.cache_allocated_on == before.cache_allocated_on,
{
}

/// A sequence's tokens are only ever added to, its position moves with them, and its ID,
/// its limit and the nodes that cache it never change.
pub proof fn tokens_and_position_move_together(before: SequenceInfo, after: SequenceInfo)
    requires
        before.may_become(after),
        before.current_pos < usize::MAX,
    ensures
        before.generated_tokens.is_prefix_of(after.generated_tokens),
        after.current_pos - before.current_pos == after.generated_tokens.len()
            - before.generated_tokens.len(),
        after.seq_id == before.seq_id,
        after.max_tokens == before.max_tokens,
        after.cache_allocated_on == before.cache_allocated_on,
{
}

/// More calls create no fewer sequences.
proof fn creates_grow(calls: Seq<StateCall>, j: int, k: int)
    requires
        0 <= j <= k <= calls.len(),
    ensures
        0 <= creates(calls.take(j)) <= creates(calls.take(k)),
    decreases k,
{
    if k > 0 {
        assert(calls.take(k).drop_last() =~= calls.take(k - 1));
        if j < k {
            creates_grow(calls, j, k - 1);
        } else {
            creates_grow(calls, j - 1, j - 1);
        }
    }
}

/// Whatever is done to a new manager, the next ID counts the sequences that were created,
/// and every sequence has an ID below it: no more sequences are kept than were created.
pub proof fn ids_count_up(calls: Seq<StateCall>)
    requires
        creates(calls) < u64::MAX,
    ensures
        ({
            let m = ManagerInfo::fresh().after_all(calls);
            &&& m.next == 1 + creates(calls)
            &&& m.seqs.dom().finite()
            &&& forall|id: u64| #[trigger]
                m.seqs.contains_key(id) ==> 1 <= id < m.next && m.seqs[id].seq_id == id
        }),
    decreases calls.len(),
{
    if calls.len() > 0 {
        let front = calls.drop_last();
        creates_grow(calls, calls.len() - 1, calls.len() as int);
        creates_grow(calls, 0, calls.len() - 1);
        assert(calls.take(calls.len() as int) =~= calls);
        assert(calls.take(calls.len() - 1) =~= front);
        ids_count_up(front);
    }
}

/// A sequence that is created is new: whatever was done before, its ID is one more than the
/// last that was given, also where that sequence was removed, so that no ID is given twice.
/// It starts with its prompt, and every other sequence is unchanged.
pub proof fn created_sequences_are_new(
    calls: Seq<StateCall>,
    prompt_len: usize,
    max_tokens: usize,
    node_ids: Seq<String>,
)
    requires
        creates(calls) < u64::MAX - 1,
    ensures
        ({
            let m = ManagerInfo::fresh().after_all(calls);
            let id = m.next;
            let after = m.after(StateCall::Create { prompt_len, max_tokens, node_ids });
            &&& id == 1 + creates(calls)
            &&& !m.seqs.contains_key(id)
            &&& after.next == id + 1
            &&& after.seqs.contains_key(id)
            &&& after.seqs[id] == (SequenceInfo {
                seq_id: id,
                status: SequenceStatus::Prefilling,
                current_pos: prompt_len,
                max_tokens,
                generated_tokens: Seq::empty(),
                cache_allocated_on: node_ids,
            })
            &&& after.seqs.remove(id) == m.seqs
            // The IDs that were given before.
            &&& forall|k: int|
                0 <= k < calls.len() && #[trigger] calls[k] is Create
                    ==> ManagerInfo::fresh().after_all(calls.take(k)).next < id
        }),
{
    let m = ManagerInfo::fresh().after_all(calls);
    ids_count_up(calls);
    let after = m.after(StateCall::Create { prompt_len, max_tokens, node_ids });
    assert(after.seqs.remove(m.next) =~= m.seqs);
    assert forall|k: int| 0 <= k < calls.len() && #[trigger] calls[k] is Create implies
        ManagerInfo::fresh().after_all(calls.take(k)).next < m.next by {
        creates_grow(calls, k, k + 1);
        creates_grow(calls, k + 1, calls.len() as int);
        assert(calls.take(calls.len() as int) =~= calls);
        assert(calls.take(k + 1).drop_last() =~= calls.take(k));
        ids_count_up(calls.take(k));
    }
}

/// How the number of active sequences moves: a sequence that is created adds one, one that
/// decodes or records a token changes nothing, and one that ends or is removed takes one
/// off if it was active.
pub proof fn active_count_follows(m: ManagerInfo, call: StateCall)
    requires
        m.seqs.dom().finite(),
        !m.seqs.contains_key(m.next),
    ensures
        m.after(call).active_ids().finite(),
        m.after(call).active_ids().len() - m.active_ids().len() == match call {
            StateCall::Create { .. } => 1int,
            StateCall::BeginDecoding { .. } => 0,
            StateCall::RecordToken { .. } => 0,
            StateCall::Complete { id } | StateCall::MarkError { id } | StateCall::Remove { id } =>
            if m.is_active(id) {
                -1int
            } else {
                0
            },
        },
{
    let a = m.active_ids();
    let b = m.after(call).active_ids();
    match call {
        StateCall::Create { .. } => {
            assert(b =~= a.insert(m.next));
        },
        StateCall::BeginDecoding { .. } => {
            assert(b =~= a);
        },
        StateCall::RecordToken { .. } => {
            assert(b =~= a);
        },
        StateCall::Complete { id } => {
            assert(b =~= a.remove(id));
        },
        StateCall::MarkError { id } => {
            assert(b =~= a.remove(id));
        },
        StateCall::Remove { id } => {
            assert(b =~= a.remove(id));
        },
    }
}

} // verus!

//! What becomes of a sequence through the calls on it.
use crate::coordinator::state::{ManagerInfo, SequenceStatus, StateCall};
use vstd::prelude::*;

verus! {

/// The calls that record these tokens, in order.
pub open spec fn recording(id: u64, tokens: Seq<u32>) -> Seq<StateCall> {
    Seq::new(tokens.len(), |i: int| StateCall::RecordToken { id, token: tokens[i] })
}

/// A sequence that is created, decodes and records tokens has these tokens, in order. Its
/// position is the length of its prompt and of what it has generated, and what it was created
/// with stays. No other sequence is touched.
pub proof fn generations_are_recorded(
    m: ManagerInfo,
    prompt_len: usize,
    max_tokens: usize,
    node_ids: Seq<String>,
    tokens: Seq<u32>,
)
    requires
        prompt_len + tokens.len() <= usize::MAX,
    ensures
        ({
            let id = m.next;
            let created = m.after(StateCall::Create { prompt_len, max_tokens, node_ids });
            let begun = created.after(StateCall::BeginDecoding { id });
            let done = begun.after_all(recording(id, tokens));
            &&& done.seqs.contains_key(id)
            &&& done.seqs[id].seq_id == id
            &&& done.seqs[id].status == SequenceStatus::Decoding
            &&& done.seqs[id].generated_tokens == tokens
            &&& done.seqs[id].current_pos == prompt_len + tokens.len()
            &&& done.seqs[id].max_tokens == max_tokens
            &&& done.seqs[id].cache_allocated_on == node_ids
            &&& done.seqs.remove(id) == m.seqs.remove(id)
            &&& done.next == created.next
        }),
    decreases tokens.len(),
{
    let id = m.next;
    let created = m.after(StateCall::Create { prompt_len, max_tokens, node_ids });
    let begun = created.after(StateCall::BeginDecoding { id });
    let calls = recording(id, tokens);
    let done = begun.after_all(calls);
    assert(created.seqs.remove(id) =~= m.seqs.remove(id));
    assert(begun.seqs.remove(id) =~= m.seqs.remove(id));
    if tokens.len() > 0 {
        let front = tokens.drop_last();
        generations_are_recorded(m, prompt_len, max_tokens, node_ids, front);
        assert(calls.drop_last() =~= recording(id, front));
        let before = begun.after_all(recording(id, front));
        assert(done == before.after(StateCall::RecordToken { id, token: tokens.last() }));
        assert(front.push(tokens.last()) =~= tokens);
        assert(done.seqs.remove(id) =~= before.seqs.remove(id));
    } else {
        assert(done.seqs[id].generated_tokens =~= tokens);
    }
}

/// A sequence that is ended is complete or has failed, as the call says, and keeps everything
/// else. After that it neither decodes nor records tokens.
pub proof fn sequences_end_as_told(m: ManagerInfo, id: u64, failed: bool, token: u32)
    requires
        m.seqs.contains_key(id),
    ensures
        ({
            let ended = m.after(
                if failed {
                    StateCall::MarkError { id }
                } else {
                    StateCall::Complete { id }
                },
            );
            &&& ended.seqs.contains_key(id)
            &&& ended.seqs[id].status == SequenceStatus::Error <==> failed
            &&& ended.seqs[id].status == SequenceStatus::Complete <==> !failed
            &&& ended.seqs[id].seq_id == m.seqs[id].seq_id
            &&& ended.seqs[id].current_pos == m.seqs[id].current_pos
            &&& ended.seqs[id].max_tokens == m.seqs[id].max_tokens
            &&& ended.seqs[id].generated_tokens == m.seqs[id].generated_tokens
            &&& ended.seqs[id].cache_allocated_on == m.seqs[id].cache_allocated_on
            &&& ended.after(StateCall::BeginDecoding { id }) == ended
            &&& ended.after(StateCall::RecordToken { id, token }) == ended
        }),
{
}

/// The sequence that a call is about.
pub open spec fn subject(m: ManagerInfo, call: StateCall) -> u64 {
    match call {
        StateCall::Create { .. } => m.next,
        StateCall::BeginDecoding { id } => id,
        StateCall::RecordToken { id, .. } => id,
        StateCall::Complete { id } => id,
        StateCall::MarkError { id } => id,
        StateCall::Remove { id } => id,
    }
}

/// A call touches no sequence but its own, and only a sequence that is created takes an ID.
pub proof fn calls_touch_one_sequence(m: ManagerInfo, call: StateCall)
    ensures
        m.after(call).seqs.remove(subject(m, call)) == m.seqs.remove(subject(m, call)),
        !(call is Create) ==> m.after(call).next == m.next,
        !(call is Create) && !m.seqs.contains_key(subject(m, call)) ==> m.after(call).seqs
            == m.seqs,
{
    let id = subject(m, call);
    assert(m.after(call).seqs.remove(id) =~= m.seqs.remove(id));
    if !(call is Create) && !m.seqs.contains_key(id) {
        assert(m.after(call).seqs =~= m.seqs);
    }
}

/// A sequence that is created and removed leaves nothing behind but that its ID was given.
pub proof fn removal_undoes_creation(
    m: ManagerInfo,
    prompt_len: usize,
    max_tokens: usize,
    node_ids: Seq<String>,
)
    requires
        m.next < u64::MAX,
        !m.seqs.contains_key(m.next),
    ensures
        ({
            let created = m.after(StateCall::Create { prompt_len, max_tokens, node_ids });
            let removed = created.after(StateCall::Remove { id: m.next });
            &&& removed.seqs == m.seqs
            &&& removed.next == m.next + 1
        }),
{
    let created = m.after(StateCall::Create { prompt_len, max_tokens, node_ids });
    assert(created.seqs.remove(m.next) =~= m.seqs);
}

} // verus!

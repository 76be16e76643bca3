//! What holds of every batch, and of every clean-up.
use crate::base::keys::orders;
use crate::engine::kv_cache::CacheHandle;
use crate::engine::scheduler::{
    leaving, lesser, position, without, ActiveInfo, Batch, DecodeJob, Limits, PendingInfo,
    PrefillInfo,
};
use vstd::prelude::*;

verus! {

/// The tokens of all prefill jobs.
pub open spec fn prompt_tokens(jobs: Seq<PrefillInfo>) -> int
    decreases jobs.len(),
{
    if jobs.len() == 0 {
        0
    } else {
        prompt_tokens(jobs.drop_last()) + jobs.last().token_ids.len()
    }
}

/// The batch keeps all limits, and its token counts are those of its jobs.
pub open spec fn within(b: Batch, lim: Limits) -> bool {
    &&& b.decodes.len() + b.prefills.len() <= lim.batch_size
    &&& 0 <= b.total <= lim.batch_tokens
    &&& 0 <= b.prefill_tokens <= lim.prefill_tokens
    &&& b.prefill_tokens == prompt_tokens(b.prefills)
    &&& b.total == b.decodes.len() + b.prefill_tokens
}

proof fn decodes_within(b: Batch, lim: Limits, ids: Seq<u64>, closed: Seq<bool>, k: int)
    requires
        within(b, lim),
    ensures
        within(b.with_decodes(lim, ids, closed, k), lim),
        b.with_decodes(lim, ids, closed, k).queue == b.queue,
    decreases k,
{
    if k > 0 {
        decodes_within(b, lim, ids, closed, k - 1);
    }
}

proof fn chunks_within(b: Batch, lim: Limits, ids: Seq<u64>, k: int)
    requires
        within(b, lim),
    ensures
        within(b.with_chunks(lim, ids, k), lim),
        b.with_chunks(lim, ids, k).queue == b.queue,
        b.with_chunks(lim, ids, k).decodes == b.decodes,
    decreases k,
{
    if k > 0 {
        chunks_within(b, lim, ids, k - 1);
        let c = b.with_chunks(lim, ids, k - 1);
        let d = c.with_chunk(lim, ids[k - 1]);
        if d != c {
            assert(d.prefills.drop_last() =~= c.prefills);
        }
    }
}

proof fn requests_within(b: Batch, lim: Limits)
    requires
        within(b, lim),
    ensures
        within(b.with_requests(lim), lim),
        b.with_requests(lim).decodes == b.decodes,
        b.with_requests(lim).queue.len() <= b.queue.len(),
        b.with_requests(lim).queue == b.queue.skip(
            b.queue.len() - b.with_requests(lim).queue.len(),
        ),
    decreases b.queue.len(),
{
    if b.can_join(lim) {
        let c = b.joined(lim);
        assert(c.prefills.drop_last() =~= b.prefills);
        requests_within(c, lim);
        let n = c.queue.len() - c.with_requests(lim).queue.len();
        assert(c.queue.skip(n) =~= b.queue.skip(n + 1));
    } else {
        assert(b.queue.skip(0) =~= b.queue);
    }
}

/// A batch keeps the limits on jobs, on tokens and on prompt tokens, and its total is the
/// number of its decodes and of its prompt tokens.
pub proof fn batches_keep_limits(
    b: Batch,
    lim: Limits,
    decode_ids: Seq<u64>,
    closed: Seq<bool>,
    chunked_ids: Seq<u64>,
)
    requires
        within(b, lim),
    ensures
        within(b.planned(lim, decode_ids, closed, chunked_ids), lim),
{
    let d = b.with_decodes(lim, decode_ids, closed, decode_ids.len() as int);
    decodes_within(b, lim, decode_ids, closed, decode_ids.len() as int);
    chunks_within(d, lim, chunked_ids, chunked_ids.len() as int);
    requests_within(d.with_chunks(lim, chunked_ids, chunked_ids.len() as int), lim);
}

/// Requests are admitted in the order in which they came: those that still wait are the
/// last ones.
pub proof fn requests_are_served_in_order(
    b: Batch,
    lim: Limits,
    decode_ids: Seq<u64>,
    closed: Seq<bool>,
    chunked_ids: Seq<u64>,
)
    requires
        within(b, lim),
    ensures
        ({
            let after = b.planned(lim, decode_ids, closed, chunked_ids).queue;
            after.len() <= b.queue.len() && after == b.queue.skip(b.queue.len() - after.len())
        }),
{
    let d = b.with_decodes(lim, decode_ids, closed, decode_ids.len() as int);
    decodes_within(b, lim, decode_ids, closed, decode_ids.len() as int);
    chunks_within(d, lim, chunked_ids, chunked_ids.len() as int);
    requests_within(d.with_chunks(lim, chunked_ids, chunked_ids.len() as int), lim);
}

/// Decodes come first: neither prompts under way nor new requests change which sequences
/// are decoded.
pub proof fn decodes_come_first(
    b: Batch,
    lim: Limits,
    decode_ids: Seq<u64>,
    closed: Seq<bool>,
    chunked_ids: Seq<u64>,
)
    requires
        within(b, lim),
    ensures
        b.planned(lim, decode_ids, closed, chunked_ids).decodes == b.with_decodes(
            lim,
            decode_ids,
            closed,
            decode_ids.len() as int,
        ).decodes,
{
    let d = b.with_decodes(lim, decode_ids, closed, decode_ids.len() as int);
    decodes_within(b, lim, decode_ids, closed, decode_ids.len() as int);
    chunks_within(d, lim, chunked_ids, chunked_ids.len() as int);
    requests_within(d.with_chunks(lim, chunked_ids, chunked_ids.len() as int), lim);
}

/// The job decodes the last token that its sequence generated.
pub open spec fn decodes_last_token(active: Map<u64, ActiveInfo>, job: DecodeJob) -> bool {
    &&& active.contains_key(job.seq_id)
    &&& active[job.seq_id].generated_tokens.len() > 0
    &&& job.token_id == active[job.seq_id].generated_tokens.last()
    &&& job.position == position(active[job.seq_id].current_pos as int)
    &&& job.handle == active[job.seq_id].handle
}

proof fn decoded_last_tokens(b: Batch, lim: Limits, ids: Seq<u64>, closed: Seq<bool>, k: int)
    requires
        b.decodes.len() == 0,
    ensures
        b.with_decodes(lim, ids, closed, k).active == b.active,
        forall|i: int|
            0 <= i < b.with_decodes(lim, ids, closed, k).decodes.len() ==> decodes_last_token(
                b.active,
                #[trigger] b.with_decodes(lim, ids, closed, k).decodes[i],
            ),
    decreases k,
{
    if k > 0 {
        decoded_last_tokens(b, lim, ids, closed, k - 1);
    }
}

/// A sequence needs a token to decode: every decode job of a batch is for the last token
/// that its sequence generated, and a sequence that generated none has no job.
pub proof fn only_generated_tokens_are_decoded(
    b: Batch,
    lim: Limits,
    decode_ids: Seq<u64>,
    closed: Seq<bool>,
    chunked_ids: Seq<u64>,
)
    requires
        within(b, lim),
        b.decodes.len() == 0,
    ensures
        forall|i: int|
            0 <= i < b.planned(lim, decode_ids, closed, chunked_ids).decodes.len()
                ==> decodes_last_token(
                b.active,
                #[trigger] b.planned(lim, decode_ids, closed, chunked_ids).decodes[i],
            ),
{
    decodes_come_first(b, lim, decode_ids, closed, chunked_ids);
    decoded_last_tokens(b, lim, decode_ids, closed, decode_ids.len() as int);
}

/// In an empty batch that is large enough, and with all clients there, every sequence that
/// has a token is decoded, in order.
pub proof fn all_decodes_are_included(
    b: Batch,
    lim: Limits,
    ids: Seq<u64>,
    closed: Seq<bool>,
    k: int,
)
    requires
        b.decodes.len() == 0,
        b.prefills.len() == 0,
        b.total == 0,
        0 <= k <= ids.len() == closed.len(),
        ids.len() <= lim.batch_size,
        ids.len() <= lim.batch_tokens,
        forall|i: int|
            0 <= i < ids.len() ==> b.active.contains_key(#[trigger] ids[i])
                && b.active[ids[i]].generated_tokens.len() > 0,
        forall|i: int| 0 <= i < closed.len() ==> !(#[trigger] closed[i]),
    ensures
        b.with_decodes(lim, ids, closed, k).decodes.len() == k,
        b.with_decodes(lim, ids, closed, k).total == k,
        b.with_decodes(lim, ids, closed, k).prefills.len() == 0,
        b.with_decodes(lim, ids, closed, k).active == b.active,
        forall|i: int|
            0 <= i < k ==> (#[trigger] b.with_decodes(lim, ids, closed, k).decodes[i]).seq_id
                == ids[i],
    decreases k,
{
    if k > 0 {
        all_decodes_are_included(b, lim, ids, closed, k - 1);
        let c = b.with_decodes(lim, ids, closed, k - 1);
        assert(b.active.contains_key(ids[k - 1]));
        assert(!closed[k - 1]);
        let d = b.with_decodes(lim, ids, closed, k);
        assert forall|i: int| 0 <= i < k implies (#[trigger] d.decodes[i]).seq_id == ids[i] by {
            if i < k - 1 {
                assert(d.decodes[i] == c.decodes[i]);
            }
        }
    }
}

/// Prefilling in parts loses no token of a prompt: what a job takes and what remains make
/// up what remained before, and the position moves on by what was taken.
pub proof fn chunks_lose_no_token(b: Batch, lim: Limits, id: u64)
    requires
        within(b, lim),
        b.active.contains_key(id),
        b.active[id].countable(),
        b.with_chunk(lim, id) != b,
    ensures
        ({
            let after = b.with_chunk(lim, id);
            let job = after.prefills.last();
            let s = b.active[id];
            let t = after.active[id];
            &&& job.token_ids + t.remaining_prefill == s.remaining_prefill
            &&& t.current_pos == s.current_pos + job.token_ids.len()
            &&& job.positions.len() == job.token_ids.len()
            &&& s.remaining_prefill.len() > 0 ==> job.token_ids.len() > 0
        }),
{
    let s = b.active[id];
    let n = lesser(s.remaining_prefill.len() as int, b.prompt_room(lim));
    assert(s.remaining_prefill.take(n) + s.remaining_prefill.skip(n) =~= s.remaining_prefill);
}

/// A request that joins loses no token of its prompt.
pub proof fn joining_loses_no_token(b: Batch, lim: Limits)
    requires
        within(b, lim),
        b.can_join(lim),
    ensures
        ({
            let after = b.joined(lim);
            let r = b.queue[0];
            let job = after.prefills.last();
            let t = after.active[r.seq_id];
            &&& job.token_ids + t.remaining_prefill == r.prompt_tokens
            &&& t.current_pos == job.token_ids.len()
            &&& t.generated_tokens.len() == 0
            &&& job.positions.len() == job.token_ids.len()
        }),
{
    let r = b.queue[0];
    let n = lesser(r.prompt_tokens.len() as int, b.prompt_room(lim));
    assert(r.prompt_tokens.take(n) + r.prompt_tokens.skip(n) =~= r.prompt_tokens);
}

/// The prompt tokens that jobs hold of a sequence, in the order of the jobs.
pub open spec fn tokens_of(jobs: Seq<PrefillInfo>, id: u64) -> Seq<u32>
    decreases jobs.len(),
{
    if jobs.len() == 0 {
        Seq::empty()
    } else if jobs.last().seq_id == id {
        tokens_of(jobs.drop_last(), id) + jobs.last().token_ids
    } else {
        tokens_of(jobs.drop_last(), id)
    }
}

/// The prompt tokens of a sequence: those in jobs, and those that are left.
pub open spec fn prompt_of(b: Batch, id: u64) -> Seq<u32> {
    tokens_of(b.prefills, id) + b.active[id].remaining_prefill
}

/// No waiting request is for the sequence.
pub open spec fn not_waiting(queue: Seq<PendingInfo>, id: u64) -> bool {
    forall|i: int| 0 <= i < queue.len() ==> (#[trigger] queue[i]).seq_id != id
}

/// What becomes of a sequence between two states of a batch: its prompt tokens are the same,
/// in jobs or left, and its position has moved by those that went into jobs.
spec fn same_prompt(b: Batch, c: Batch, id: u64) -> bool {
    &&& b.active.contains_key(id) <==> c.active.contains_key(id)
    &&& b.active.contains_key(id) ==> prompt_of(c, id) == prompt_of(b, id)
        && c.active[id].current_pos + c.active[id].remaining_prefill.len()
        == b.active[id].current_pos + b.active[id].remaining_prefill.len()
    &&& !b.active.contains_key(id) ==> tokens_of(c.prefills, id) == tokens_of(b.prefills, id)
}

/// A job for another sequence adds nothing, and one for the sequence adds its tokens.
proof fn tokens_of_push(jobs: Seq<PrefillInfo>, job: PrefillInfo, id: u64)
    ensures
        tokens_of(jobs.push(job), id) == if job.seq_id == id {
            tokens_of(jobs, id) + job.token_ids
        } else {
            tokens_of(jobs, id)
        },
{
    assert(jobs.push(job).drop_last() =~= jobs);
}

proof fn decodes_keep_prompts(
    b: Batch,
    lim: Limits,
    ids: Seq<u64>,
    closed: Seq<bool>,
    k: int,
)
    ensures
        b.with_decodes(lim, ids, closed, k).active == b.active,
        b.with_decodes(lim, ids, closed, k).prefills == b.prefills,
        b.with_decodes(lim, ids, closed, k).queue == b.queue,
    decreases k,
{
    if k > 0 {
        decodes_keep_prompts(b, lim, ids, closed, k - 1);
    }
}

proof fn chunk_keeps_prompt(b: Batch, lim: Limits, other: u64, id: u64)
    requires
        b.active.contains_key(id) ==> b.active[id].countable(),
    ensures
        same_prompt(b, b.with_chunk(lim, other), id),
{
    let c = b.with_chunk(lim, other);
    if c != b {
        let s = b.active[other];
        let left = s.remaining_prefill;
        let n = lesser(left.len() as int, b.prompt_room(lim));
        tokens_of_push(b.prefills, c.prefills.last(), id);
        assert(c.prefills =~= b.prefills.push(c.prefills.last()));
        if other == id {
            assert(tokens_of(b.prefills, id) + left.take(n) + left.skip(n) =~= tokens_of(
                b.prefills,
                id,
            ) + left);
        }
    }
}

proof fn chunks_keep_prompt(b: Batch, lim: Limits, ids: Seq<u64>, k: int, id: u64)
    requires
        b.active.contains_key(id) ==> b.active[id].countable(),
    ensures
        same_prompt(b, b.with_chunks(lim, ids, k), id),
        b.with_chunks(lim, ids, k).queue == b.queue,
    decreases k,
{
    if k > 0 {
        chunks_keep_prompt(b, lim, ids, k - 1, id);
        chunk_keeps_prompt(b.with_chunks(lim, ids, k - 1), lim, ids[k - 1], id);
    }
}

proof fn requests_keep_prompt(b: Batch, lim: Limits, id: u64)
    requires
        not_waiting(b.queue, id),
    ensures
        same_prompt(b, b.with_requests(lim), id),
    decreases b.queue.len(),
{
    if b.can_join(lim) {
        let c = b.joined(lim);
        assert(b.queue[0].seq_id != id);
        tokens_of_push(b.prefills, c.prefills.last(), id);
        assert(c.prefills =~= b.prefills.push(c.prefills.last()));
        assert(not_waiting(c.queue, id)) by {
            assert forall|i: int| 0 <= i < c.queue.len() implies (#[trigger] c.queue[i]).seq_id
                != id by {
                assert(c.queue[i] == b.queue[i + 1]);
            }
        }
        requests_keep_prompt(c, lim, id);
    }
}

/// No prompt token is lost in a batch: of every active sequence, the tokens in its jobs,
/// followed by what is left of its prompt, are what was left before, and its position
/// moves by the tokens in its jobs. (A waiting request with the id of an active sequence
/// would take its place; such requests are left out.)
pub proof fn batches_lose_no_token(
    b: Batch,
    lim: Limits,
    decode_ids: Seq<u64>,
    closed: Seq<bool>,
    chunked_ids: Seq<u64>,
    id: u64,
)
    requires
        b.active.contains_key(id),
        b.active[id].countable(),
        tokens_of(b.prefills, id).len() == 0,
        not_waiting(b.queue, id),
    ensures
        ({
            let after = b.planned(lim, decode_ids, closed, chunked_ids);
            let jobs = tokens_of(after.prefills, id);
            &&& after.active.contains_key(id)
            &&& jobs + after.active[id].remaining_prefill == b.active[id].remaining_prefill
            &&& after.active[id].current_pos == b.active[id].current_pos + jobs.len()
        }),
{
    let d = b.with_decodes(lim, decode_ids, closed, decode_ids.len() as int);
    let c = d.with_chunks(lim, chunked_ids, chunked_ids.len() as int);
    decodes_keep_prompts(b, lim, decode_ids, closed, decode_ids.len() as int);
    chunks_keep_prompt(d, lim, chunked_ids, chunked_ids.len() as int, id);
    requests_keep_prompt(c, lim, id);
    let after = b.planned(lim, decode_ids, closed, chunked_ids);
    assert(prompt_of(b, id) =~= b.active[id].remaining_prefill);
    assert(prompt_of(after, id) == prompt_of(b, id));
}

/// What becomes of waiting request `i` of a batch in which it joins.
proof fn request_keeps_prompt(b: Batch, lim: Limits, i: int)
    requires
        0 <= i < b.queue.len() - b.with_requests(lim).queue.len(),
        !b.active.contains_key(b.queue[i].seq_id),
        tokens_of(b.prefills, b.queue[i].seq_id).len() == 0,
        forall|j: int|
            0 <= j < b.queue.len() && j != i ==> (#[trigger] b.queue[j]).seq_id
                != b.queue[i].seq_id,
    ensures
        ({
            let id = b.queue[i].seq_id;
            let after = b.with_requests(lim);
            &&& after.active.contains_key(id)
            &&& prompt_of(after, id) == b.queue[i].prompt_tokens
            &&& after.active[id].generated_tokens.len() == 0
            &&& b.queue[i].prompt_tokens.len() <= usize::MAX ==> after.active[id].current_pos
                + after.active[id].remaining_prefill.len() == b.queue[i].prompt_tokens.len()
        }),
    decreases b.queue.len(),
{
    let r = b.queue[i];
    let c = b.joined(lim);
    let n = lesser(b.queue[0].prompt_tokens.len() as int, b.prompt_room(lim));
    tokens_of_push(b.prefills, c.prefills.last(), r.seq_id);
    assert(c.prefills =~= b.prefills.push(c.prefills.last()));
    assert forall|j: int| 0 <= j < c.queue.len() implies #[trigger] c.queue[j] == b.queue[j
        + 1] by {}
    if i == 0 {
        let all = r.prompt_tokens;
        assert(tokens_of(b.prefills, r.seq_id) + all.take(n) + all.skip(n) =~= all);
        assert(not_waiting(c.queue, r.seq_id));
        requests_keep_prompt(c, lim, r.seq_id);
        requests_keep_generated(c, lim, r.seq_id);
    } else {
        assert(b.queue[0].seq_id != r.seq_id);
        assert(c.queue[i - 1] == r);
        request_keeps_prompt(c, lim, i - 1);
    }
}

proof fn requests_keep_generated(b: Batch, lim: Limits, id: u64)
    requires
        not_waiting(b.queue, id),
        b.active.contains_key(id),
    ensures
        b.with_requests(lim).active[id] == b.active[id],
    decreases b.queue.len(),
{
    if b.can_join(lim) {
        let c = b.joined(lim);
        assert(b.queue[0].seq_id != id);
        assert forall|j: int| 0 <= j < c.queue.len() implies (#[trigger] c.queue[j]).seq_id
            != id by {
            assert(c.queue[j] == b.queue[j + 1]);
        }
        requests_keep_generated(c, lim, id);
    }
}

/// No prompt token of a request that joins a batch is lost: the tokens in its jobs, followed
/// by what is left, are its prompt, and its position is behind the tokens in its jobs. (Its
/// id is its own: no active sequence and no other waiting request has it.)
pub proof fn admitted_requests_lose_no_token(
    b: Batch,
    lim: Limits,
    decode_ids: Seq<u64>,
    closed: Seq<bool>,
    chunked_ids: Seq<u64>,
    i: int,
)
    requires
        0 <= i < b.queue.len() - b.planned(lim, decode_ids, closed, chunked_ids).queue.len(),
        b.queue[i].prompt_tokens.len() <= usize::MAX,
        !b.active.contains_key(b.queue[i].seq_id),
        tokens_of(b.prefills, b.queue[i].seq_id).len() == 0,
        forall|j: int|
            0 <= j < b.queue.len() && j != i ==> (#[trigger] b.queue[j]).seq_id
                != b.queue[i].seq_id,
    ensures
        ({
            let id = b.queue[i].seq_id;
            let after = b.planned(lim, decode_ids, closed, chunked_ids);
            let jobs = tokens_of(after.prefills, id);
            &&& after.active.contains_key(id)
            &&& jobs + after.active[id].remaining_prefill == b.queue[i].prompt_tokens
            &&& after.active[id].current_pos == jobs.len()
            &&& after.active[id].generated_tokens.len() == 0
        }),
{
    let id = b.queue[i].seq_id;
    let d = b.with_decodes(lim, decode_ids, closed, decode_ids.len() as int);
    let c = d.with_chunks(lim, chunked_ids, chunked_ids.len() as int);
    decodes_keep_prompts(b, lim, decode_ids, closed, decode_ids.len() as int);
    chunks_keep_prompt(d, lim, chunked_ids, chunked_ids.len() as int, id);
    request_keeps_prompt(c, lim, i);
}

/// `id` is among those that leave.
pub open spec fn leaves(gone: Seq<(u64, CacheHandle)>, id: u64) -> bool {
    exists|i: int| 0 <= i < gone.len() && (#[trigger] gone[i]).0 == id
}

proof fn without_is_removal(active: Map<u64, ActiveInfo>, gone: Seq<(u64, CacheHandle)>, id: u64)
    ensures
        without(active, gone).contains_key(id) <==> active.contains_key(id) && !leaves(gone, id),
        without(active, gone).contains_key(id) ==> without(active, gone)[id] == active[id],
    decreases gone.len(),
{
    if gone.len() > 0 {
        let rest = gone.drop_last();
        without_is_removal(active, rest, id);
        if leaves(rest, id) {
            let i = choose|i: int| 0 <= i < rest.len() && (#[trigger] rest[i]).0 == id;
            assert(gone[i].0 == id);
        }
        if gone.last().0 == id {
            assert(gone[gone.len() - 1].0 == id);
        }
        if leaves(gone, id) {
            let i = choose|i: int| 0 <= i < gone.len() && (#[trigger] gone[i]).0 == id;
            if i < rest.len() {
                assert(rest[i].0 == id);
            }
        }
    }
}

proof fn leaving_is_ended(
    active: Map<u64, ActiveInfo>,
    order: Seq<u64>,
    closed: Seq<bool>,
    k: int,
    j: int,
)
    requires
        orders(active, order),
        closed.len() == order.len(),
        0 <= k <= order.len(),
        0 <= j < order.len(),
    ensures
        leaves(leaving(active, order, closed, k), order[j]) <==> j < k && (
        active[order[j]].finished() is Some || closed[j]),
    decreases k,
{
    assert(order.contains(order[j]));
    assert(active.contains_key(order[j]));
    let gone = leaving(active, order, closed, k);
    if k > 0 {
        leaving_is_ended(active, order, closed, k - 1, j);
        let rest = leaving(active, order, closed, k - 1);
        let id = order[k - 1];
        assert(order.contains(id));
        if leaves(rest, order[j]) {
            let i = choose|i: int| 0 <= i < rest.len() && (#[trigger] rest[i]).0 == order[j];
            assert(gone[i].0 == order[j]);
        }
        if gone.len() > rest.len() {
            assert(gone[gone.len() - 1].0 == id);
        }
        if leaves(gone, order[j]) {
            let i = choose|i: int| 0 <= i < gone.len() && (#[trigger] gone[i]).0 == order[j];
            if i < rest.len() {
                assert(rest[i].0 == order[j]);
            } else {
                assert(id == order[j]);
                assert(j == k - 1);
            }
        }
    }
}

/// A clean-up removes the sequences that have ended and those whose client is gone, and
/// leaves the others as they are.
pub proof fn cleanup_removes_exactly_the_ended(
    active: Map<u64, ActiveInfo>,
    order: Seq<u64>,
    closed: Seq<bool>,
    j: int,
)
    requires
        orders(active, order),
        closed.len() == order.len(),
        0 <= j < order.len(),
    ensures
        ({
            let after = without(active, leaving(active, order, closed, order.len() as int));
            let id = order[j];
            &&& after.contains_key(id) <==> active[id].finished() is None && !closed[j]
            &&& after.contains_key(id) ==> after[id] == active[id]
        }),
{
    let gone = leaving(active, order, closed, order.len() as int);
    assert(order.contains(order[j]));
    assert(active.contains_key(order[j]));
    leaving_is_ended(active, order, closed, order.len() as int, j);
    without_is_removal(active, gone, order[j]);
}

} // verus!

//! What a request gets: what its client asked for, and its tokens at their places.
use crate::base::error::StopReason;
use crate::base::keys::orders;
use crate::engine::kv_cache::CacheHandle;
use crate::engine::scheduler::{
    ids_where, leaving, lesser, notices, positions_from, sent, ActiveInfo, Batch, BatchScheduler,
    DecodeJob, GenerationEvent, Limits, PendingInfo, PrefillInfo,
};
use crate::engine::scheduler_laws::{not_waiting, tokens_of};
use vstd::prelude::*;

verus! {

/// The sequence generates as the request asks: as many tokens at most, chosen in the same
/// way, ended by the same tokens and sent to the same client.
pub open spec fn serves(s: ActiveInfo, r: PendingInfo) -> bool {
    &&& s.seq_id == r.seq_id
    &&& s.max_tokens == r.max_tokens
    &&& s.temperature == r.temperature
    &&& s.top_k == r.top_k
    &&& s.top_p == r.top_p
    &&& s.seed == r.seed
    &&& s.stop_tokens == r.stop_tokens
    &&& s.event_tx == r.event_tx
}

/// The sequence generates as before, for the same client, with the same cache, and has
/// generated the same tokens.
pub open spec fn goes_on(s: ActiveInfo, t: ActiveInfo) -> bool {
    &&& t.seq_id == s.seq_id
    &&& t.handle == s.handle
    &&& t.max_tokens == s.max_tokens
    &&& t.temperature == s.temperature
    &&& t.top_k == s.top_k
    &&& t.top_p == s.top_p
    &&& t.seed == s.seed
    &&& t.stop_tokens == s.stop_tokens
    &&& t.event_tx == s.event_tx
    &&& t.generated_tokens == s.generated_tokens
}

proof fn decodes_go_on(b: Batch, lim: Limits, ids: Seq<u64>, closed: Seq<bool>, k: int)
    ensures
        b.with_decodes(lim, ids, closed, k).active == b.active,
        b.with_decodes(lim, ids, closed, k).prefills == b.prefills,
        b.with_decodes(lim, ids, closed, k).queue == b.queue,
    decreases k,
{
    if k > 0 {
        decodes_go_on(b, lim, ids, closed, k - 1);
    }
}

proof fn chunks_go_on(b: Batch, lim: Limits, ids: Seq<u64>, k: int, id: u64)
    ensures
        ({
            let c = b.with_chunks(lim, ids, k);
            &&& c.queue == b.queue
            &&& c.active.contains_key(id) <==> b.active.contains_key(id)
            &&& b.active.contains_key(id) ==> goes_on(b.active[id], c.active[id])
        }),
    decreases k,
{
    if k > 0 {
        chunks_go_on(b, lim, ids, k - 1, id);
    }
}

proof fn requests_go_on(b: Batch, lim: Limits, id: u64)
    requires
        not_waiting(b.queue, id),
        b.active.contains_key(id),
    ensures
        b.with_requests(lim).active.contains_key(id),
        b.with_requests(lim).active[id] == b.active[id],
    decreases b.queue.len(),
{
    if b.can_join(lim) {
        let c = b.joined(lim);
        assert(b.queue[0].seq_id != id);
        assert(not_waiting(c.queue, id)) by {
            assert forall|i: int| 0 <= i < c.queue.len() implies (#[trigger] c.queue[i]).seq_id
                != id by {
                assert(c.queue[i] == b.queue[i + 1]);
            }
        }
        requests_go_on(c, lim, id);
    }
}

/// The request with number `i` of the queue is the only one with its id that is not yet
/// active, and that no other waiting request comes after.
pub open spec fn has_own_id(b: Batch, i: int) -> bool {
    &&& !b.active.contains_key(b.queue[i].seq_id)
    &&& forall|j: int|
        0 <= j < b.queue.len() && j != i ==> (#[trigger] b.queue[j]).seq_id != b.queue[i].seq_id
}

proof fn joining_serves(b: Batch, lim: Limits, i: int)
    requires
        0 <= i < b.queue.len() - b.with_requests(lim).queue.len(),
        has_own_id(b, i),
    ensures
        ({
            let r = b.queue[i];
            let after = b.with_requests(lim);
            &&& after.active.contains_key(r.seq_id)
            &&& serves(after.active[r.seq_id], r)
            &&& after.active[r.seq_id].generated_tokens.len() == 0
            &&& after.active[r.seq_id].handle == CacheHandle(r.seq_id)
        }),
    decreases b.queue.len(),
{
    let r = b.queue[i];
    let c = b.joined(lim);
    assert forall|j: int| 0 <= j < c.queue.len() implies #[trigger] c.queue[j] == b.queue[j
        + 1] by {}
    if i == 0 {
        assert(not_waiting(c.queue, r.seq_id));
        requests_go_on(c, lim, r.seq_id);
    } else {
        assert(b.queue[0].seq_id != r.seq_id);
        assert(c.queue[i - 1] == r);
        joining_serves(c, lim, i - 1);
    }
}

/// A request that is admitted keeps what its client asked for: of every request that leaves
/// the queue in a batch, the active sequence under its id has the settings, the stop tokens
/// and the client of the request, and has generated nothing. (Its id is its own.)
pub proof fn admitted_requests_get_what_they_asked_for(
    b: Batch,
    lim: Limits,
    decode_ids: Seq<u64>,
    closed: Seq<bool>,
    chunked_ids: Seq<u64>,
    i: int,
)
    requires
        0 <= i < b.queue.len() - b.planned(lim, decode_ids, closed, chunked_ids).queue.len(),
        has_own_id(b, i),
    ensures
        ({
            let r = b.queue[i];
            let after = b.planned(lim, decode_ids, closed, chunked_ids);
            &&& after.active.contains_key(r.seq_id)
            &&& serves(after.active[r.seq_id], r)
            &&& after.active[r.seq_id].generated_tokens.len() == 0
            &&& after.active[r.seq_id].handle == CacheHandle(r.seq_id)
        }),
{
    let id = b.queue[i].seq_id;
    let d = b.with_decodes(lim, decode_ids, closed, decode_ids.len() as int);
    let c = d.with_chunks(lim, chunked_ids, chunked_ids.len() as int);
    decodes_go_on(b, lim, decode_ids, closed, decode_ids.len() as int);
    chunks_go_on(d, lim, chunked_ids, chunked_ids.len() as int, id);
    assert(has_own_id(c, i));
    joining_serves(c, lim, i);
}

/// A batch leaves the settings, the cache, the client and the generated tokens of every active
/// sequence as they are. (A waiting request with the id of an active sequence would take its
/// place; such requests are left out.)
pub proof fn active_sequences_go_on(
    b: Batch,
    lim: Limits,
    decode_ids: Seq<u64>,
    closed: Seq<bool>,
    chunked_ids: Seq<u64>,
    id: u64,
)
    requires
        b.active.contains_key(id),
        not_waiting(b.queue, id),
    ensures
        b.planned(lim, decode_ids, closed, chunked_ids).active.contains_key(id),
        goes_on(b.active[id], b.planned(lim, decode_ids, closed, chunked_ids).active[id]),
{
    let d = b.with_decodes(lim, decode_ids, closed, decode_ids.len() as int);
    let c = d.with_chunks(lim, chunked_ids, chunked_ids.len() as int);
    decodes_go_on(b, lim, decode_ids, closed, decode_ids.len() as int);
    chunks_go_on(d, lim, chunked_ids, chunked_ids.len() as int, id);
    requests_go_on(c, lim, id);
}

/// A sequence that serves a request ends when the request says so: with `Length` once it has
/// generated as many tokens as the request allows; below that with `Stop`, as soon as the last
/// token is one of the request's stop tokens; and not before.
pub proof fn sequences_end_as_requested(s: ActiveInfo, r: PendingInfo)
    requires
        serves(s, r),
    ensures
        s.finished() == Some(StopReason::Length) <==> s.generated_tokens.len() >= r.max_tokens,
        s.finished() == Some(StopReason::Stop) <==> s.generated_tokens.len() < r.max_tokens
            && s.generated_tokens.len() > 0 && exists|i: int|
            0 <= i < r.stop_tokens.len() && #[trigger] r.stop_tokens[i]
                == s.generated_tokens.last(),
        s.finished() is None || s.finished() == Some(StopReason::Length) || s.finished() == Some(
            StopReason::Stop,
        ),
{
    let last = s.generated_tokens.last();
    if s.stop_tokens.contains(last) {
        let i = choose|i: int| 0 <= i < s.stop_tokens.len() && s.stop_tokens[i] == last;
        assert(r.stop_tokens[i] == last);
    }
}

/// The positions that jobs hold of a sequence, in the order of the jobs.
pub open spec fn positions_of(jobs: Seq<PrefillInfo>, id: u64) -> Seq<u32>
    decreases jobs.len(),
{
    if jobs.len() == 0 {
        Seq::empty()
    } else if jobs.last().seq_id == id {
        positions_of(jobs.drop_last(), id) + jobs.last().positions
    } else {
        positions_of(jobs.drop_last(), id)
    }
}

/// The jobs of a sequence have a position for each token, and those count up from `start`, as
/// far as the device counts.
pub open spec fn counts_up(jobs: Seq<PrefillInfo>, id: u64, start: int) -> bool {
    &&& positions_of(jobs, id).len() == tokens_of(jobs, id).len()
    &&& forall|i: int|
        0 <= i < positions_of(jobs, id).len() ==> (#[trigger] positions_of(jobs, id)[i]) as int
            == (start + i) % 0x1_0000_0000
}

/// One more job of a sequence whose positions go on where the last ones ended.
proof fn counting_goes_on(
    jobs: Seq<PrefillInfo>,
    job: PrefillInfo,
    id: u64,
    start: int,
    at: int,
    n: int,
)
    requires
        0 <= start,
        0 <= n,
        counts_up(jobs, id, start),
        job.seq_id == id ==> at == start + tokens_of(jobs, id).len() && job.token_ids.len() == n
            && job.positions == positions_from(at, n),
    ensures
        counts_up(jobs.push(job), id, start),
        tokens_of(jobs.push(job), id).len() == tokens_of(jobs, id).len() + (if job.seq_id == id {
            n
        } else {
            0
        }),
{
    let all = jobs.push(job);
    assert(all.drop_last() =~= jobs);
    assert forall|i: int| 0 <= i < positions_of(all, id).len() implies (
    #[trigger] positions_of(all, id)[i]) as int == (start + i) % 0x1_0000_0000 by {
        let old_len = positions_of(jobs, id).len() as int;
        if i < old_len {
            assert(positions_of(all, id)[i] == positions_of(jobs, id)[i]);
        } else {
            assert(positions_of(all, id)[i] == job.positions[i - old_len]);
        }
    }
}

proof fn chunks_count_up(b: Batch, lim: Limits, ids: Seq<u64>, k: int, id: u64, start: int)
    requires
        0 <= start,
        b.active.contains_key(id),
        b.active[id].countable(),
        counts_up(b.prefills, id, start),
        b.active[id].current_pos == start + tokens_of(b.prefills, id).len(),
    ensures
        ({
            let c = b.with_chunks(lim, ids, k);
            &&& c.active.contains_key(id)
            &&& c.active[id].countable()
            &&& counts_up(c.prefills, id, start)
            &&& c.active[id].current_pos == start + tokens_of(c.prefills, id).len()
        }),
    decreases k,
{
    if k > 0 {
        chunks_count_up(b, lim, ids, k - 1, id, start);
        let c = b.with_chunks(lim, ids, k - 1);
        let e = c.with_chunk(lim, ids[k - 1]);
        if e != c {
            let s = c.active[ids[k - 1]];
            let n = lesser(s.remaining_prefill.len() as int, c.prompt_room(lim));
            counting_goes_on(
                c.prefills,
                e.prefills.last(),
                id,
                start,
                s.current_pos as int,
                n,
            );
            assert(e.prefills =~= c.prefills.push(e.prefills.last()));
        }
    }
}

proof fn requests_count_up(b: Batch, lim: Limits, id: u64, start: int)
    requires
        0 <= start,
        not_waiting(b.queue, id),
        counts_up(b.prefills, id, start),
    ensures
        counts_up(b.with_requests(lim).prefills, id, start),
    decreases b.queue.len(),
{
    if b.can_join(lim) {
        let c = b.joined(lim);
        assert(b.queue[0].seq_id != id);
        counting_goes_on(b.prefills, c.prefills.last(), id, start, 0, 0);
        assert(c.prefills =~= b.prefills.push(c.prefills.last()));
        assert(not_waiting(c.queue, id)) by {
            assert forall|i: int| 0 <= i < c.queue.len() implies (#[trigger] c.queue[i]).seq_id
                != id by {
                assert(c.queue[i] == b.queue[i + 1]);
            }
        }
        requests_count_up(c, lim, id, start);
    }
}

/// Prompt tokens are prefilled at their places: the tokens that a batch holds of an active
/// sequence have positions that count up from where the sequence stood.
pub proof fn prompts_go_on_where_they_stood(
    b: Batch,
    lim: Limits,
    decode_ids: Seq<u64>,
    closed: Seq<bool>,
    chunked_ids: Seq<u64>,
    id: u64,
)
    requires
        b.prefills.len() == 0,
        b.active.contains_key(id),
        b.active[id].countable(),
        not_waiting(b.queue, id),
    ensures
        counts_up(
            b.planned(lim, decode_ids, closed, chunked_ids).prefills,
            id,
            b.active[id].current_pos as int,
        ),
{
    let d = b.with_decodes(lim, decode_ids, closed, decode_ids.len() as int);
    let c = d.with_chunks(lim, chunked_ids, chunked_ids.len() as int);
    decodes_go_on(b, lim, decode_ids, closed, decode_ids.len() as int);
    chunks_go_on(d, lim, chunked_ids, chunked_ids.len() as int, id);
    chunks_count_up(
        d,
        lim,
        chunked_ids,
        chunked_ids.len() as int,
        id,
        b.active[id].current_pos as int,
    );
    requests_count_up(c, lim, id, b.active[id].current_pos as int);
}

proof fn no_jobs_of_others(b: Batch, lim: Limits, ids: Seq<u64>, k: int, id: u64)
    requires
        b.prefills.len() == 0,
        !b.active.contains_key(id),
    ensures
        tokens_of(b.with_chunks(lim, ids, k).prefills, id).len() == 0,
        positions_of(b.with_chunks(lim, ids, k).prefills, id).len() == 0,
    decreases k,
{
    if k > 0 {
        no_jobs_of_others(b, lim, ids, k - 1, id);
        chunks_go_on(b, lim, ids, k - 1, id);
        let c = b.with_chunks(lim, ids, k - 1);
        let e = c.with_chunk(lim, ids[k - 1]);
        if e != c {
            assert(e.prefills.drop_last() =~= c.prefills);
        }
    }
}

proof fn joining_counts_up(b: Batch, lim: Limits, i: int)
    requires
        0 <= i < b.queue.len() - b.with_requests(lim).queue.len(),
        has_own_id(b, i),
        tokens_of(b.prefills, b.queue[i].seq_id).len() == 0,
        positions_of(b.prefills, b.queue[i].seq_id).len() == 0,
    ensures
        counts_up(b.with_requests(lim).prefills, b.queue[i].seq_id, 0),
    decreases b.queue.len(),
{
    let r = b.queue[i];
    let c = b.joined(lim);
    let n = lesser(b.queue[0].prompt_tokens.len() as int, b.prompt_room(lim));
    assert(c.prefills =~= b.prefills.push(c.prefills.last()));
    assert(c.prefills.drop_last() =~= b.prefills);
    assert forall|j: int| 0 <= j < c.queue.len() implies #[trigger] c.queue[j] == b.queue[j
        + 1] by {}
    if i == 0 {
        counting_goes_on(b.prefills, c.prefills.last(), r.seq_id, 0, 0, n);
        assert(not_waiting(c.queue, r.seq_id));
        requests_count_up(c, lim, r.seq_id, 0);
    } else {
        assert(b.queue[0].seq_id != r.seq_id);
        assert(c.queue[i - 1] == r);
        joining_counts_up(c, lim, i - 1);
    }
}

/// The prompt of a request that is admitted begins at position 0: the tokens that the batch
/// holds of it have positions that count up from there.
pub proof fn admitted_prompts_begin_at_zero(
    b: Batch,
    lim: Limits,
    decode_ids: Seq<u64>,
    closed: Seq<bool>,
    chunked_ids: Seq<u64>,
    i: int,
)
    requires
        b.prefills.len() == 0,
        0 <= i < b.queue.len() - b.planned(lim, decode_ids, closed, chunked_ids).queue.len(),
        has_own_id(b, i),
    ensures
        counts_up(
            b.planned(lim, decode_ids, closed, chunked_ids).prefills,
            b.queue[i].seq_id,
            0,
        ),
{
    let id = b.queue[i].seq_id;
    let d = b.with_decodes(lim, decode_ids, closed, decode_ids.len() as int);
    let c = d.with_chunks(lim, chunked_ids, chunked_ids.len() as int);
    decodes_go_on(b, lim, decode_ids, closed, decode_ids.len() as int);
    chunks_go_on(d, lim, chunked_ids, chunked_ids.len() as int, id);
    no_jobs_of_others(d, lim, chunked_ids, chunked_ids.len() as int, id);
    assert(has_own_id(c, i));
    joining_counts_up(c, lim, i);
}

/// Every job is for an active sequence, and writes to the cache of that sequence.
pub open spec fn jobs_have_their_cache(b: Batch) -> bool {
    forall|i: int|
        0 <= i < b.prefills.len() ==> {
            let job = #[trigger] b.prefills[i];
            &&& b.active.contains_key(job.seq_id)
            &&& b.active[job.seq_id].handle == job.handle
        }
}

proof fn chunks_have_their_cache(b: Batch, lim: Limits, ids: Seq<u64>, k: int)
    requires
        jobs_have_their_cache(b),
    ensures
        jobs_have_their_cache(b.with_chunks(lim, ids, k)),
    decreases k,
{
    if k > 0 {
        chunks_have_their_cache(b, lim, ids, k - 1);
        let c = b.with_chunks(lim, ids, k - 1);
        let e = c.with_chunk(lim, ids[k - 1]);
        if e != c {
            assert forall|i: int| 0 <= i < e.prefills.len() implies {
                let job = #[trigger] e.prefills[i];
                &&& e.active.contains_key(job.seq_id)
                &&& e.active[job.seq_id].handle == job.handle
            } by {
                if i < c.prefills.len() {
                    assert(e.prefills[i] == c.prefills[i]);
                }
            }
        }
    }
}

/// Waiting requests have ids that no active sequence and no other waiting request has.
pub open spec fn ids_are_new(b: Batch) -> bool {
    forall|i: int| 0 <= i < b.queue.len() ==> #[trigger] has_own_id(b, i)
}

proof fn requests_have_their_cache(b: Batch, lim: Limits)
    requires
        jobs_have_their_cache(b),
        ids_are_new(b),
    ensures
        jobs_have_their_cache(b.with_requests(lim)),
    decreases b.queue.len(),
{
    if b.can_join(lim) {
        let c = b.joined(lim);
        assert(has_own_id(b, 0));
        assert forall|i: int| 0 <= i < c.prefills.len() implies {
            let job = #[trigger] c.prefills[i];
            &&& c.active.contains_key(job.seq_id)
            &&& c.active[job.seq_id].handle == job.handle
        } by {
            if i < b.prefills.len() {
                assert(c.prefills[i] == b.prefills[i]);
            }
        }
        assert forall|i: int| 0 <= i < c.queue.len() implies #[trigger] has_own_id(c, i) by {
            assert(has_own_id(b, i + 1));
            assert(c.queue[i] == b.queue[i + 1]);
            assert(b.queue[0].seq_id != c.queue[i].seq_id);
            assert forall|j: int| 0 <= j < c.queue.len() && j != i implies (
            #[trigger] c.queue[j]).seq_id != c.queue[i].seq_id by {
                assert(c.queue[j] == b.queue[j + 1]);
            }
        }
        requests_have_their_cache(c, lim);
    }
}

/// No job writes to another sequence's cache: every prefill job of a batch is for an active
/// sequence and has that sequence's handle.
pub proof fn prefills_have_their_cache(
    b: Batch,
    lim: Limits,
    decode_ids: Seq<u64>,
    closed: Seq<bool>,
    chunked_ids: Seq<u64>,
)
    requires
        b.prefills.len() == 0,
        ids_are_new(b),
    ensures
        jobs_have_their_cache(b.planned(lim, decode_ids, closed, chunked_ids)),
{
    let d = b.with_decodes(lim, decode_ids, closed, decode_ids.len() as int);
    let c = d.with_chunks(lim, chunked_ids, chunked_ids.len() as int);
    decodes_go_on(b, lim, decode_ids, closed, decode_ids.len() as int);
    chunks_have_their_cache(d, lim, chunked_ids, chunked_ids.len() as int);
    chunks_go_on(d, lim, chunked_ids, chunked_ids.len() as int, 0);
    assert forall|i: int| 0 <= i < c.queue.len() implies #[trigger] has_own_id(c, i) by {
        assert(has_own_id(b, i));
        chunks_go_on(d, lim, chunked_ids, chunked_ids.len() as int, c.queue[i].seq_id);
    }
    requests_have_their_cache(c, lim);
}

proof fn admitted_fit(b: Batch, lim: Limits, i: int)
    requires
        0 <= i < b.queue.len() - b.with_requests(lim).queue.len(),
    ensures
        b.queue[i].prompt_tokens.len() <= 16 * lim.blocks,
    decreases b.queue.len(),
{
    if i > 0 {
        let c = b.joined(lim);
        assert(c.queue[i - 1] == b.queue[i]);
        admitted_fit(c, lim, i - 1);
    }
}

proof fn first_cannot_join(b: Batch, lim: Limits)
    ensures
        !b.with_requests(lim).can_join(lim),
    decreases b.queue.len(),
{
    if b.can_join(lim) {
        first_cannot_join(b.joined(lim), lim);
    }
}

/// Requests are admitted where there is memory for them, and wait only for a reason. The
/// prompt of every request that a scheduler admits fits into the blocks of sixteen tokens that
/// are free beyond the reserve. Where one still waits, the batch has as many jobs or tokens,
/// or prompt tokens, as it may have, or the prompt of the first one in the queue does not fit
/// into those blocks.
pub proof fn requests_wait_for_room(
    scheduler: BatchScheduler,
    free_blocks: usize,
    reserved_blocks: usize,
    decode_ids: Seq<u64>,
    closed: Seq<bool>,
    chunked_ids: Seq<u64>,
    i: int,
)
    ensures
        ({
            let lim = scheduler.limits(free_blocks, reserved_blocks);
            let b = scheduler.empty_batch();
            let after = b.planned(lim, decode_ids, closed, chunked_ids);
            let spare = if free_blocks > reserved_blocks {
                free_blocks - reserved_blocks
            } else {
                0
            };
            &&& 0 <= i < b.queue.len() - after.queue.len() ==> b.queue[i].prompt_tokens.len()
                <= 16 * spare
            &&& after.queue.len() > 0 ==> {
                ||| after.decodes.len() + after.prefills.len() >= scheduler.max_batch_size
                ||| after.total >= scheduler.max_batch_tokens
                ||| after.prefill_tokens >= scheduler.max_prefill_tokens
                ||| after.queue[0].prompt_tokens.len() > 16 * spare
            }
        }),
{
    let lim = scheduler.limits(free_blocks, reserved_blocks);
    let b = scheduler.empty_batch();
    let d = b.with_decodes(lim, decode_ids, closed, decode_ids.len() as int);
    let c = d.with_chunks(lim, chunked_ids, chunked_ids.len() as int);
    decodes_go_on(b, lim, decode_ids, closed, decode_ids.len() as int);
    chunks_go_on(d, lim, chunked_ids, chunked_ids.len() as int, 0);
    let after = c.with_requests(lim);
    if 0 <= i < b.queue.len() - after.queue.len() {
        admitted_fit(c, lim, i);
    }
    first_cannot_join(c, lim);
}

/// Every sequence stands in the map under its own id.
pub open spec fn keyed_by_id(active: Map<u64, ActiveInfo>) -> bool {
    forall|id: u64| #[trigger] active.contains_key(id) ==> active[id].seq_id == id
}

proof fn ids_where_contains(
    active: Map<u64, ActiveInfo>,
    order: Seq<u64>,
    prefilled: bool,
    id: u64,
)
    requires
        keyed_by_id(active),
        forall|i: int| 0 <= i < order.len() ==> active.contains_key(#[trigger] order[i]),
    ensures
        ids_where(active, order, prefilled).contains(id) <==> order.contains(id) && (
        active[id].remaining_prefill.len() == 0) == prefilled,
        ids_where(active, order, prefilled).len() <= order.len(),
    decreases order.len(),
{
    if order.len() > 0 {
        let rest = order.drop_last();
        assert forall|i: int| 0 <= i < rest.len() implies active.contains_key(
            #[trigger] rest[i],
        ) by {
            assert(rest[i] == order[i]);
        }
        ids_where_contains(active, rest, prefilled, id);
        let last = order.last();
        assert(order[order.len() - 1] == last);
        assert(active[last].seq_id == last);
        assert(order.contains(id) <==> rest.contains(id) || id == last) by {
            if order.contains(id) {
                let i = choose|i: int| 0 <= i < order.len() && order[i] == id;
                if i < rest.len() {
                    assert(rest[i] == id);
                }
            }
            if rest.contains(id) {
                let i = choose|i: int| 0 <= i < rest.len() && rest[i] == id;
                assert(order[i] == id);
            }
        }
        let few = ids_where(active, rest, prefilled);
        let all = ids_where(active, order, prefilled);
        if few.contains(id) {
            let i = choose|i: int| 0 <= i < few.len() && few[i] == id;
            assert(all[i] == id);
        }
        if all.len() > few.len() {
            assert(all[all.len() - 1] == last);
        }
        if all.contains(id) {
            let i = choose|i: int| 0 <= i < all.len() && all[i] == id;
            if i < few.len() {
                assert(few[i] == id);
            }
        }
    }
}

/// Every active sequence is scheduled for one of two things: where its prompt is prefilled it
/// is to be decoded, otherwise its prompt goes on.
pub proof fn sequences_are_decoded_or_prefilled(
    active: Map<u64, ActiveInfo>,
    decode_order: Seq<u64>,
    chunked_order: Seq<u64>,
    id: u64,
)
    requires
        keyed_by_id(active),
        orders(active, decode_order),
        orders(active, chunked_order),
    ensures
        ids_where(active, decode_order, true).contains(id) <==> active.contains_key(id)
            && active[id].remaining_prefill.len() == 0,
        ids_where(active, chunked_order, false).contains(id) <==> active.contains_key(id)
            && active[id].remaining_prefill.len() > 0,
{
    assert forall|i: int| 0 <= i < decode_order.len() implies active.contains_key(
        #[trigger] decode_order[i],
    ) by {
        assert(decode_order.contains(decode_order[i]));
    }
    assert forall|i: int| 0 <= i < chunked_order.len() implies active.contains_key(
        #[trigger] chunked_order[i],
    ) by {
        assert(chunked_order.contains(chunked_order[i]));
    }
    ids_where_contains(active, decode_order, true, id);
    ids_where_contains(active, chunked_order, false, id);
}

proof fn notice_of(active: Map<u64, ActiveInfo>, order: Seq<u64>, k: int, j: int)
    requires
        0 <= j < k <= order.len(),
        active.contains_key(order[j]),
        active[order[j]].finished() is Some,
    ensures
        exists|m: int|
            0 <= m < notices(active, order, k).len() && (#[trigger] notices(active, order, k)[m])
                == (
                order[j],
                GenerationEvent::Finished {
                    stop_reason: active[order[j]].finished()->0,
                    completion_tokens: active[order[j]].generated_tokens.len() as usize,
                },
            ),
    decreases k,
{
    let all = notices(active, order, k);
    let few = notices(active, order, k - 1);
    if j == k - 1 {
        assert(all[all.len() - 1].0 == order[j]);
    } else {
        notice_of(active, order, k - 1, j);
        let m = choose|m: int| 0 <= m < few.len() && (#[trigger] few[m]).0 == order[j] && few[m].1
            == (GenerationEvent::Finished {
            stop_reason: active[order[j]].finished()->0,
            completion_tokens: active[order[j]].generated_tokens.len() as usize,
        });
        assert(all[m] == few[m]);
    }
}

/// The client of a sequence that serves a request is told when the sequence ends, why, and
/// how many tokens it got.
pub proof fn clients_are_told_the_end(
    active: Map<u64, ActiveInfo>,
    order: Seq<u64>,
    j: int,
    r: PendingInfo,
)
    requires
        orders(active, order),
        0 <= j < order.len(),
        serves(active[order[j]], r),
        active[order[j]].generated_tokens.len() >= r.max_tokens || (
        active[order[j]].generated_tokens.len() > 0 && r.stop_tokens.contains(
            active[order[j]].generated_tokens.last(),
        )),
    ensures
        exists|m: int|
            0 <= m < notices(active, order, order.len() as int).len() && (
            #[trigger] notices(active, order, order.len() as int)[m]) == (
                order[j],
                GenerationEvent::Finished {
                    stop_reason: if active[order[j]].generated_tokens.len() >= r.max_tokens {
                        StopReason::Length
                    } else {
                        StopReason::Stop
                    },
                    completion_tokens: active[order[j]].generated_tokens.len() as usize,
                },
            ),
{
    assert(order.contains(order[j]));
    sequences_end_as_requested(active[order[j]], r);
    notice_of(active, order, order.len() as int, j);
}

/// The caches that a clean-up gives back are those of the sequences that it removes.
pub proof fn cleanups_give_back_the_caches(
    active: Map<u64, ActiveInfo>,
    order: Seq<u64>,
    closed: Seq<bool>,
    k: int,
    i: int,
)
    requires
        0 <= k <= order.len(),
        0 <= i < leaving(active, order, closed, k).len(),
    ensures
        ({
            let gone = leaving(active, order, closed, k)[i];
            active.contains_key(gone.0) && gone.1 == active[gone.0].handle
        }),
    decreases k,
{
    if k > 0 {
        let few = leaving(active, order, closed, k - 1);
        if i < few.len() {
            cleanups_give_back_the_caches(active, order, closed, k - 1, i);
            assert(leaving(active, order, closed, k)[i] == few[i]);
        }
    }
}

/// The sequence `t` stands as many tokens behind `s` as it has fewer tokens of its prompt left.
pub open spec fn has_moved(s: ActiveInfo, t: ActiveInfo) -> bool {
    &&& s.current_pos <= t.current_pos
    &&& t.current_pos - s.current_pos <= s.remaining_prefill.len()
    &&& t.remaining_prefill == s.remaining_prefill.skip(t.current_pos - s.current_pos)
}

proof fn chunks_move(b: Batch, lim: Limits, ids: Seq<u64>, k: int, id: u64)
    requires
        b.active.contains_key(id),
        b.active[id].countable(),
    ensures
        b.with_chunks(lim, ids, k).active.contains_key(id),
        has_moved(b.active[id], b.with_chunks(lim, ids, k).active[id]),
    decreases k,
{
    if k > 0 {
        chunks_move(b, lim, ids, k - 1, id);
        let c = b.with_chunks(lim, ids, k - 1);
        let s = b.active[id];
        let t = c.active[id];
        let u = b.with_chunks(lim, ids, k).active[id];
        let n = u.current_pos - t.current_pos;
        if u != t {
            assert(u.remaining_prefill == t.remaining_prefill.skip(n));
            assert(t.remaining_prefill.skip(n) =~= s.remaining_prefill.skip(
                u.current_pos - s.current_pos,
            ));
        }
    } else {
        assert(b.active[id].remaining_prefill.skip(0) =~= b.active[id].remaining_prefill);
    }
}

proof fn joining_moves(b: Batch, lim: Limits, i: int)
    requires
        0 <= i < b.queue.len() - b.with_requests(lim).queue.len(),
        has_own_id(b, i),
        b.queue[i].prompt_tokens.len() <= usize::MAX,
    ensures
        ({
            let r = b.queue[i];
            let s = b.with_requests(lim).active[r.seq_id];
            &&& s.current_pos <= r.prompt_tokens.len()
            &&& s.remaining_prefill == r.prompt_tokens.skip(s.current_pos as int)
        }),
    decreases b.queue.len(),
{
    let r = b.queue[i];
    let c = b.joined(lim);
    assert forall|j: int| 0 <= j < c.queue.len() implies #[trigger] c.queue[j] == b.queue[j
        + 1] by {}
    if i == 0 {
        assert(not_waiting(c.queue, r.seq_id));
        requests_go_on(c, lim, r.seq_id);
    } else {
        assert(b.queue[0].seq_id != r.seq_id);
        assert(c.queue[i - 1] == r);
        joining_moves(c, lim, i - 1);
    }
}

/// A sequence moves on by the tokens of its prompt that a batch takes: where it stands after the
/// batch, and what is left of the prompt, go together.
pub proof fn sequences_move_with_their_prompt(
    b: Batch,
    lim: Limits,
    decode_ids: Seq<u64>,
    closed: Seq<bool>,
    chunked_ids: Seq<u64>,
    id: u64,
)
    requires
        b.active.contains_key(id),
        b.active[id].countable(),
        not_waiting(b.queue, id),
    ensures
        has_moved(b.active[id], b.planned(lim, decode_ids, closed, chunked_ids).active[id]),
{
    let d = b.with_decodes(lim, decode_ids, closed, decode_ids.len() as int);
    let c = d.with_chunks(lim, chunked_ids, chunked_ids.len() as int);
    decodes_go_on(b, lim, decode_ids, closed, decode_ids.len() as int);
    chunks_move(d, lim, chunked_ids, chunked_ids.len() as int, id);
    chunks_go_on(d, lim, chunked_ids, chunked_ids.len() as int, id);
    requests_go_on(c, lim, id);
}

/// A request that is admitted stands behind as many tokens of its prompt as the batch takes, and
/// the rest of the prompt is left.
pub proof fn admitted_requests_move_with_their_prompt(
    b: Batch,
    lim: Limits,
    decode_ids: Seq<u64>,
    closed: Seq<bool>,
    chunked_ids: Seq<u64>,
    i: int,
)
    requires
        0 <= i < b.queue.len() - b.planned(lim, decode_ids, closed, chunked_ids).queue.len(),
        has_own_id(b, i),
        b.queue[i].prompt_tokens.len() <= usize::MAX,
    ensures
        ({
            let r = b.queue[i];
            let s = b.planned(lim, decode_ids, closed, chunked_ids).active[r.seq_id];
            &&& s.current_pos <= r.prompt_tokens.len()
            &&& s.remaining_prefill == r.prompt_tokens.skip(s.current_pos as int)
        }),
{
    let id = b.queue[i].seq_id;
    let d = b.with_decodes(lim, decode_ids, closed, decode_ids.len() as int);
    let c = d.with_chunks(lim, chunked_ids, chunked_ids.len() as int);
    decodes_go_on(b, lim, decode_ids, closed, decode_ids.len() as int);
    chunks_go_on(d, lim, chunked_ids, chunked_ids.len() as int, id);
    assert(has_own_id(c, i));
    joining_moves(c, lim, i);
}

proof fn ended_leave(
    active: Map<u64, ActiveInfo>,
    order: Seq<u64>,
    closed: Seq<bool>,
    k: int,
    j: int,
)
    requires
        0 <= j < k <= order.len(),
        active.contains_key(order[j]),
        active[order[j]].finished() is Some || closed[j],
    ensures
        leaving(active, order, closed, k).contains((order[j], active[order[j]].handle)),
    decreases k,
{
    let all = leaving(active, order, closed, k);
    let few = leaving(active, order, closed, k - 1);
    let gone = (order[j], active[order[j]].handle);
    if j < k - 1 {
        ended_leave(active, order, closed, k - 1, j);
        let m = few.index_of(gone);
        assert(all[m] == gone);
    } else {
        assert(all[few.len() as int] == gone);
    }
}

/// A clean-up tells the client of every sequence that has ended why it has, and how many tokens
/// it got, and gives back the cache of that sequence.
pub proof fn cleanups_tell_every_client(
    scheduler: BatchScheduler,
    gone: Seq<(u64, CacheHandle)>,
    order: Seq<u64>,
    closed: Seq<bool>,
    id: u64,
)
    requires
        scheduler.cleaned(gone, order, closed),
        scheduler.sequences().contains_key(id),
        scheduler.sequences()[id].finished() is Some,
    ensures
        sent(
            scheduler.sequences()[id].event_tx,
            GenerationEvent::Finished {
                stop_reason: scheduler.sequences()[id].finished()->0,
                completion_tokens: scheduler.sequences()[id].generated_tokens.len() as usize,
            },
        ),
        gone.contains((id, scheduler.sequences()[id].handle)),
{
    let active = scheduler.sequences();
    let n = order.len() as int;
    assert(order.contains(id));
    let j = order.index_of(id);
    notice_of(active, order, n, j);
    ended_leave(active, order, closed, n, j);
    let told = notices(active, order, n);
    let event = GenerationEvent::Finished {
        stop_reason: active[id].finished()->0,
        completion_tokens: active[id].generated_tokens.len() as usize,
    };
    let m = choose|m: int| 0 <= m < told.len() && #[trigger] told[m] == (id, event);
    assert(sent(active[told[m].0].event_tx, told[m].1));
}

/// A decode job stands where its sequence does, and has the cache of its sequence.
pub open spec fn decodes_in_place(active: Map<u64, ActiveInfo>, job: DecodeJob) -> bool {
    &&& active.contains_key(job.seq_id)
    &&& job.handle == active[job.seq_id].handle
    &&& job.token_id == active[job.seq_id].generated_tokens.last()
    &&& job.position as int == active[job.seq_id].current_pos as int % 0x1_0000_0000
}

/// Every decode job of a batch feeds the last token of its sequence, at the position that the
/// sequence has reached as far as the device counts, into the cache of that sequence. The client
/// of none of them was gone.
pub proof fn decodes_go_on_in_place(
    b: Batch,
    lim: Limits,
    ids: Seq<u64>,
    closed: Seq<bool>,
    k: int,
    i: int,
)
    requires
        b.decodes.len() == 0,
        0 <= k <= ids.len(),
        0 <= i < b.with_decodes(lim, ids, closed, k).decodes.len(),
    ensures
        b.with_decodes(lim, ids, closed, k).active == b.active,
        decodes_in_place(b.active, b.with_decodes(lim, ids, closed, k).decodes[i]),
        exists|j: int|
            0 <= j < k && #[trigger] ids[j] == b.with_decodes(lim, ids, closed, k).decodes[i].seq_id
                && !closed[j],
    decreases k,
{
    if k > 0 {
        let c = b.with_decodes(lim, ids, closed, k - 1);
        same_sequences(b, lim, ids, closed, k - 1);
        if i < c.decodes.len() {
            decodes_go_on_in_place(b, lim, ids, closed, k - 1, i);
            let j = choose|j: int|
                0 <= j < k - 1 && #[trigger] ids[j] == c.decodes[i].seq_id && !closed[j];
            assert(ids[j] == c.decodes[i].seq_id);
        } else {
            assert(ids[k - 1] == b.with_decodes(lim, ids, closed, k).decodes[i].seq_id);
        }
    }
}

proof fn same_sequences(b: Batch, lim: Limits, ids: Seq<u64>, closed: Seq<bool>, k: int)
    ensures
        b.with_decodes(lim, ids, closed, k).active == b.active,
    decreases k,
{
    if k > 0 {
        same_sequences(b, lim, ids, closed, k - 1);
    }
}

} // verus!

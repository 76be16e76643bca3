//! What device calls do to the contents of tensors.
//!
//! A tensor holds rows along its first dimension. What the numbers of a row are is left open:
//! laws hold whatever the kernels of a device compute, row by row.
use crate::base::backend::{DeviceCall, DeviceEvent, Outcome};
use crate::base::numeric::Double;
use crate::base::program::{
    all_allocated, all_done, frees, step_calls, step_events, steps_events, StepCalls, Timing,
};
use crate::base::tensor::{TensorId, TensorInfo};
use vstd::prelude::*;

verus! {

/// The rows of a tensor.
pub type Rows<R> = spec_fn(int) -> R;

/// What every tensor of a device holds.
pub type Memory<R> = Map<TensorId, spec_fn(int) -> R>;

/// A tensor that a kernel takes as a whole.
pub struct Operand<R> {
    pub shape: Seq<usize>,
    pub rows: spec_fn(int) -> R,
}

/// What the kernels of a device compute. Kernels on rows are given the shape of a row.
#[verifier::reject_recursive_types(R)]
pub struct Kernels<R> {
    /// A row of a matrix product: a row and the matrix.
    pub product: spec_fn(R, Seq<usize>, Operand<R>) -> R,
    /// A normalised row: a row, the weights and epsilon.
    pub norm: spec_fn(R, Seq<usize>, Operand<R>, Double) -> R,
    /// A row with rotary embedding: a row, its position, theta and the size of a head.
    pub turn: spec_fn(R, Seq<usize>, u32, Double, usize) -> R,
    /// Attention of some queries over keys and values, with so many heads of these and so
    /// many tokens before the queries.
    pub attention: spec_fn(Seq<R>, Seq<usize>, Seq<R>, Seq<R>, usize, usize) -> Seq<R>,
    /// The activation of one row times the other.
    pub gate: spec_fn(R, R) -> R,
    /// The sum of two rows.
    pub sum: spec_fn(R, R) -> R,
    /// The embedding of a token.
    pub word: spec_fn(u32, Operand<R>) -> R,
    /// Packed indices, and norms, of a compressed row.
    pub packed: spec_fn(R, Seq<usize>, Operand<R>, Operand<R>, u8) -> R,
    pub norms: spec_fn(R, Seq<usize>, Operand<R>, Operand<R>, u8) -> R,
    /// The rows that uploaded bytes make, in a tensor of a shape.
    pub loaded: spec_fn(Seq<u8>, Seq<usize>) -> (spec_fn(int) -> R),
    /// The first bytes of a tensor of some rows and a shape.
    pub bytes: spec_fn(Seq<R>, Seq<usize>, nat) -> Seq<u8>,
}

/// A tensor as an operand.
pub open spec fn operand<R>(mem: Memory<R>, t: TensorInfo) -> Operand<R> {
    Operand { shape: t.shape, rows: mem[t.id] }
}

/// The shape of a row.
pub open spec fn row_shape(shape: Seq<usize>) -> Seq<usize> {
    shape.skip(1)
}

/// The first `n` rows.
pub open spec fn first<R>(rows: Rows<R>, n: int) -> Seq<R> {
    Seq::new(n as nat, |i: int| rows(i))
}

/// Some rows from the first on.
pub open spec fn rows_of<R>(s: Seq<R>) -> Rows<R> {
    |i: int| s[i]
}

/// Rows times a matrix.
pub open spec fn products<R>(
    k: Kernels<R>,
    a: Rows<R>,
    shape: Seq<usize>,
    w: Operand<R>,
) -> Rows<R> {
    |i: int| (k.product)(a(i), shape, w)
}

/// Normalised rows.
pub open spec fn normed<R>(
    k: Kernels<R>,
    a: Rows<R>,
    shape: Seq<usize>,
    w: Operand<R>,
    eps: Double,
) -> Rows<R> {
    |i: int| (k.norm)(a(i), shape, w, eps)
}

/// Rows with rotary embedding, each at its position.
pub open spec fn turned<R>(
    k: Kernels<R>,
    a: Rows<R>,
    shape: Seq<usize>,
    positions: Seq<u32>,
    theta: Double,
    head_dim: usize,
) -> Rows<R> {
    |i: int| (k.turn)(a(i), shape, positions[i], theta, head_dim)
}

/// The activation of rows times others.
pub open spec fn gated<R>(k: Kernels<R>, a: Rows<R>, b: Rows<R>) -> Rows<R> {
    |i: int| (k.gate)(a(i), b(i))
}

/// Sums of rows.
pub open spec fn sums<R>(k: Kernels<R>, a: Rows<R>, b: Rows<R>) -> Rows<R> {
    |i: int| (k.sum)(a(i), b(i))
}

/// The embeddings of tokens.
pub open spec fn words<R>(k: Kernels<R>, ids: Seq<u32>, table: Operand<R>) -> Rows<R> {
    |i: int| (k.word)(ids[i], table)
}

/// `dst` with `count` rows of `src`, from `src_offset` on, in place of its own from
/// `dst_offset` on.
pub open spec fn with_rows<R>(
    dst: Rows<R>,
    dst_offset: int,
    src: Rows<R>,
    src_offset: int,
    count: int,
) -> Rows<R> {
    |i: int|
        if dst_offset <= i < dst_offset + count {
            src(src_offset + (i - dst_offset))
        } else {
            dst(i)
        }
}

/// The rows of a sequence that lies in blocks of sixteen: those of its tokens, in order.
pub open spec fn gathered<R>(mem: Memory<R>, table: Seq<i32>, blocks: Seq<TensorInfo>, n: int) -> Seq<
    R,
> {
    Seq::new(n as nat, |p: int| (mem[blocks[table[p / 16] as int].id])(p % 16))
}

/// What a call does.
pub open spec fn after_call<R>(k: Kernels<R>, mem: Memory<R>, call: DeviceCall) -> Memory<R> {
    match call {
        DeviceCall::CopyToDevice { dst, data } => mem.insert(dst.id, (k.loaded)(data, dst.shape)),
        DeviceCall::Matmul { a, b, out } => mem.insert(
            out.id,
            products(k, mem[a.id], row_shape(a.shape), operand(mem, b)),
        ),
        DeviceCall::Rmsnorm { input, weight, eps, out } => mem.insert(
            out.id,
            normed(k, mem[input.id], row_shape(input.shape), operand(mem, weight), eps),
        ),
        DeviceCall::Rope { q, k: keys, positions, theta, head_dim } => mem.insert(
            q.id,
            turned(k, mem[q.id], row_shape(q.shape), positions, theta, head_dim),
        ).insert(
            keys.id,
            turned(k, mem[keys.id], row_shape(keys.shape), positions, theta, head_dim),
        ),
        DeviceCall::Attention { q, k_cache, v_cache, num_kv_heads, start_pos, out } => mem.insert(
            out.id,
            rows_of(
                (k.attention)(
                    first(mem[q.id], q.shape[0] as int),
                    row_shape(q.shape),
                    first(mem[k_cache.id], start_pos + q.shape[0]),
                    first(mem[v_cache.id], start_pos + q.shape[0]),
                    num_kv_heads,
                    start_pos,
                ),
            ),
        ),
        DeviceCall::AttentionPaged {
            q,
            block_table,
            k_blocks,
            v_blocks,
            num_kv_heads,
            kv_len,
            start_pos,
            out,
        } => mem.insert(
            out.id,
            rows_of(
                (k.attention)(
                    first(mem[q.id], q.shape[0] as int),
                    row_shape(q.shape),
                    gathered(mem, block_table, k_blocks, kv_len as int),
                    gathered(mem, block_table, v_blocks, kv_len as int),
                    num_kv_heads,
                    start_pos,
                ),
            ),
        ),
        DeviceCall::TurboquantCompress {
            input,
            rotation,
            centroids,
            bits,
            packed_out,
            norms_out,
        } => {
            let a = mem[input.id];
            let shape = row_shape(input.shape);
            let r = operand(mem, rotation);
            let c = operand(mem, centroids);
            mem.insert(
                packed_out.id,
                |i: int| (k.packed)(a(i), shape, r, c, bits),
            ).insert(norms_out.id, |i: int| (k.norms)(a(i), shape, r, c, bits))
        },
        DeviceCall::SiluMul { gate, up, out } => mem.insert(
            out.id,
            gated(k, mem[gate.id], mem[up.id]),
        ),
        DeviceCall::Embedding { token_ids, table, out } => mem.insert(
            out.id,
            words(k, token_ids, operand(mem, table)),
        ),
        DeviceCall::Add { a, b, out } => mem.insert(out.id, sums(k, mem[a.id], mem[b.id])),
        DeviceCall::CopyRows { src, dst, src_offset, dst_offset, count } => mem.insert(
            dst.id,
            with_rows(
                mem[dst.id],
                dst_offset as int,
                mem[src.id],
                src_offset as int,
                count as int,
            ),
        ),
        _ => mem,
    }
}

/// What calls do, one after the other.
pub open spec fn after_calls<R>(k: Kernels<R>, mem: Memory<R>, calls: Seq<DeviceCall>) -> Memory<R>
    decreases calls.len(),
{
    if calls.len() == 0 {
        mem
    } else {
        after_call(k, after_calls(k, mem, calls.drop_last()), calls.last())
    }
}

/// What a trace did. A call that failed did nothing.
pub open spec fn after_events<R>(
    k: Kernels<R>,
    mem: Memory<R>,
    events: Seq<DeviceEvent>,
) -> Memory<R>
    decreases events.len(),
{
    if events.len() == 0 {
        mem
    } else {
        let before = after_events(k, mem, events.drop_last());
        if events.last().outcome is Failed {
            before
        } else {
            after_call(k, before, events.last().call)
        }
    }
}

/// If bytes were copied to the host, they are those of the tensor.
pub open spec fn read_is_true<R>(k: Kernels<R>, mem: Memory<R>, e: DeviceEvent) -> bool {
    match e {
        DeviceEvent {
            call: DeviceCall::CopyToHost { src, len },
            outcome: Outcome::Bytes(b),
        } => b == (k.bytes)(first(mem[src.id], src.shape[0] as int), src.shape, len),
        _ => true,
    }
}

/// The device hands out what its tensors hold.
#[verifier::opaque]
pub open spec fn reads_are_true<R>(
    k: Kernels<R>,
    mem: Memory<R>,
    events: Seq<DeviceEvent>,
) -> bool {
    forall|i: int|
        0 <= i < events.len() ==> read_is_true(
            k,
            after_events(k, mem, events.take(i)),
            #[trigger] events[i],
        )
}

/// The tensors in use after a trace, if `used` were before it.
pub open spec fn in_use(used: Set<TensorId>, events: Seq<DeviceEvent>) -> Set<TensorId>
    decreases events.len(),
{
    if events.len() == 0 {
        used
    } else {
        let before = in_use(used, events.drop_last());
        match events.last() {
            DeviceEvent { outcome: Outcome::Tensor(t), .. } => before.insert(t.id),
            DeviceEvent { call: DeviceCall::Free { tensor }, outcome: Outcome::Done } =>
            before.remove(tensor.id),
            _ => before,
        }
    }
}

/// The device gives out memory that nothing else uses.
#[verifier::opaque]
pub open spec fn gives_fresh_memory(used: Set<TensorId>, events: Seq<DeviceEvent>) -> bool {
    forall|i: int|
        0 <= i < events.len() ==> ((#[trigger] events[i]).outcome matches Outcome::Tensor(t)
            ==> !in_use(used, events.take(i)).contains(t.id))
}

/// Nothing but the tensors in `written` has changed.
pub open spec fn changes_only<R>(before: Memory<R>, after: Memory<R>, written: Set<TensorId>) -> bool {
    forall|id: TensorId| !written.contains(id) ==> #[trigger] after[id] == before[id]
}

pub(crate) proof fn after_calls_add<R>(
    k: Kernels<R>,
    mem: Memory<R>,
    a: Seq<DeviceCall>,
    b: Seq<DeviceCall>,
)
    ensures
        after_calls(k, mem, a + b) == after_calls(k, after_calls(k, mem, a), b),
    decreases b.len(),
{
    if b.len() == 0 {
        assert(a + b =~= a);
    } else {
        after_calls_add(k, mem, a, b.drop_last());
        assert((a + b).drop_last() =~= a + b.drop_last());
    }
}

pub(crate) proof fn after_one_call<R>(k: Kernels<R>, mem: Memory<R>, c: DeviceCall)
    ensures
        after_calls(k, mem, seq![c]) == after_call(k, mem, c),
{
    reveal_with_fuel(after_calls, 2);
    assert(seq![c].drop_last() =~= Seq::empty());
}

pub(crate) proof fn after_events_add<R>(
    k: Kernels<R>,
    mem: Memory<R>,
    a: Seq<DeviceEvent>,
    b: Seq<DeviceEvent>,
)
    ensures
        after_events(k, mem, a + b) == after_events(k, after_events(k, mem, a), b),
    decreases b.len(),
{
    if b.len() == 0 {
        assert(a + b =~= a);
    } else {
        after_events_add(k, mem, a, b.drop_last());
        assert((a + b).drop_last() =~= a + b.drop_last());
    }
}

/// Events of calls that all succeed do what the calls do.
pub(crate) proof fn after_done<R>(k: Kernels<R>, mem: Memory<R>, calls: Seq<DeviceCall>)
    ensures
        after_events(k, mem, all_done(calls)) == after_calls(k, mem, calls),
    decreases calls.len(),
{
    if calls.len() > 0 {
        after_done(k, mem, calls.drop_last());
        assert(all_done(calls).drop_last() =~= all_done(calls.drop_last()));
    }
}

/// Allocations change nothing.
pub(crate) proof fn after_allocations<R>(k: Kernels<R>, mem: Memory<R>, ts: Seq<TensorInfo>)
    ensures
        after_events(k, mem, all_allocated(ts)) == mem,
    decreases ts.len(),
{
    if ts.len() > 0 {
        after_allocations(k, mem, ts.drop_last());
        assert(all_allocated(ts).drop_last() =~= all_allocated(ts.drop_last()));
    }
}

/// Releases change nothing.
pub(crate) proof fn after_releases<R>(k: Kernels<R>, mem: Memory<R>, ts: Seq<TensorInfo>)
    ensures
        after_calls(k, mem, frees(ts)) == mem,
    decreases ts.len(),
{
    if ts.len() > 0 {
        after_releases(k, mem, ts.drop_last());
        assert(frees(ts).drop_last() =~= frees(ts.drop_last()));
    }
}

/// Timers change nothing.
proof fn after_step<R>(
    k: Kernels<R>,
    mem: Memory<R>,
    step: StepCalls,
    profiling: bool,
    t: Timing,
)
    ensures
        after_events(k, mem, step_events(step, profiling, t)) == after_calls(k, mem, step.calls),
{
    after_done(k, mem, step.calls);
    if step.timed && profiling {
        let all = step_events(step, profiling, t);
        let body = all_done(step.calls);
        let begin = all.take(2);
        let end = all.skip(2 + body.len() as int);
        assert(all =~= begin + body + end);
        after_events_add(k, mem, begin + body, end);
        after_events_add(k, mem, begin, body);
        assert(after_events(k, mem, begin) == mem) by {
            reveal_with_fuel(after_events, 3);
            assert(begin.drop_last().drop_last() =~= Seq::empty());
            assert(begin.last() == all[1]);
            assert(begin.drop_last().last() == all[0]);
        }
        let m = after_calls(k, mem, step.calls);
        assert(after_events(k, m, end) == m) by {
            reveal_with_fuel(after_events, 3);
            assert(end.len() == 2);
            assert(end.drop_last().drop_last() =~= Seq::empty());
            assert(end.last() == all[all.len() - 1]);
            assert(end.drop_last().last() == all[all.len() - 2]);
        }
    }
}

/// Steps do what their calls do, timed or not.
pub(crate) proof fn after_steps<R>(
    k: Kernels<R>,
    mem: Memory<R>,
    steps: Seq<StepCalls>,
    profiling: bool,
    clock: Seq<Timing>,
)
    ensures
        after_events(k, mem, steps_events(steps, profiling, clock)) == after_calls(
            k,
            mem,
            step_calls(steps),
        ),
    decreases steps.len(),
{
    if steps.len() > 0 {
        let rest = steps.drop_last();
        after_steps(k, mem, rest, profiling, clock);
        let m = after_calls(k, mem, step_calls(rest));
        after_step(k, m, steps.last(), profiling, clock[steps.len() - 1]);
        after_events_add(
            k,
            mem,
            steps_events(rest, profiling, clock),
            step_events(steps.last(), profiling, clock[steps.len() - 1]),
        );
        after_calls_add(k, mem, step_calls(rest), steps.last().calls);
    }
}

pub(crate) proof fn in_use_add(used: Set<TensorId>, a: Seq<DeviceEvent>, b: Seq<DeviceEvent>)
    ensures
        in_use(used, a + b) == in_use(in_use(used, a), b),
    decreases b.len(),
{
    if b.len() == 0 {
        assert(a + b =~= a);
    } else {
        in_use_add(used, a, b.drop_last());
        assert((a + b).drop_last() =~= a + b.drop_last());
    }
}

/// A device that gives fresh memory does so in each part of a trace.
pub(crate) proof fn fresh_parts(used: Set<TensorId>, a: Seq<DeviceEvent>, b: Seq<DeviceEvent>)
    requires
        gives_fresh_memory(used, a + b),
    ensures
        gives_fresh_memory(used, a),
        gives_fresh_memory(in_use(used, a), b),
{
    reveal(gives_fresh_memory);
    let all = a + b;
    assert forall|i: int| 0 <= i < a.len() implies ((#[trigger] a[i]).outcome matches Outcome::Tensor(
        t,
    ) ==> !in_use(used, a.take(i)).contains(t.id)) by {
        assert(all[i] == a[i]);
        assert(all.take(i) =~= a.take(i));
    }
    assert forall|i: int| 0 <= i < b.len() implies ((#[trigger] b[i]).outcome matches Outcome::Tensor(
        t,
    ) ==> !in_use(in_use(used, a), b.take(i)).contains(t.id)) by {
        assert(all[a.len() + i] == b[i]);
        assert(all.take(a.len() + i) =~= a + b.take(i));
        in_use_add(used, a, b.take(i));
    }
}

/// A device whose reads are true has true reads in each part of a trace.
pub(crate) proof fn true_parts<R>(
    k: Kernels<R>,
    mem: Memory<R>,
    a: Seq<DeviceEvent>,
    b: Seq<DeviceEvent>,
)
    requires
        reads_are_true(k, mem, a + b),
    ensures
        reads_are_true(k, mem, a),
        reads_are_true(k, after_events(k, mem, a), b),
{
    reveal(reads_are_true);
    let all = a + b;
    assert forall|i: int| 0 <= i < a.len() implies read_is_true(
        k,
        after_events(k, mem, a.take(i)),
        #[trigger] a[i],
    ) by {
        assert(all[i] == a[i]);
        assert(all.take(i) =~= a.take(i));
    }
    let m = after_events(k, mem, a);
    assert forall|i: int| 0 <= i < b.len() implies read_is_true(
        k,
        after_events(k, m, b.take(i)),
        #[trigger] b[i],
    ) by {
        assert(all[a.len() + i] == b[i]);
        assert(all.take(a.len() + i) =~= a + b.take(i));
        after_events_add(k, mem, a, b.take(i));
    }
}

/// A tensor that a device with fresh memory gives first was not in use.
pub(crate) proof fn fresh_first(used: Set<TensorId>, events: Seq<DeviceEvent>, t: TensorInfo)
    requires
        gives_fresh_memory(used, events),
        events.len() > 0,
        events[0].outcome == Outcome::Tensor(t),
    ensures
        !used.contains(t.id),
{
    reveal(gives_fresh_memory);
    assert(events.take(0) =~= Seq::empty());
}

/// Reads that are true are so one by one.
pub(crate) proof fn true_read<R>(
    k: Kernels<R>,
    mem: Memory<R>,
    events: Seq<DeviceEvent>,
    i: int,
)
    requires
        reads_are_true(k, mem, events),
        0 <= i < events.len(),
    ensures
        read_is_true(k, after_events(k, mem, events.take(i)), events[i]),
{
    reveal(reads_are_true);
}

/// The ids of tensors.
pub open spec fn ids(ts: Seq<TensorInfo>) -> Seq<TensorId> {
    ts.map_values(|t: TensorInfo| t.id)
}

/// Tensors that a device with fresh memory gives are different, and were not in use.
pub(crate) proof fn fresh_tensors(used: Set<TensorId>, ts: Seq<TensorInfo>)
    requires
        gives_fresh_memory(used, all_allocated(ts)),
    ensures
        ids(ts).no_duplicates(),
        forall|i: int| 0 <= i < ts.len() ==> !used.contains((#[trigger] ts[i]).id),
        in_use(used, all_allocated(ts)) == used.union(ids(ts).to_set()),
    decreases ts.len(),
{
    if ts.len() == 0 {
        assert(used.union(ids(ts).to_set()) =~= used);
    } else {
        let rest = ts.drop_last();
        let all = all_allocated(ts);
        let some = all_allocated(rest);
        assert(all.drop_last() =~= some);
        assert(all =~= some + seq![all.last()]);
        fresh_parts(used, some, seq![all.last()]);
        fresh_tensors(used, rest);
        let t = ts.last();
        fresh_first(in_use(used, some), seq![all.last()], t);
        assert forall|i: int| 0 <= i < rest.len() implies (#[trigger] rest[i]).id != t.id by {
            assert(ids(rest)[i] == rest[i].id);
            assert(ids(rest).to_set().contains(rest[i].id));
        }
        assert forall|i: int| 0 <= i < ts.len() implies !used.contains((#[trigger] ts[i]).id) by {
            if i < rest.len() {
                assert(ts[i] == rest[i]);
            }
        }
        assert forall|i: int, j: int|
            0 <= i < ids(ts).len() && 0 <= j < ids(ts).len() && i != j implies ids(ts)[i] != ids(
            ts,
        )[j] by {
            assert(i < rest.len() ==> ts[i] == rest[i] && ids(rest)[i] == ids(ts)[i]);
            assert(j < rest.len() ==> ts[j] == rest[j] && ids(rest)[j] == ids(ts)[j]);
        }
        assert(in_use(used, all) =~= used.union(ids(ts).to_set())) by {
            assert forall|x: TensorId| ids(ts).to_set().contains(x) <==> ids(
                rest,
            ).to_set().contains(x) || x == t.id by {
                if ids(ts).contains(x) {
                    let i = ids(ts).index_of(x);
                    if i < rest.len() {
                        assert(ids(rest)[i] == x);
                    }
                }
                if ids(rest).contains(x) {
                    let i = ids(rest).index_of(x);
                    assert(ids(ts)[i] == x);
                }
                assert(ids(ts)[ts.len() - 1] == t.id);
            }
        }
    }
}

/// Calls that succeed without a value and release nothing keep the tensors in use.
pub(crate) proof fn use_stays(used: Set<TensorId>, events: Seq<DeviceEvent>)
    requires
        forall|i: int|
            0 <= i < events.len() ==> !((#[trigger] events[i]).call is Free) && !(
            events[i].outcome is Tensor),
    ensures
        in_use(used, events) == used,
    decreases events.len(),
{
    if events.len() > 0 {
        use_stays(used, events.drop_last());
        assert(events[events.len() - 1] == events.last());
    }
}

} // verus!

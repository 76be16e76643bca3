//! Programs for a device: sequences of calls, run in order until one fails.
//!
//! A program that runs to its end adds a known sequence of events to the
//! backend's trace. One that stops early adds a proper prefix of that sequence
//! and the failed call.
use crate::base::backend::{
    allocated, done, failed, tensor_infos, Backend, DeviceCall, DeviceEvent,
    DeviceTimer, Outcome,
};
use crate::base::dtype::DType;
use crate::base::error::{FractureError, Result};
use crate::base::numeric::{Double, Single};
use crate::base::tensor::{DeviceTensor, TensorInfo};
use vstd::prelude::*;

verus! {

/// The error of a result, if it is one.
pub open spec fn error_of<T>(r: Result<T>) -> Option<FractureError> {
    match r {
        Ok(_) => None,
        Err(e) => Some(e),
    }
}

/// The trace grew from `before` to `after` by the first `k` events of `full`, and
/// the call after those failed with `e`.
pub open spec fn stopped(
    before: Seq<DeviceEvent>,
    after: Seq<DeviceEvent>,
    full: Seq<DeviceEvent>,
    k: int,
    e: FractureError,
) -> bool {
    after == before + full.take(k).push(failed(full[k].call, e))
}

/// Running the program whose events are `full` took the trace from `before` to
/// `after`: to its end where `err` is `None`, else up to a call that failed.
pub open spec fn ran(
    before: Seq<DeviceEvent>,
    after: Seq<DeviceEvent>,
    full: Seq<DeviceEvent>,
    err: Option<FractureError>,
) -> bool {
    match err {
        None => after == before + full,
        Some(e) => exists|k: int|
            0 <= k < full.len() && #[trigger] stopped(before, after, full, k, e),
    }
}

/// The trace grew from `before` to `after`, and the last call failed with `e`.
pub open spec fn failed_with(
    before: Seq<DeviceEvent>,
    after: Seq<DeviceEvent>,
    e: FractureError,
) -> bool {
    after.len() > before.len() && after.last().outcome == Outcome::Failed(e)
}

/// A program that did not run to its end was stopped by a call that the device failed.
pub proof fn programs_fail_with_the_device(
    before: Seq<DeviceEvent>,
    after: Seq<DeviceEvent>,
    full: Seq<DeviceEvent>,
    e: FractureError,
)
    requires
        ran(before, after, full, Some(e)),
    ensures
        failed_with(before, after, e),
{
    let k = choose|k: int| 0 <= k < full.len() && #[trigger] stopped(before, after, full, k, e);
    let more = full.take(k).push(failed(full[k].call, e));
    assert(after.last() == more.last());
}

/// The program ran and ended with the error `e`: either the device failed, or the
/// program ran to its end and what followed it was refused.
pub open spec fn ended(
    before: Seq<DeviceEvent>,
    after: Seq<DeviceEvent>,
    full: Seq<DeviceEvent>,
    e: FractureError,
    refused: bool,
) -> bool {
    ||| ran(before, after, full, Some(e))
    ||| ran(before, after, full, None) && refused
}

/// A finished program followed by another one is one program.
pub(crate) proof fn ran_then(
    before: Seq<DeviceEvent>,
    middle: Seq<DeviceEvent>,
    after: Seq<DeviceEvent>,
    first: Seq<DeviceEvent>,
    second: Seq<DeviceEvent>,
    err: Option<FractureError>,
)
    requires
        ran(before, middle, first, None),
        ran(middle, after, second, err),
    ensures
        ran(before, after, first + second, err),
{
    let full = first + second;
    match err {
        None => {
            assert(before + full =~= before + first + second);
        },
        Some(e) => {
            let k = choose|k: int|
                0 <= k < second.len() && #[trigger] stopped(middle, after, second, k, e);
            let j = first.len() + k;
            assert(full[j] == second[k]);
            assert(full.take(j) =~= first + second.take(k));
            assert(before + full.take(j).push(failed(full[j].call, e)) =~= middle + second.take(
                k,
            ).push(failed(second[k].call, e)));
            assert(stopped(before, after, full, j, e));
        },
    }
}

/// A program that stopped would have stopped there whatever was to follow.
pub(crate) proof fn ran_short(
    before: Seq<DeviceEvent>,
    after: Seq<DeviceEvent>,
    first: Seq<DeviceEvent>,
    second: Seq<DeviceEvent>,
    e: FractureError,
)
    requires
        ran(before, after, first, Some(e)),
    ensures
        ran(before, after, first + second, Some(e)),
{
    let k = choose|k: int| 0 <= k < first.len() && #[trigger] stopped(before, after, first, k, e);
    let full = first + second;
    assert(full[k] == first[k]);
    assert(full.take(k) =~= first.take(k));
    assert(stopped(before, after, full, k, e));
}

/// A single call that failed.
pub(crate) proof fn ran_failed(before: Seq<DeviceEvent>, full: Seq<DeviceEvent>, e: FractureError)
    requires
        full.len() > 0,
    ensures
        ran(before, before.push(failed(full[0].call, e)), full, Some(e)),
{
    let after = before.push(failed(full[0].call, e));
    assert(after =~= before + full.take(0).push(failed(full[0].call, e)));
    assert(stopped(before, after, full, 0, e));
}

/// The rows of a table, one after the other.
pub open spec fn joined<T>(rows: Seq<Seq<T>>) -> Seq<T>
    decreases rows.len(),
{
    if rows.len() == 0 {
        Seq::empty()
    } else {
        joined(rows.drop_last()) + rows.last()
    }
}

/// A table of one row.
pub(crate) proof fn joined_one<T>(row: Seq<T>)
    ensures
        joined(seq![row]) == row,
{
    reveal_with_fuel(joined, 2);
    assert(seq![row].drop_last() =~= Seq::<Seq<T>>::empty());
    assert(joined(seq![row]) =~= row);
}

/// A device operation as a value.
pub enum DeviceCommand<'a> {
    Free { tensor: &'a DeviceTensor },
    Matmul { a: &'a DeviceTensor, b: &'a DeviceTensor, out: &'a DeviceTensor },
    Rmsnorm {
        input: &'a DeviceTensor,
        weight: &'a DeviceTensor,
        eps: Double,
        out: &'a DeviceTensor,
    },
    Rope {
        q: &'a DeviceTensor,
        k: &'a DeviceTensor,
        positions: &'a [u32],
        theta: Double,
        head_dim: usize,
    },
    Attention {
        q: &'a DeviceTensor,
        k_cache: &'a DeviceTensor,
        v_cache: &'a DeviceTensor,
        num_kv_heads: usize,
        start_pos: usize,
        out: &'a DeviceTensor,
    },
    AttentionPaged {
        q: &'a DeviceTensor,
        block_table: &'a [i32],
        k_blocks: &'a [&'a DeviceTensor],
        v_blocks: &'a [&'a DeviceTensor],
        num_kv_heads: usize,
        kv_len: usize,
        start_pos: usize,
        out: &'a DeviceTensor,
    },
    TurboquantCompress {
        input: &'a DeviceTensor,
        rotation: &'a DeviceTensor,
        centroids: &'a DeviceTensor,
        bits: u8,
        packed_out: &'a DeviceTensor,
        norms_out: &'a DeviceTensor,
    },
    SiluMul { gate: &'a DeviceTensor, up: &'a DeviceTensor, out: &'a DeviceTensor },
    Embedding { token_ids: &'a [u32], table: &'a DeviceTensor, out: &'a DeviceTensor },
    Add { a: &'a DeviceTensor, b: &'a DeviceTensor, out: &'a DeviceTensor },
    CopyRows {
        src: &'a DeviceTensor,
        dst: &'a DeviceTensor,
        src_offset: usize,
        dst_offset: usize,
        count: usize,
    },
    Synchronize,
}

impl<'a> View for DeviceCommand<'a> {
    type V = DeviceCall;

    open spec fn view(&self) -> DeviceCall {
        match *self {
            DeviceCommand::Free { tensor } => DeviceCall::Free { tensor: tensor@ },
            DeviceCommand::Matmul { a, b, out } => DeviceCall::Matmul { a: a@, b: b@, out: out@ },
            DeviceCommand::Rmsnorm { input, weight, eps, out } => DeviceCall::Rmsnorm {
                input: input@,
                weight: weight@,
                eps,
                out: out@,
            },
            DeviceCommand::Rope { q, k, positions, theta, head_dim } => DeviceCall::Rope {
                q: q@,
                k: k@,
                positions: positions@,
                theta,
                head_dim,
            },
            DeviceCommand::Attention {
                q,
                k_cache,
                v_cache,
                num_kv_heads,
                start_pos,
                out,
            } => DeviceCall::Attention {
                q: q@,
                k_cache: k_cache@,
                v_cache: v_cache@,
                num_kv_heads,
                start_pos,
                out: out@,
            },
            DeviceCommand::AttentionPaged {
                q,
                block_table,
                k_blocks,
                v_blocks,
                num_kv_heads,
                kv_len,
                start_pos,
                out,
            } => DeviceCall::AttentionPaged {
                q: q@,
                block_table: block_table@,
                k_blocks: tensor_infos(k_blocks@),
                v_blocks: tensor_infos(v_blocks@),
                num_kv_heads,
                kv_len,
                start_pos,
                out: out@,
            },
            DeviceCommand::TurboquantCompress {
                input,
                rotation,
                centroids,
                bits,
                packed_out,
                norms_out,
            } => DeviceCall::TurboquantCompress {
                input: input@,
                rotation: rotation@,
                centroids: centroids@,
                bits,
                packed_out: packed_out@,
                norms_out: norms_out@,
            },
            DeviceCommand::SiluMul { gate, up, out } => DeviceCall::SiluMul {
                gate: gate@,
                up: up@,
                out: out@,
            },
            DeviceCommand::Embedding { token_ids, table, out } => DeviceCall::Embedding {
                token_ids: token_ids@,
                table: table@,
                out: out@,
            },
            DeviceCommand::Add { a, b, out } => DeviceCall::Add { a: a@, b: b@, out: out@ },
            DeviceCommand::CopyRows {
                src,
                dst,
                src_offset,
                dst_offset,
                count,
            } => DeviceCall::CopyRows { src: src@, dst: dst@, src_offset, dst_offset, count },
            DeviceCommand::Synchronize => DeviceCall::Synchronize,
        }
    }
}

/// The calls that a list of commands makes.
pub open spec fn calls_of(commands: Seq<DeviceCommand>) -> Seq<DeviceCall> {
    commands.map_values(|c: DeviceCommand| c@)
}

/// The events of calls that all succeed.
pub open spec fn all_done(calls: Seq<DeviceCall>) -> Seq<DeviceEvent> {
    calls.map_values(|c: DeviceCall| done(c))
}

/// Appends a command to a list.
pub(crate) fn push_command<'a>(commands: &mut Vec<DeviceCommand<'a>>, command: DeviceCommand<'a>)
    ensures
        calls_of(final(commands)@) == calls_of(old(commands)@).push(command@),
{
    commands.push(command);
    assert(calls_of(commands@) =~= calls_of(old(commands)@).push(command@));
}

/// Makes the call that `command` describes.
fn issue<B: Backend>(backend: &mut B, command: &DeviceCommand) -> (res: Result<()>)
    ensures
        ran(old(backend).trace(), final(backend).trace(), seq![done(command@)], error_of(res)),
{
    let ghost before = backend.trace();
    let res = match command {
        DeviceCommand::Free { tensor } => backend.free(tensor),
        DeviceCommand::Matmul { a, b, out } => backend.matmul(a, b, out),
        DeviceCommand::Rmsnorm { input, weight, eps, out } => backend.rmsnorm(
            input,
            weight,
            *eps,
            out,
        ),
        DeviceCommand::Rope { q, k, positions, theta, head_dim } => backend.rope(
            q,
            k,
            positions,
            *theta,
            *head_dim,
        ),
        DeviceCommand::Attention {
            q,
            k_cache,
            v_cache,
            num_kv_heads,
            start_pos,
            out,
        } => backend.attention(q, k_cache, v_cache, *num_kv_heads, *start_pos, out),
        DeviceCommand::AttentionPaged {
            q,
            block_table,
            k_blocks,
            v_blocks,
            num_kv_heads,
            kv_len,
            start_pos,
            out,
        } => backend.attention_paged(
            q,
            block_table,
            k_blocks,
            v_blocks,
            *num_kv_heads,
            *kv_len,
            *start_pos,
            out,
        ),
        DeviceCommand::TurboquantCompress {
            input,
            rotation,
            centroids,
            bits,
            packed_out,
            norms_out,
        } => backend.turboquant_compress(input, rotation, centroids, *bits, packed_out, norms_out),
        DeviceCommand::SiluMul { gate, up, out } => backend.silu_mul(gate, up, out),
        DeviceCommand::Embedding { token_ids, table, out } => backend.embedding(
            token_ids,
            table,
            out,
        ),
        DeviceCommand::Add { a, b, out } => backend.add(a, b, out),
        DeviceCommand::CopyRows {
            src,
            dst,
            src_offset,
            dst_offset,
            count,
        } => backend.copy_rows(src, dst, *src_offset, *dst_offset, *count),
        DeviceCommand::Synchronize => backend.synchronize(),
    };
    proof {
        let full = seq![done(command@)];
        let after = backend.trace();
        match error_of(res) {
            None => {
                assert(after =~= before + full);
            },
            Some(e) => {
                ran_failed(before, full, e);
            },
        }
    }
    res
}

/// Makes the calls of `commands` in order and stops at the first that fails.
pub(crate) fn run_all<B: Backend>(backend: &mut B, commands: &[DeviceCommand]) -> (res: Result<()>)
    ensures
        ran(
            old(backend).trace(),
            final(backend).trace(),
            all_done(calls_of(commands@)),
            error_of(res),
        ),
{
    let ghost before = backend.trace();
    let ghost full = all_done(calls_of(commands@));
    let mut i: usize = 0;
    assert(backend.trace() =~= before + full.take(0));
    while i < commands.len()
        invariant
            before == old(backend).trace(),
            i <= commands@.len(),
            full == all_done(calls_of(commands@)),
            ran(before, backend.trace(), full.take(i as int), None),
        decreases commands@.len() - i,
    {
        let ghost middle = backend.trace();
        let r = issue(backend, &commands[i]);
        proof {
            let one = seq![done(commands@[i as int]@)];
            ran_then(before, middle, backend.trace(), full.take(i as int), one, error_of(r));
            assert(full.take(i as int) + one =~= full.take(i + 1));
            if let Some(e) = error_of(r) {
                ran_short(before, backend.trace(), full.take(i + 1), full.skip(i + 1), e);
                assert(full.take(i + 1) + full.skip(i + 1) =~= full);
            }
        }
        r?;
        i = i + 1;
    }
    assert(full.take(i as int) =~= full);
    Ok(())
}

/// `ts` are tensors of these shapes, all of the type `dtype`.
pub open spec fn shaped(ts: Seq<TensorInfo>, shapes: Seq<Seq<usize>>, dtype: DType) -> bool {
    &&& ts.len() == shapes.len()
    &&& forall|i: int|
        0 <= i < ts.len() ==> (#[trigger] ts[i]).shape == shapes[i] && ts[i].dtype == dtype
}

/// The events of allocations that gave `ts`.
pub open spec fn all_allocated(ts: Seq<TensorInfo>) -> Seq<DeviceEvent> {
    ts.map_values(|t: TensorInfo| allocated(t))
}

/// What the tensors of a vector say.
pub open spec fn infos(v: Seq<DeviceTensor>) -> Seq<TensorInfo> {
    v.map_values(|t: DeviceTensor| t@)
}

/// The contents of a vector of shapes.
pub open spec fn shapes_of(v: Seq<Vec<usize>>) -> Seq<Seq<usize>> {
    v.map_values(|s: Vec<usize>| s@)
}

/// A shape of two dimensions.
pub(crate) fn shape2(a: usize, b: usize) -> (res: Vec<usize>)
    ensures
        res@ == seq![a, b],
{
    vec![a, b]
}

/// A shape of three dimensions.
pub(crate) fn shape3(a: usize, b: usize, c: usize) -> (res: Vec<usize>)
    ensures
        res@ == seq![a, b, c],
{
    vec![a, b, c]
}

/// Allocates a tensor of each shape, in order.
pub(crate) fn allocate_each<B: Backend>(backend: &mut B, shapes: &Vec<Vec<usize>>, dtype: DType) -> (res:
    Result<Vec<DeviceTensor>>)
    ensures
        res matches Ok(v) ==> shaped(infos(v@), shapes_of(shapes@), dtype) && ran(
            old(backend).trace(),
            final(backend).trace(),
            all_allocated(infos(v@)),
            None,
        ),
        res matches Err(e) ==> exists|ts: Seq<TensorInfo>|
            shaped(ts, shapes_of(shapes@), dtype) && #[trigger] ran(
                old(backend).trace(),
                final(backend).trace(),
                all_allocated(ts),
                Some(e),
            ),
{
    let ghost before = backend.trace();
    let mut out: Vec<DeviceTensor> = Vec::new();
    let mut i: usize = 0;
    assert(backend.trace() =~= before + all_allocated(infos(out@)));
    while i < shapes.len()
        invariant
            before == old(backend).trace(),
            i <= shapes@.len(),
            out@.len() == i,
            shaped(infos(out@), shapes_of(shapes@).take(i as int), dtype),
            ran(before, backend.trace(), all_allocated(infos(out@)), None),
        decreases shapes@.len() - i,
    {
        let ghost middle = backend.trace();
        let ghost got = infos(out@);
        match backend.allocate(shapes[i].as_slice(), dtype) {
            Ok(t) => {
                proof {
                    let one = seq![allocated(t@)];
                    assert(backend.trace() =~= middle + one);
                    ran_then(before, middle, backend.trace(), all_allocated(got), one, None);
                    assert(all_allocated(got) + one =~= all_allocated(got.push(t@)));
                }
                out.push(t);
                assert(infos(out@) =~= got.push(t@));
            },
            Err(e) => {
                proof {
                    let all = shapes_of(shapes@);
                    let ts = Seq::new(
                        all.len(),
                        |j: int|
                            if j < i {
                                got[j]
                            } else {
                                TensorInfo {
                                    id: crate::base::tensor::TensorId(0),
                                    shape: all[j],
                                    dtype,
                                }
                            },
                    );
                    assert(shaped(ts, all, dtype)) by {
                        assert forall|j: int| 0 <= j < ts.len() implies (#[trigger] ts[j]).shape
                            == all[j] && ts[j].dtype == dtype by {
                            if j < i {
                                assert(got[j].shape == all.take(i as int)[j]);
                            }
                        }
                    }
                    let rest = all_allocated(ts).skip(i as int);
                    ran_failed(middle, rest, e);
                    ran_then(before, middle, backend.trace(), all_allocated(got), rest, Some(e));
                    assert(all_allocated(got) + rest =~= all_allocated(ts));
                }
                return Err(e);
            },
        }
        i = i + 1;
    }
    assert(shapes_of(shapes@).take(i as int) =~= shapes_of(shapes@));
    Ok(out)
}

/// A tensor to be allocated.
pub struct TensorSpec {
    pub shape: Vec<usize>,
    pub dtype: DType,
}

/// The shape and type that a [`TensorSpec`] asks for.
#[verifier::ext_equal]
pub struct Layout {
    pub shape: Seq<usize>,
    pub dtype: DType,
}

/// What is asked for.
pub open spec fn layouts(v: Seq<TensorSpec>) -> Seq<Layout> {
    v.map_values(|s: TensorSpec| Layout { shape: s.shape@, dtype: s.dtype })
}

/// `ts` are tensors of these layouts.
pub open spec fn laid_out(ts: Seq<TensorInfo>, ls: Seq<Layout>) -> bool {
    &&& ts.len() == ls.len()
    &&& forall|i: int|
        0 <= i < ts.len() ==> (#[trigger] ts[i]).shape == ls[i].shape && ts[i].dtype == ls[i].dtype
}

/// The allocation with number `i` of `ls` failed with `e`, after `ts` before it.
pub open spec fn allocation_failed(
    before: Seq<DeviceEvent>,
    after: Seq<DeviceEvent>,
    ts: Seq<TensorInfo>,
    ls: Seq<Layout>,
    i: int,
    e: FractureError,
) -> bool {
    &&& 0 <= i < ls.len()
    &&& laid_out(ts, ls.take(i))
    &&& after == (before + all_allocated(ts)).push(
        failed(DeviceCall::Alloc { shape: ls[i].shape, dtype: ls[i].dtype }, e),
    )
}

/// The allocation with number `i` of `ls` failed with `e`, after those before it.
pub open spec fn allocation_fails(
    before: Seq<DeviceEvent>,
    after: Seq<DeviceEvent>,
    ls: Seq<Layout>,
    i: int,
    e: FractureError,
) -> bool {
    exists|ts: Seq<TensorInfo>| #[trigger] allocation_failed(before, after, ts, ls, i, e)
}

/// Allocates a tensor of each layout, in order. A failure comes with the number of
/// the tensor that could not be had.
pub(crate) fn allocate_mixed<B: Backend>(backend: &mut B, specs: &Vec<TensorSpec>) -> (res:
    core::result::Result<Vec<DeviceTensor>, (usize, FractureError)>)
    ensures
        res matches Ok(v) ==> laid_out(infos(v@), layouts(specs@)) && ran(
            old(backend).trace(),
            final(backend).trace(),
            all_allocated(infos(v@)),
            None,
        ),
        res matches Err(f) ==> allocation_fails(
            old(backend).trace(),
            final(backend).trace(),
            layouts(specs@),
            f.0 as int,
            f.1,
        ),
{
    let ghost before = backend.trace();
    let ghost ls = layouts(specs@);
    let mut out: Vec<DeviceTensor> = Vec::new();
    let mut i: usize = 0;
    assert(backend.trace() =~= before + all_allocated(infos(out@)));
    while i < specs.len()
        invariant
            before == old(backend).trace(),
            i <= specs@.len(),
            ls == layouts(specs@),
            out@.len() == i,
            laid_out(infos(out@), ls.take(i as int)),
            backend.trace() == before + all_allocated(infos(out@)),
        decreases specs@.len() - i,
    {
        let ghost got = infos(out@);
        match backend.allocate(specs[i].shape.as_slice(), specs[i].dtype) {
            Ok(t) => {
                out.push(t);
                proof {
                    assert(infos(out@) =~= got.push(t@));
                    assert(all_allocated(got.push(t@)) =~= all_allocated(got).push(allocated(t@)));
                    assert(backend.trace() =~= before + all_allocated(infos(out@)));
                    assert forall|j: int| 0 <= j < i + 1 implies (#[trigger] infos(out@)[j]).shape
                        == ls.take(i + 1)[j].shape && infos(out@)[j].dtype == ls.take(
                        i + 1,
                    )[j].dtype by {
                        if j < i {
                            assert(infos(out@)[j] == got[j]);
                            assert(ls.take(i as int)[j] == ls.take(i + 1)[j]);
                        }
                    }
                }
            },
            Err(e) => {
                assert(allocation_failed(before, backend.trace(), got, ls, i as int, e));
                assert(allocation_fails(before, backend.trace(), ls, i as int, e));
                return Err((i, e));
            },
        }
        i = i + 1;
    }
    assert(ls.take(i as int) =~= ls);
    Ok(out)
}

/// The events that allocate `t` and fill it with `data`.
pub open spec fn upload_events(t: TensorInfo, data: Seq<u8>) -> Seq<DeviceEvent> {
    seq![allocated(t), done(DeviceCall::CopyToDevice { dst: t, data })]
}

/// The events that upload each piece of data, in order.
pub open spec fn uploads(ts: Seq<TensorInfo>, data: Seq<Seq<u8>>) -> Seq<DeviceEvent>
    decreases ts.len(),
{
    if ts.len() == 0 {
        Seq::empty()
    } else {
        uploads(ts.drop_last(), data) + upload_events(ts.last(), data[ts.len() - 1])
    }
}

/// The contents of a vector of byte strings.
pub open spec fn bytes_of(v: Seq<Vec<u8>>) -> Seq<Seq<u8>> {
    v.map_values(|b: Vec<u8>| b@)
}

/// The first uploads come first.
proof fn uploads_prefix(ts: Seq<TensorInfo>, data: Seq<Seq<u8>>, i: int)
    requires
        0 <= i <= ts.len(),
    ensures
        uploads(ts.take(i), data).is_prefix_of(uploads(ts, data)),
    decreases ts.len(),
{
    if i == ts.len() {
        assert(ts.take(i) =~= ts);
    } else {
        uploads_prefix(ts.drop_last(), data, i);
        assert(ts.drop_last().take(i) =~= ts.take(i));
    }
}

/// Uploads each piece of data into a new tensor of its shape, in order.
pub(crate) fn upload_each<B: Backend>(
    backend: &mut B,
    shapes: &Vec<Vec<usize>>,
    dtype: DType,
    data: &Vec<Vec<u8>>,
) -> (res: Result<Vec<DeviceTensor>>)
    requires
        shapes@.len() == data@.len(),
    ensures
        exists|ts: Seq<TensorInfo>|
            shaped(ts, shapes_of(shapes@), dtype) && (res matches Ok(v) ==> infos(v@) == ts)
                && #[trigger] ran(
                old(backend).trace(),
                final(backend).trace(),
                uploads(ts, bytes_of(data@)),
                error_of(res),
            ),
{
    let ghost before = backend.trace();
    let ghost all = shapes_of(shapes@);
    let ghost bytes = bytes_of(data@);
    let mut out: Vec<DeviceTensor> = Vec::new();
    let mut i: usize = 0;
    assert(before + uploads(infos(out@), bytes) =~= before);
    while i < shapes.len()
        invariant
            before == old(backend).trace(),
            shapes@.len() == data@.len(),
            all == shapes_of(shapes@),
            bytes == bytes_of(data@),
            i <= shapes@.len(),
            out@.len() == i,
            shaped(infos(out@), all.take(i as int), dtype),
            backend.trace() == before + uploads(infos(out@), bytes),
        decreases shapes@.len() - i,
    {
        let ghost got = infos(out@);
        let ghost middle = backend.trace();
        let ghost blank = |j: int|
            TensorInfo { id: crate::base::tensor::TensorId(0), shape: all[j], dtype };
        match backend.allocate(shapes[i].as_slice(), dtype) {
            Err(e) => {
                proof {
                    let one = upload_events(blank(i as int), bytes[i as int]);
                    ran_failed(middle, one, e);
                    upload_stops(
                        all,
                        dtype,
                        bytes,
                        got,
                        blank(i as int),
                        before,
                        middle,
                        backend.trace(),
                        e,
                    );
                }
                return Err(e);
            },
            Ok(t) => {
                let ghost at_copy = backend.trace();
                let ghost one = upload_events(t@, bytes[i as int]);
                let r = backend.copy_to_device(&t, data[i].as_slice());
                proof {
                    assert(at_copy =~= middle + one.take(1));
                    match error_of(r) {
                        None => {
                            assert(backend.trace() =~= at_copy + one.skip(1));
                        },
                        Some(e) => {
                            ran_failed(at_copy, one.skip(1), e);
                        },
                    }
                    ran_then(
                        middle,
                        at_copy,
                        backend.trace(),
                        one.take(1),
                        one.skip(1),
                        error_of(r),
                    );
                    assert(one.take(1) + one.skip(1) =~= one);
                    if let Some(e) = error_of(r) {
                        upload_stops(
                            all,
                            dtype,
                            bytes,
                            got,
                            t@,
                            before,
                            middle,
                            backend.trace(),
                            e,
                        );
                    }
                }
                match r {
                    Ok(_) => {},
                    Err(e) => {
                        return Err(e);
                    },
                }
                out.push(t);
                proof {
                    assert(infos(out@) =~= got.push(t@));
                    assert(infos(out@).drop_last() =~= got);
                    assert(backend.trace() =~= before + uploads(infos(out@), bytes));
                    assert forall|j: int| 0 <= j < i + 1 implies (#[trigger] infos(out@)[j]).shape
                        == all.take(i + 1)[j] && infos(out@)[j].dtype == dtype by {
                        if j < i {
                            assert(infos(out@)[j] == got[j]);
                            assert(all.take(i as int)[j] == all.take(i + 1)[j]);
                        }
                    }
                }
            },
        }
        i = i + 1;
    }
    assert(all.take(i as int) =~= all);
    assert(ran(
        before,
        backend.trace(),
        uploads(infos(out@), bytes_of(data@)),
        None::<FractureError>,
    ));
    Ok(out)
}

/// A failure of one upload after others is a failure of all.
proof fn upload_stops(
    all: Seq<Seq<usize>>,
    dtype: DType,
    bytes: Seq<Seq<u8>>,
    got: Seq<TensorInfo>,
    t: TensorInfo,
    before: Seq<DeviceEvent>,
    middle: Seq<DeviceEvent>,
    after: Seq<DeviceEvent>,
    e: FractureError,
)
    requires
        got.len() < all.len(),
        shaped(got, all.take(got.len() as int), dtype),
        t.shape == all[got.len() as int],
        t.dtype == dtype,
        middle == before + uploads(got, bytes),
        ran(middle, after, upload_events(t, bytes[got.len() as int]), Some(e)),
    ensures
        exists|ts: Seq<TensorInfo>|
            shaped(ts, all, dtype) && #[trigger] ran(
                before,
                after,
                uploads(ts, bytes),
                Some(e),
            ),
{
    let i = got.len() as int;
    let next = got.push(t);
    let ts = Seq::new(
        all.len(),
        |j: int|
            if j <= i {
                next[j]
            } else {
                TensorInfo { id: crate::base::tensor::TensorId(0), shape: all[j], dtype }
            },
    );
    assert forall|j: int| 0 <= j < ts.len() implies (#[trigger] ts[j]).shape == all[j] && ts[j].dtype
        == dtype by {
        if j < i {
            assert(got[j].shape == all.take(i)[j]);
        }
    }
    ran_then(
        before,
        middle,
        after,
        uploads(got, bytes),
        upload_events(t, bytes[i]),
        Some(e),
    );
    assert(next.drop_last() =~= got);
    assert(ts.take(i + 1) =~= next);
    uploads_prefix(ts, bytes, i + 1);
    let full = uploads(ts, bytes);
    let part = uploads(next, bytes);
    ran_short(before, after, part, full.skip(part.len() as int), e);
    assert(part + full.skip(part.len() as int) =~= full);
}

/// The calls that free `ts`.
pub open spec fn frees(ts: Seq<TensorInfo>) -> Seq<DeviceCall> {
    ts.map_values(|t: TensorInfo| DeviceCall::Free { tensor: t })
}

/// Frees the tensors in order and stops at the first failure.
pub(crate) fn free_each<B: Backend>(backend: &mut B, tensors: &[DeviceTensor]) -> (res: Result<()>)
    ensures
        ran(
            old(backend).trace(),
            final(backend).trace(),
            all_done(frees(infos(tensors@))),
            error_of(res),
        ),
{
    let mut commands: Vec<DeviceCommand> = Vec::new();
    let mut i: usize = 0;
    while i < tensors.len()
        invariant
            i <= tensors@.len(),
            calls_of(commands@) =~= frees(infos(tensors@)).take(i as int),
        decreases tensors@.len() - i,
    {
        push_command(&mut commands, DeviceCommand::Free { tensor: &tensors[i] });
        i = i + 1;
    }
    assert(calls_of(commands@) =~= frees(infos(tensors@)));
    run_all(backend, commands.as_slice())
}

/// A group of calls that is timed as a whole where profiling is on.
pub struct Step<'a> {
    pub timed: bool,
    pub commands: Vec<DeviceCommand<'a>>,
}

/// What a [`Step`] says.
#[verifier::ext_equal]
pub struct StepCalls {
    pub timed: bool,
    pub calls: Seq<DeviceCall>,
}

impl<'a> View for Step<'a> {
    type V = StepCalls;

    open spec fn view(&self) -> StepCalls {
        StepCalls { timed: self.timed, calls: calls_of(self.commands@) }
    }
}

/// A timer, and the time that it measured.
pub struct Timing {
    pub timer: DeviceTimer,
    pub elapsed: Single,
}

/// The events of a step. Where it is timed, its calls stand between the creation
/// and start of a timer and the stop and destruction of it.
pub open spec fn step_events(step: StepCalls, profiling: bool, t: Timing) -> Seq<DeviceEvent> {
    if step.timed && profiling {
        seq![
            DeviceEvent { call: DeviceCall::CreateTimer, outcome: Outcome::Timer(t.timer) },
            done(DeviceCall::StartTimer { timer: t.timer }),
        ] + all_done(step.calls) + seq![
            DeviceEvent {
                call: DeviceCall::StopTimer { timer: t.timer },
                outcome: Outcome::Elapsed(t.elapsed),
            },
            done(DeviceCall::DestroyTimer { timer: t.timer }),
        ]
    } else {
        all_done(step.calls)
    }
}

/// The time that a step reports: zero where nothing was measured.
pub open spec fn step_time(step: StepCalls, profiling: bool, t: Timing) -> Single {
    if step.timed && profiling {
        t.elapsed
    } else {
        Single { bits: 0 }
    }
}

/// Runs one step, and returns the elapsed milliseconds.
///
/// Without profiling no timer is created and the time is zero.
pub fn timed_op<B: Backend>(backend: &mut B, profiling: bool, step: &Step) -> (res: Result<Single>)
    ensures
        exists|t: Timing|
            (res matches Ok(ms) ==> ms == step_time(step@, profiling, t)) && #[trigger] ran(
                old(backend).trace(),
                final(backend).trace(),
                step_events(step@, profiling, t),
                error_of(res),
            ),
{
    let ghost before = backend.trace();
    let ghost body = all_done(step@.calls);
    if !(step.timed && profiling) {
        let r = run_all(backend, step.commands.as_slice());
        proof {
            let t = Timing { timer: DeviceTimer(0), elapsed: Single { bits: 0 } };
            assert(ran(before, backend.trace(), step_events(step@, profiling, t), error_of(r)));
        }
        return match r {
            Ok(_) => Ok(Single { bits: 0 }),
            Err(e) => Err(e),
        };
    }
    let timer = match backend.create_timer() {
        Ok(timer) => timer,
        Err(e) => {
            proof {
                let t = Timing { timer: DeviceTimer(0), elapsed: Single { bits: 0 } };
                ran_failed(before, step_events(step@, profiling, t), e);
            }
            return Err(e);
        },
    };
    let ghost t0 = Timing { timer, elapsed: Single { bits: 0 } };
    let ghost created = seq![
        DeviceEvent { call: DeviceCall::CreateTimer, outcome: Outcome::Timer(timer) },
    ];
    let ghost started = created.push(done(DeviceCall::StartTimer { timer }));
    assert(backend.trace() =~= before + created);
    let ghost at_start = backend.trace();
    if let Err(e) = backend.start_timer(&timer) {
        proof {
            let rest = step_events(step@, profiling, t0).skip(1);
            ran_failed(at_start, rest, e);
            ran_then(before, at_start, backend.trace(), created, rest, Some(e));
            assert(created + rest =~= step_events(step@, profiling, t0));
        }
        return Err(e);
    }
    assert(backend.trace() =~= before + started);
    let ghost at_body = backend.trace();
    let r = run_all(backend, step.commands.as_slice());
    proof {
        ran_then(before, at_body, backend.trace(), started, body, error_of(r));
        if let Some(e) = error_of(r) {
            let tail = step_events(step@, profiling, t0).skip((started + body).len() as int);
            ran_short(before, backend.trace(), started + body, tail, e);
            assert(started + body + tail =~= step_events(step@, profiling, t0));
        }
    }
    r?;
    let ghost at_stop = backend.trace();
    let elapsed = match backend.stop_timer(&timer) {
        Ok(ms) => ms,
        Err(e) => {
            proof {
                let rest = step_events(step@, profiling, t0).skip((started + body).len() as int);
                ran_failed(at_stop, rest, e);
                ran_then(before, at_stop, backend.trace(), started + body, rest, Some(e));
                assert(started + body + rest =~= step_events(step@, profiling, t0));
            }
            return Err(e);
        },
    };
    let ghost t = Timing { timer, elapsed };
    let ghost stop = seq![
        DeviceEvent {
            call: DeviceCall::StopTimer { timer },
            outcome: Outcome::Elapsed(elapsed),
        },
    ];
    let ghost full = step_events(step@, profiling, t);
    let ghost at_destroy = backend.trace();
    let r = backend.destroy_timer(&timer);
    proof {
        assert(at_destroy =~= at_stop + stop);
        ran_then(before, at_stop, at_destroy, started + body, stop, None);
        let last = seq![done(DeviceCall::DestroyTimer { timer })];
        match error_of(r) {
            None => {
                assert(backend.trace() =~= at_destroy + last);
            },
            Some(e) => {
                ran_failed(at_destroy, last, e);
            },
        }
        ran_then(before, at_destroy, backend.trace(), started + body + stop, last, error_of(r));
        assert(started + body + stop + last =~= full);
    }
    match r {
        Ok(_) => Ok(elapsed),
        Err(e) => Err(e),
    }
}

/// The events of steps, in order.
pub open spec fn steps_events(steps: Seq<StepCalls>, profiling: bool, clock: Seq<Timing>) -> Seq<
    DeviceEvent,
>
    decreases steps.len(),
{
    if steps.len() == 0 {
        Seq::empty()
    } else {
        steps_events(steps.drop_last(), profiling, clock) + step_events(
            steps.last(),
            profiling,
            clock[steps.len() - 1],
        )
    }
}

/// What a list of steps says.
pub open spec fn steps_of(v: Seq<Step>) -> Seq<StepCalls> {
    v.map_values(|s: Step| s@)
}

proof fn steps_events_prefix(
    steps: Seq<StepCalls>,
    profiling: bool,
    a: Seq<Timing>,
    b: Seq<Timing>,
)
    requires
        steps.len() <= a.len(),
        a.is_prefix_of(b),
    ensures
        steps_events(steps, profiling, a) == steps_events(steps, profiling, b),
    decreases steps.len(),
{
    if steps.len() > 0 {
        steps_events_prefix(steps.drop_last(), profiling, a, b);
    }
}

proof fn steps_events_split(steps: Seq<StepCalls>, profiling: bool, clock: Seq<Timing>, i: int)
    requires
        0 <= i <= steps.len(),
    ensures
        steps_events(steps.take(i), profiling, clock).is_prefix_of(
            steps_events(steps, profiling, clock),
        ),
    decreases steps.len(),
{
    if i == steps.len() {
        assert(steps.take(i) =~= steps);
    } else {
        steps_events_split(steps.drop_last(), profiling, clock, i);
        assert(steps.drop_last().take(i) =~= steps.take(i));
    }
}

/// One more step after the first ones: either they are one step further, or the
/// whole stopped there.
proof fn steps_extend(
    before: Seq<DeviceEvent>,
    middle: Seq<DeviceEvent>,
    after: Seq<DeviceEvent>,
    all: Seq<StepCalls>,
    profiling: bool,
    clock: Seq<Timing>,
    t: Timing,
    err: Option<FractureError>,
)
    requires
        clock.len() < all.len(),
        ran(
            before,
            middle,
            steps_events(all.take(clock.len() as int), profiling, clock),
            None,
        ),
        ran(middle, after, step_events(all[clock.len() as int], profiling, t), err),
    ensures
        err is None ==> ran(
            before,
            after,
            steps_events(all.take(clock.len() as int + 1), profiling, clock.push(t)),
            None,
        ),
        err is Some ==> exists|whole: Seq<Timing>|
            whole.len() == all.len() && #[trigger] ran(
                before,
                after,
                steps_events(all, profiling, whole),
                err,
            ),
{
    let i = clock.len() as int;
    let first = steps_events(all.take(i), profiling, clock);
    let one = step_events(all[i], profiling, t);
    ran_then(before, middle, after, first, one, err);
    let next = clock.push(t);
    steps_events_prefix(all.take(i), profiling, clock, next);
    assert(all.take(i + 1).drop_last() =~= all.take(i));
    assert(steps_events(all.take(i + 1), profiling, next) == first + one);
    if let Some(e) = err {
        let whole = Seq::new(
            all.len(),
            |j: int|
                if j <= i {
                    next[j]
                } else {
                    t
                },
        );
        assert(next.is_prefix_of(whole));
        steps_events_prefix(all.take(i + 1), profiling, next, whole);
        steps_events_split(all, profiling, whole, i + 1);
        let full = steps_events(all, profiling, whole);
        let part = steps_events(all.take(i + 1), profiling, whole);
        ran_short(before, after, part, full.skip(part.len() as int), e);
        assert(part + full.skip(part.len() as int) =~= full);
        assert(ran(before, after, steps_events(all, profiling, whole), err));
    }
}

/// The calls of all steps, one after the other.
pub open spec fn step_calls(steps: Seq<StepCalls>) -> Seq<DeviceCall>
    decreases steps.len(),
{
    if steps.len() == 0 {
        Seq::empty()
    } else {
        step_calls(steps.drop_last()) + steps.last().calls
    }
}

/// Without profiling, the events of steps are those of their calls.
proof fn untimed_events(steps: Seq<StepCalls>, clock: Seq<Timing>)
    ensures
        steps_events(steps, false, clock) == all_done(step_calls(steps)),
    decreases steps.len(),
{
    if steps.len() > 0 {
        untimed_events(steps.drop_last(), clock);
        assert(all_done(step_calls(steps.drop_last())) + all_done(steps.last().calls) =~= all_done(
            step_calls(steps),
        ));
    } else {
        assert(all_done(step_calls(steps)) =~= Seq::empty());
    }
}

/// Runs the steps in order without timing them.
pub(crate) fn run_untimed<B: Backend>(backend: &mut B, steps: &Vec<Step>) -> (res: Result<()>)
    ensures
        ran(
            old(backend).trace(),
            final(backend).trace(),
            all_done(step_calls(steps_of(steps@))),
            error_of(res),
        ),
{
    let ghost before = backend.trace();
    let r = run_steps(backend, false, steps);
    proof {
        let clock = choose|clock: Seq<Timing>|
            clock.len() == steps@.len() && #[trigger] ran(
                before,
                backend.trace(),
                steps_events(steps_of(steps@), false, clock),
                error_of(r),
            );
        untimed_events(steps_of(steps@), clock);
    }
    match r {
        Ok(_) => Ok(()),
        Err(e) => Err(e),
    }
}

/// Runs the steps in order, and returns the time of each.
pub(crate) fn run_steps<B: Backend>(backend: &mut B, profiling: bool, steps: &Vec<Step>) -> (res: Result<
    Vec<Single>,
>)
    ensures
        exists|clock: Seq<Timing>|
            clock.len() == steps@.len() && (res matches Ok(ms) ==> ms@.len() == steps@.len() && (
            forall|i: int|
                0 <= i < steps@.len() ==> ms@[i] == step_time(
                    steps@[i]@,
                    profiling,
                    #[trigger] clock[i],
                ))) && #[trigger] ran(
                old(backend).trace(),
                final(backend).trace(),
                steps_events(steps_of(steps@), profiling, clock),
                error_of(res),
            ),
{
    let ghost before = backend.trace();
    let ghost all = steps_of(steps@);
    let ghost mut clock: Seq<Timing> = Seq::empty();
    let mut ms: Vec<Single> = Vec::new();
    let mut i: usize = 0;
    assert(all.take(0) =~= Seq::empty());
    assert(backend.trace() =~= before + steps_events(all.take(0), profiling, clock));
    while i < steps.len()
        invariant
            before == old(backend).trace(),
            i <= steps@.len(),
            all == steps_of(steps@),
            clock.len() == i,
            ms@.len() == i,
            forall|j: int|
                0 <= j < i ==> ms@[j] == step_time(steps@[j]@, profiling, #[trigger] clock[j]),
            ran(
                before,
                backend.trace(),
                steps_events(all.take(i as int), profiling, clock),
                None,
            ),
        decreases steps@.len() - i,
    {
        let ghost middle = backend.trace();
        let r = timed_op(backend, profiling, &steps[i]);
        let ghost t = choose|t: Timing|
            (r matches Ok(ms) ==> ms == step_time(steps@[i as int]@, profiling, t))
                && #[trigger] ran(
                middle,
                backend.trace(),
                step_events(steps@[i as int]@, profiling, t),
                error_of(r),
            );
        proof {
            steps_extend(before, middle, backend.trace(), all, profiling, clock, t, error_of(r));
            clock = clock.push(t);
        }
        ms.push(r?);
        i = i + 1;
    }
    assert(all.take(i as int) =~= all);
    Ok(ms)
}

} // verus!

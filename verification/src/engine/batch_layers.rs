//! The layers of a forward pass over a batch of sequences.
//!
//! Operations per token run on the whole batch. Keys and values are appended, and
//! attention runs, sequence by sequence, on slices of the batch.
use crate::base::backend::{allocated, done, Backend, DeviceCall, DeviceEvent};
use crate::base::dtype::DType;
use crate::base::error::{FractureError, Result};
use crate::base::model_config::ModelConfig;
use crate::base::program::{
    all_allocated, all_done, allocate_each, calls_of, ended, error_of, frees, infos, joined,
    push_command, ran, ran_failed, ran_short, ran_then, run_all, shape3, shaped, shapes_of,
    DeviceCommand,
};
use crate::base::tensor::{DeviceTensor, TensorId, TensorInfo};
use crate::engine::block_table::BlocksInfo;
use crate::engine::kv_cache::CacheHandle;
use crate::engine::paged::{attention_call, k_column, make_table_ids, v_column};
use crate::engine::paged_kv_cache::{write_calls, CacheModel, PagedKvCacheManager};
use crate::engine::staged::{ended_staged, joined_split, outcome_stops, stage_stops, staged_outcome};
use crate::engine::transformer::{HeadViews, HeadViewsInfo};
use vstd::prelude::*;

verus! {

/// One sequence's part of a batch.
#[derive(Debug, Clone, Copy, PartialEq, Eq, Structural)]
pub struct Part {
    pub handle: CacheHandle,
    /// The first of its tokens in the batch.
    pub offset: usize,
    /// The number of its tokens.
    pub n: usize,
    /// Tokens cached before this batch.
    pub start_pos: usize,
}

/// The bookkeeping after a layer appended the first `j` parts.
pub open spec fn appended(m: CacheModel, parts: Seq<Part>, layer: int, j: int) -> CacheModel
    decreases j,
{
    if j <= 0 {
        m
    } else {
        appended(m, parts, layer, j - 1).append(
            parts[j - 1].handle,
            layer,
            parts[j - 1].n as int,
        )
    }
}

/// There are blocks for part `j` after those before it.
pub open spec fn has_room_at(m: CacheModel, parts: Seq<Part>, layer: int, j: int) -> bool {
    appended(m, parts, layer, j).has_room(parts[j].handle, layer, parts[j].n as int)
}

/// There are blocks for the first `k` parts.
pub open spec fn have_room(m: CacheModel, parts: Seq<Part>, layer: int, k: int) -> bool {
    forall|j: int| 0 <= j < k ==> #[trigger] has_room_at(m, parts, layer, j)
}

/// `ts` are slices of the batch by heads, one per part.
pub open spec fn are_slices(
    ts: Seq<TensorInfo>,
    parts: Seq<Part>,
    heads: usize,
    dim: usize,
) -> bool {
    &&& ts.len() == parts.len()
    &&& forall|j: int|
        0 <= j < ts.len() ==> is_slice(#[trigger] ts[j], parts[j].n, heads, dim)
}

/// A half-precision tensor of `n` tokens by heads.
pub open spec fn is_slice(t: TensorInfo, n: usize, heads: usize, dim: usize) -> bool {
    t.shape == seq![n, heads, dim] && t.dtype == DType::FP16
}

/// Some slice of the right shape.
pub open spec fn blank_slice(n: usize, heads: usize, dim: usize) -> TensorInfo {
    TensorInfo { id: TensorId(0), shape: seq![n, heads, dim], dtype: DType::FP16 }
}

/// The events that copy a part's keys and values out of the batch.
pub open spec fn slice_events(
    views: HeadViewsInfo,
    part: Part,
    k: TensorInfo,
    v: TensorInfo,
) -> Seq<DeviceEvent> {
    seq![
        allocated(k),
        allocated(v),
        done(
            DeviceCall::CopyRows {
                src: views.k,
                dst: k,
                src_offset: part.offset,
                dst_offset: 0,
                count: part.n,
            },
        ),
        done(
            DeviceCall::CopyRows {
                src: views.v,
                dst: v,
                src_offset: part.offset,
                dst_offset: 0,
                count: part.n,
            },
        ),
    ]
}

/// The events that write a part's keys and values to the cache and release the
/// slices. `t` is the sequence with the new tokens counted in.
pub open spec fn store_events(
    tensors: Seq<Seq<TensorInfo>>,
    t: BlocksInfo,
    layer: int,
    part: Part,
    k: TensorInfo,
    v: TensorInfo,
) -> Seq<DeviceEvent> {
    all_done(write_calls(tensors, t, layer, k, v, part.n as int)) + all_done(frees(seq![k, v]))
}

/// What the appending of a batch to one layer is given.
pub struct AppendInfo {
    pub views: HeadViewsInfo,
    pub tensors: Seq<Seq<TensorInfo>>,
    pub cache: CacheModel,
    pub parts: Seq<Part>,
    pub layer: int,
}

impl AppendInfo {
    /// The bookkeeping after the first `j` parts.
    pub open spec fn after(self, j: int) -> CacheModel {
        appended(self.cache, self.parts, self.layer, j)
    }

    /// The bookkeeping during each stage.
    pub open spec fn caches(self) -> Seq<CacheModel> {
        Seq::new(self.parts.len() + 1, |j: int| self.after(j))
    }

    /// The end of stage `j`: part `j` is sliced.
    pub open spec fn slicing(self, ks: Seq<TensorInfo>, vs: Seq<TensorInfo>, j: int) -> Seq<
        DeviceEvent,
    > {
        if j < self.parts.len() {
            slice_events(self.views, self.parts[j], ks[j], vs[j])
        } else {
            Seq::empty()
        }
    }

    /// The beginning of stage `j`: the part before is stored.
    pub open spec fn storing(self, ks: Seq<TensorInfo>, vs: Seq<TensorInfo>, j: int) -> Seq<
        DeviceEvent,
    > {
        if j > 0 {
            store_events(
                self.tensors,
                self.after(j).seqs[self.parts[j - 1].handle.0],
                self.layer,
                self.parts[j - 1],
                ks[j - 1],
                vs[j - 1],
            )
        } else {
            Seq::empty()
        }
    }

    /// The stages. Between stage `j` and the next, part `j` is counted in.
    pub open spec fn stages(self, ks: Seq<TensorInfo>, vs: Seq<TensorInfo>) -> Seq<
        Seq<DeviceEvent>,
    > {
        Seq::new(
            self.parts.len() + 1,
            |j: int| self.storing(ks, vs, j) + self.slicing(ks, vs, j),
        )
    }

    /// The number of stages that can run: all of them, or those up to the first part
    /// without room.
    pub open spec fn limit(self) -> int {
        if have_room(self.cache, self.parts, self.layer, self.parts.len() as int) {
            self.parts.len() as int + 1
        } else {
            1 + choose|j: int|
                0 <= j < self.parts.len() && !(#[trigger] has_room_at(
                    self.cache,
                    self.parts,
                    self.layer,
                    j,
                )) && have_room(self.cache, self.parts, self.layer, j)
        }
    }

    /// How appending ends.
    pub open spec fn outcome(
        self,
        ks: Seq<TensorInfo>,
        vs: Seq<TensorInfo>,
        exhausted: FractureError,
        before: Seq<DeviceEvent>,
        after: Seq<DeviceEvent>,
        cache: CacheModel,
        err: Option<FractureError>,
    ) -> bool {
        staged_outcome(
            self.stages(ks, vs),
            self.caches(),
            self.limit(),
            exhausted,
            before,
            after,
            cache,
            err,
        )
    }
}

/// Copies one part's keys and values out of the batch.
fn slice_part<B: Backend>(
    backend: &mut B,
    cfg: &ModelConfig,
    views: &HeadViews,
    part: Part,
) -> (res: Result<(DeviceTensor, DeviceTensor)>)
    ensures
        exists|k: TensorInfo, v: TensorInfo|
            is_slice(k, part.n, cfg.num_kv_heads, cfg.head_dim) && is_slice(
                v,
                part.n,
                cfg.num_kv_heads,
                cfg.head_dim,
            ) && (res matches Ok(r) ==> r.0@ == k && r.1@ == v) && #[trigger] ran(
                old(backend).trace(),
                final(backend).trace(),
                slice_events(views@, part, k, v),
                error_of(res),
            ),
{
    let ghost before = backend.trace();
    let mut shapes: Vec<Vec<usize>> = Vec::new();
    shapes.push(shape3(part.n, cfg.num_kv_heads, cfg.head_dim));
    shapes.push(shape3(part.n, cfg.num_kv_heads, cfg.head_dim));
    let ghost shape = seq![part.n, cfg.num_kv_heads, cfg.head_dim];
    assert(shapes_of(shapes@) =~= seq![shape, shape]);
    let mut got = match allocate_each(backend, &shapes, DType::FP16) {
        Ok(got) => got,
        Err(e) => {
            proof {
                let ts = choose|ts: Seq<TensorInfo>|
                    shaped(ts, shapes_of(shapes@), DType::FP16) && #[trigger] ran(
                        before,
                        backend.trace(),
                        all_allocated(ts),
                        Some(e),
                    );
                let full = slice_events(views@, part, ts[0], ts[1]);
                ran_short(before, backend.trace(), all_allocated(ts), full.skip(2), e);
                assert(all_allocated(ts) + full.skip(2) =~= full);
            }
            return Err(e);
        },
    };
    let ghost ts = infos(got@);
    let v = got.pop().unwrap();
    let k = got.pop().unwrap();
    let ghost full = slice_events(views@, part, k@, v@);
    let ghost middle = backend.trace();
    let mut commands: Vec<DeviceCommand> = Vec::new();
    push_command(
        &mut commands,
        DeviceCommand::CopyRows {
            src: &views.k,
            dst: &k,
            src_offset: part.offset,
            dst_offset: 0,
            count: part.n,
        },
    );
    push_command(
        &mut commands,
        DeviceCommand::CopyRows {
            src: &views.v,
            dst: &v,
            src_offset: part.offset,
            dst_offset: 0,
            count: part.n,
        },
    );
    let r = run_all(backend, commands.as_slice());
    proof {
        assert(ts[0] == k@ && ts[1] == v@);
        let copies = all_done(calls_of(commands@));
        ran_then(before, middle, backend.trace(), all_allocated(ts), copies, error_of(r));
        assert(all_allocated(ts) + copies =~= full);
        assert(is_slice(k@, part.n, cfg.num_kv_heads, cfg.head_dim));
    }
    match r {
        Ok(_) => Ok((k, v)),
        Err(e) => Err(e),
    }
}

/// How the appending of one part ends. The part is counted in after its keys and
/// values were copied out of the batch, where there is room.
pub open spec fn part_outcome(
    views: HeadViewsInfo,
    tensors: Seq<Seq<TensorInfo>>,
    exhausted: FractureError,
    layer: int,
    part: Part,
    k: TensorInfo,
    v: TensorInfo,
    m: CacheModel,
    before: Seq<DeviceEvent>,
    cache: CacheModel,
    after: Seq<DeviceEvent>,
    err: Option<FractureError>,
) -> bool {
    let next = m.append(part.handle, layer, part.n as int);
    let slicing = slice_events(views, part, k, v);
    let storing = store_events(tensors, next.seqs[part.handle.0], layer, part, k, v);
    if !m.has_room(part.handle, layer, part.n as int) {
        &&& cache == m
        &&& err matches Some(e) && ended(before, after, slicing, e, e == exhausted)
    } else {
        match err {
            None => cache == next && after == before + slicing + storing,
            Some(e) => {
                ||| cache == m && ran(before, after, slicing, Some(e))
                ||| cache == next && ran(before + slicing, after, storing, Some(e))
            },
        }
    }
}

/// Appends one part's keys and values to one layer of the cache.
fn append_part<B: Backend>(
    backend: &mut B,
    cfg: &ModelConfig,
    views: &HeadViews,
    cache: &mut PagedKvCacheManager,
    part: Part,
    layer: usize,
) -> (res: Result<()>)
    requires
        old(cache).wf(),
        old(cache).model().has_room(part.handle, layer as int, part.n as int) ==> layer < old(
            cache,
        ).blocks().layers(),
        old(cache).sequences().contains_key(part.handle.0),
        layer == 0 ==> old(cache).sequences()[part.handle.0].len + part.n <= usize::MAX,
        layer > 0 ==> part.n <= old(cache).sequences()[part.handle.0].len,
    ensures
        final(cache).wf(),
        final(cache).blocks().same_blocks(&old(cache).blocks()),
        final(cache).next_handle() == old(cache).next_handle(),
        exists|k: TensorInfo, v: TensorInfo|
            is_slice(k, part.n, cfg.num_kv_heads, cfg.head_dim) && is_slice(
                v,
                part.n,
                cfg.num_kv_heads,
                cfg.head_dim,
            ) && #[trigger] part_outcome(
                views@,
                old(cache).blocks().tensors(),
                old(cache).blocks().exhausted(),
                layer as int,
                part,
                k,
                v,
                old(cache).model(),
                old(backend).trace(),
                final(cache).model(),
                final(backend).trace(),
                error_of(res),
            ),
{
    let ghost before = backend.trace();
    let ghost m = cache.model();
    let ghost tensors = cache.blocks().tensors();
    let ghost exhausted = cache.blocks().exhausted();
    let sliced = slice_part(backend, cfg, views, part);
    let ghost (k, v) = choose|k: TensorInfo, v: TensorInfo|
        is_slice(k, part.n, cfg.num_kv_heads, cfg.head_dim) && is_slice(
            v,
            part.n,
            cfg.num_kv_heads,
            cfg.head_dim,
        ) && (sliced matches Ok(r) ==> r.0@ == k && r.1@ == v) && #[trigger] ran(
            before,
            backend.trace(),
            slice_events(views@, part, k, v),
            error_of(sliced),
        );
    let (k_slice, v_slice) = match sliced {
        Ok(r) => r,
        Err(e) => {
            assert(part_outcome(
                views@,
                tensors,
                exhausted,
                layer as int,
                part,
                k,
                v,
                m,
                before,
                m,
                backend.trace(),
                Some(e),
            ));
            return Err(e);
        },
    };
    let ghost at_store = backend.trace();
    let stored = cache.append_kv(part.handle, layer, &k_slice, &v_slice, backend);
    let ghost next = m.append(part.handle, layer as int, part.n as int);
    let ghost writes = all_done(
        write_calls(tensors, next.seqs[part.handle.0], layer as int, k, v, part.n as int),
    );
    let ghost releases = all_done(frees(seq![k, v]));
    if let Err(e) = stored {
        proof {
            if m.has_room(part.handle, layer as int, part.n as int) {
                ran_short(at_store, backend.trace(), writes, releases, e);
            }
            assert(part_outcome(
                views@,
                tensors,
                exhausted,
                layer as int,
                part,
                k,
                v,
                m,
                before,
                cache.model(),
                backend.trace(),
                Some(e),
            ));
        }
        return Err(e);
    }
    let ghost at_release = backend.trace();
    let mut commands: Vec<DeviceCommand> = Vec::new();
    push_command(&mut commands, DeviceCommand::Free { tensor: &k_slice });
    push_command(&mut commands, DeviceCommand::Free { tensor: &v_slice });
    assert(calls_of(commands@) =~= frees(seq![k, v]));
    let res = run_all(backend, commands.as_slice());
    proof {
        ran_then(at_store, at_release, backend.trace(), writes, releases, error_of(res));
        assert(part_outcome(
            views@,
            tensors,
            exhausted,
            layer as int,
            part,
            k,
            v,
            m,
            before,
            cache.model(),
            backend.trace(),
            error_of(res),
        ));
    }
    res
}

/// Every part names a sequence of the cache, and its tokens can be counted in.
pub open spec fn parts_ready(m: CacheModel, parts: Seq<Part>, layer: int) -> bool {
    forall|j: int|
        0 <= j < parts.len() ==> {
            let a = appended(m, parts, layer, j);
            let h = (#[trigger] parts[j]).handle.0;
            &&& a.seqs.contains_key(h)
            &&& layer == 0 ==> a.seqs[h].len + parts[j].n <= usize::MAX
            &&& layer > 0 ==> parts[j].n <= a.seqs[h].len
        }
}

/// How far the appending of a batch has come: the slices of the first `j` parts, and
/// the events of their stages.
spec fn append_progress(
    a: AppendInfo,
    heads: usize,
    dim: usize,
    j: int,
    ks: Seq<TensorInfo>,
    vs: Seq<TensorInfo>,
    stages: Seq<Seq<DeviceEvent>>,
) -> bool {
    &&& ks.len() == j
    &&& vs.len() == j
    &&& stages.len() == j
    &&& forall|i: int| 0 <= i < j ==> is_slice(#[trigger] ks[i], a.parts[i].n, heads, dim)
    &&& forall|i: int| 0 <= i < j ==> is_slice(#[trigger] vs[i], a.parts[i].n, heads, dim)
    &&& forall|i: int|
        0 <= i < j ==> #[trigger] stages[i] == a.storing(ks, vs, i) + a.slicing(ks, vs, i)
}

/// One more part: either the progress grows by it, or appending ends there.
proof fn append_extend(
    a: AppendInfo,
    heads: usize,
    dim: usize,
    exhausted: FractureError,
    j: int,
    ks: Seq<TensorInfo>,
    vs: Seq<TensorInfo>,
    done_stages: Seq<Seq<DeviceEvent>>,
    k: TensorInfo,
    v: TensorInfo,
    before: Seq<DeviceEvent>,
    middle: Seq<DeviceEvent>,
    after: Seq<DeviceEvent>,
    cache: CacheModel,
    err: Option<FractureError>,
)
    requires
        0 <= j < a.parts.len(),
        append_progress(a, heads, dim, j, ks, vs, done_stages),
        have_room(a.cache, a.parts, a.layer, j),
        middle == before + joined(done_stages) + a.storing(ks, vs, j),
        is_slice(k, a.parts[j].n, heads, dim),
        is_slice(v, a.parts[j].n, heads, dim),
        part_outcome(
            a.views,
            a.tensors,
            exhausted,
            a.layer,
            a.parts[j],
            k,
            v,
            a.after(j),
            middle,
            cache,
            after,
            err,
        ),
    ensures
        err is None ==> {
            let ks3 = ks.push(k);
            let vs3 = vs.push(v);
            let stages3 = done_stages.push(
                a.storing(ks, vs, j) + slice_events(a.views, a.parts[j], k, v),
            );
            &&& cache == a.after(j + 1)
            &&& have_room(a.cache, a.parts, a.layer, j + 1)
            &&& append_progress(a, heads, dim, j + 1, ks3, vs3, stages3)
            &&& after == before + joined(stages3) + a.storing(ks3, vs3, j + 1)
        },
        err is Some ==> exists|ks2: Seq<TensorInfo>, vs2: Seq<TensorInfo>|
            are_slices(ks2, a.parts, heads, dim) && are_slices(vs2, a.parts, heads, dim)
                && #[trigger] a.outcome(ks2, vs2, exhausted, before, after, cache, err),
{
    reveal(staged_outcome);
    let part = a.parts[j];
    let slicing = slice_events(a.views, part, k, v);
    let old_storing = a.storing(ks, vs, j);
    let stage = old_storing + slicing;
    let ks3 = ks.push(k);
    let vs3 = vs.push(v);
    let stages3 = done_stages.push(stage);
    assert(stages3.drop_last() =~= done_stages);
    assert(a.after(j + 1) == a.after(j).append(part.handle, a.layer, part.n as int));
    assert(has_room_at(a.cache, a.parts, a.layer, j) == a.after(j).has_room(
        part.handle,
        a.layer,
        part.n as int,
    ));
    match err {
        None => {
            assert forall|i: int| 0 <= i < j + 1 implies #[trigger] stages3[i] == a.storing(
                ks3,
                vs3,
                i,
            ) + a.slicing(ks3, vs3, i) by {
                if i < j {
                    assert(stages3[i] == done_stages[i]);
                    assert(a.storing(ks3, vs3, i) == a.storing(ks, vs, i));
                    assert(a.slicing(ks3, vs3, i) == a.slicing(ks, vs, i));
                } else {
                    assert(a.storing(ks3, vs3, i) == a.storing(ks, vs, i));
                }
            }
            assert(after =~= before + joined(stages3) + a.storing(ks3, vs3, j + 1));
        },
        Some(e) => {
            let ks2 = pad_slices(ks3, a.parts, heads, dim);
            let vs2 = pad_slices(vs3, a.parts, heads, dim);
            let stages = a.stages(ks2, vs2);
            assert forall|i: int| 0 <= i < j implies stages[i] == done_stages[i] by {
                assert(a.storing(ks2, vs2, i) == a.storing(ks, vs, i));
                assert(a.slicing(ks2, vs2, i) == a.slicing(ks, vs, i));
            }
            assert(stages.take(j) =~= done_stages);
            assert(a.storing(ks2, vs2, j) == old_storing);
            assert(a.slicing(ks2, vs2, j) == slicing);
            assert(stages[j] == stage);
            assert(stages.take(j + 1) =~= stages3);
            assert(are_slices(ks2, a.parts, heads, dim));
            assert(are_slices(vs2, a.parts, heads, dim));
            let none = Seq::<DeviceEvent>::empty();
            if cache == a.after(j) && ran(middle, after, slicing, Some(e)) {
                assert(stage =~= old_storing + slicing + none);
                stage_stops(
                    stages,
                    a.caches(),
                    j,
                    before,
                    middle,
                    after,
                    old_storing,
                    slicing,
                    none,
                    e,
                );
                append_stopped(a, ks2, vs2, j, exhausted, before, after, e);
            } else if has_room_at(a.cache, a.parts, a.layer, j) {
                let storing = a.storing(ks2, vs2, j + 1);
                let next = a.slicing(ks2, vs2, j + 1);
                assert(middle + slicing =~= before + joined(stages.take(j + 1)) + none);
                assert(stages[j + 1] =~= none + storing + next);
                stage_stops(
                    stages,
                    a.caches(),
                    j + 1,
                    before,
                    middle + slicing,
                    after,
                    none,
                    storing,
                    next,
                    e,
                );
                append_stopped(a, ks2, vs2, j + 1, exhausted, before, after, e);
            } else {
                limit_bounds(a);
                assert(a.limit() == j + 1);
                assert(a.caches().take(j + 1).last() == a.after(j));
                assert(after =~= before + joined(stages.take(j + 1)));
                assert(ended_staged(
                    stages.take(j + 1),
                    a.caches().take(j + 1),
                    before,
                    after,
                    cache,
                    e,
                    e == exhausted,
                ));
                assert(a.outcome(ks2, vs2, exhausted, before, after, cache, err));
            }
        },
    }
}

/// Appends every part's keys and values to one layer of the cache.
pub(crate) fn append_batch<B: Backend>(
    backend: &mut B,
    cfg: &ModelConfig,
    views: &HeadViews,
    cache: &mut PagedKvCacheManager,
    parts: &Vec<Part>,
    layer: usize,
    Ghost(a): Ghost<AppendInfo>,
) -> (res: Result<()>)
    requires
        old(cache).wf(),
        parts@.len() > 0 && has_room_at(old(cache).model(), parts@, layer as int, 0) ==> layer
            < old(cache).blocks().layers(),
        parts_ready(old(cache).model(), parts@, layer as int),
        a.views == views@,
        a.tensors == old(cache).blocks().tensors(),
        a.cache == old(cache).model(),
        a.parts == parts@,
        a.layer == layer,
    ensures
        final(cache).wf(),
        final(cache).blocks().same_blocks(&old(cache).blocks()),
        final(cache).next_handle() == old(cache).next_handle(),
        exists|ks: Seq<TensorInfo>, vs: Seq<TensorInfo>|
            are_slices(ks, parts@, cfg.num_kv_heads, cfg.head_dim) && are_slices(
                vs,
                parts@,
                cfg.num_kv_heads,
                cfg.head_dim,
            ) && #[trigger] a.outcome(
                ks,
                vs,
                old(cache).blocks().exhausted(),
                old(backend).trace(),
                final(backend).trace(),
                final(cache).model(),
                error_of(res),
            ),
{
    let ghost before = backend.trace();
    let ghost exhausted = cache.blocks().exhausted();
    let ghost len = parts@.len() as int;
    let ghost mut ks: Seq<TensorInfo> = Seq::empty();
    let ghost mut vs: Seq<TensorInfo> = Seq::empty();
    let ghost mut stages: Seq<Seq<DeviceEvent>> = Seq::empty();
    let mut j: usize = 0;
    assert(before + joined(stages) + a.storing(ks, vs, 0) =~= before);
    while j < parts.len()
        invariant
            before == old(backend).trace(),
            exhausted == old(cache).blocks().exhausted(),
            a.views == views@,
            a.tensors == old(cache).blocks().tensors(),
            a.cache == old(cache).model(),
            a.parts == parts@,
            a.layer == layer,
            len == parts@.len(),
            j <= len,
            parts_ready(a.cache, parts@, layer as int),
            len > 0 && has_room_at(a.cache, parts@, layer as int, 0) ==> layer
                < cache.blocks().layers(),
            cache.wf(),
            cache.blocks().same_blocks(&old(cache).blocks()),
            cache.next_handle() == old(cache).next_handle(),
            cache.model() == a.after(j as int),
            have_room(a.cache, parts@, layer as int, j as int),
            append_progress(a, cfg.num_kv_heads, cfg.head_dim, j as int, ks, vs, stages),
            backend.trace() == before + joined(stages) + a.storing(ks, vs, j as int),
        decreases len - j,
    {
        let part = parts[j];
        let ghost middle = backend.trace();
        assert(parts@[j as int] == part);
        assert(j > 0 ==> has_room_at(a.cache, parts@, layer as int, 0));
        let r = append_part(backend, cfg, views, cache, part, layer);
        let ghost (k, v) = choose|k: TensorInfo, v: TensorInfo|
            is_slice(k, part.n, cfg.num_kv_heads, cfg.head_dim) && is_slice(
                v,
                part.n,
                cfg.num_kv_heads,
                cfg.head_dim,
            ) && #[trigger] part_outcome(
                views@,
                a.tensors,
                exhausted,
                layer as int,
                part,
                k,
                v,
                a.after(j as int),
                middle,
                cache.model(),
                backend.trace(),
                error_of(r),
            );
        proof {
            append_extend(
                a,
                cfg.num_kv_heads,
                cfg.head_dim,
                exhausted,
                j as int,
                ks,
                vs,
                stages,
                k,
                v,
                before,
                middle,
                backend.trace(),
                cache.model(),
                error_of(r),
            );
        }
        match r {
            Ok(_) => {},
            Err(e) => {
                return Err(e);
            },
        }
        proof {
            stages = stages.push(
                a.storing(ks, vs, j as int) + slice_events(a.views, a.parts[j as int], k, v),
            );
            ks = ks.push(k);
            vs = vs.push(v);
        }
        j = j + 1;
    }
    proof {
        let all = a.stages(ks, vs);
        assert(all.drop_last() =~= stages);
        assert(all.last() =~= a.storing(ks, vs, len));
        assert(backend.trace() =~= before + joined(all));
        assert(a.caches().last() == a.after(len));
        reveal(staged_outcome);
        limit_bounds(a);
        assert(a.outcome(ks, vs, exhausted, before, backend.trace(), cache.model(), None));
    }
    Ok(())
}

/// The slices so far, and some for the parts to come.
pub open spec fn pad_slices(
    ts: Seq<TensorInfo>,
    parts: Seq<Part>,
    heads: usize,
    dim: usize,
) -> Seq<TensorInfo> {
    Seq::new(
        parts.len(),
        |i: int|
            if i < ts.len() {
                ts[i]
            } else {
                blank_slice(parts[i].n, heads, dim)
            },
    )
}

/// A device failure in stage `k`, with room for the parts before it, is how
/// appending ends.
proof fn append_stopped(
    a: AppendInfo,
    ks: Seq<TensorInfo>,
    vs: Seq<TensorInfo>,
    k: int,
    exhausted: FractureError,
    before: Seq<DeviceEvent>,
    after: Seq<DeviceEvent>,
    e: FractureError,
)
    requires
        0 <= k <= a.parts.len(),
        have_room(a.cache, a.parts, a.layer, k),
        ran(
            before + joined(a.stages(ks, vs).take(k)),
            after,
            a.stages(ks, vs)[k],
            Some(e),
        ),
    ensures
        a.outcome(ks, vs, exhausted, before, after, a.after(k), Some(e)),
{
    assert(a.caches()[k] == a.after(k));
    limit_bounds(a);
    outcome_stops(
        a.stages(ks, vs),
        a.caches(),
        a.limit(),
        exhausted,
        k,
        before,
        after,
        e,
    );
}

/// Some stages can run: one, those of the parts that have room, and no more than
/// there are.
pub(crate) proof fn limit_bounds(a: AppendInfo)
    ensures
        0 < a.limit() <= a.parts.len() + 1,
        have_room(a.cache, a.parts, a.layer, a.parts.len() as int) <==> a.limit() == a.parts.len()
            + 1,
        forall|k: int|
            0 <= k <= a.parts.len() && #[trigger] have_room(a.cache, a.parts, a.layer, k) ==> k
                < a.limit(),
        forall|j: int|
            0 <= j < a.parts.len() && !(#[trigger] has_room_at(a.cache, a.parts, a.layer, j))
                && have_room(a.cache, a.parts, a.layer, j) ==> a.limit() == j + 1,
{
    if !have_room(a.cache, a.parts, a.layer, a.parts.len() as int) {
        first_without_room(a, a.parts.len() as int);
        let first = choose|j: int|
            0 <= j < a.parts.len() && !(#[trigger] has_room_at(a.cache, a.parts, a.layer, j))
                && have_room(a.cache, a.parts, a.layer, j);
        assert(a.limit() == first + 1);
    }
}

/// Where not all parts have room, there is a first one without.
proof fn first_without_room(a: AppendInfo, k: int)
    requires
        0 <= k <= a.parts.len(),
        !have_room(a.cache, a.parts, a.layer, k),
    ensures
        exists|j: int|
            0 <= j < k && !(#[trigger] has_room_at(a.cache, a.parts, a.layer, j)) && have_room(
                a.cache,
                a.parts,
                a.layer,
                j,
            ),
    decreases k,
{
    if have_room(a.cache, a.parts, a.layer, k - 1) {
        assert(!has_room_at(a.cache, a.parts, a.layer, k - 1));
    } else {
        first_without_room(a, k - 1);
    }
}

/// The events of attention for one part: its queries are copied out of the batch,
/// and the result is copied back. `t` is the sequence with the new tokens counted in.
pub open spec fn attend_events(
    cfg: ModelConfig,
    views: HeadViewsInfo,
    tensors: Seq<Seq<TensorInfo>>,
    t: BlocksInfo,
    layer: int,
    part: Part,
    q: TensorInfo,
    o: TensorInfo,
) -> Seq<DeviceEvent> {
    seq![
        allocated(q),
        done(
            DeviceCall::CopyRows {
                src: views.q,
                dst: q,
                src_offset: part.offset,
                dst_offset: 0,
                count: part.n,
            },
        ),
        allocated(o),
        done(
            attention_call(
                cfg,
                tensors,
                t.table,
                layer,
                q,
                (part.start_pos + part.n) as usize,
                part.start_pos,
                o,
            ),
        ),
        done(
            DeviceCall::CopyRows {
                src: o,
                dst: views.attn,
                src_offset: 0,
                dst_offset: part.offset,
                count: part.n,
            },
        ),
        done(DeviceCall::Free { tensor: q }),
        done(DeviceCall::Free { tensor: o }),
    ]
}

/// Allocates a slice of the batch by heads.
fn allocate_slice<B: Backend>(backend: &mut B, n: usize, heads: usize, dim: usize) -> (res: Result<
    DeviceTensor,
>)
    ensures
        exists|t: TensorInfo|
            is_slice(t, n, heads, dim) && (res matches Ok(r) ==> r@ == t) && #[trigger] ran(
                old(backend).trace(),
                final(backend).trace(),
                seq![allocated(t)],
                error_of(res),
            ),
{
    let shape = shape3(n, heads, dim);
    let res = backend.allocate(shape.as_slice(), DType::FP16);
    proof {
        let t = if res is Ok {
            res->Ok_0@
        } else {
            blank_slice(n, heads, dim)
        };
        match error_of(res) {
            None => {
                assert(backend.trace() =~= old(backend).trace() + seq![allocated(t)]);
            },
            Some(e) => {
                ran_failed(old(backend).trace(), seq![allocated(t)], e);
            },
        }
        assert(ran(
            old(backend).trace(),
            backend.trace(),
            seq![allocated(t)],
            error_of(res),
        ));
    }
    res
}

/// Runs attention for one part.
fn attend_part<B: Backend>(
    backend: &mut B,
    cfg: &ModelConfig,
    views: &HeadViews,
    cache: &PagedKvCacheManager,
    part: Part,
    layer: usize,
) -> (res: Result<()>)
    requires
        cache.wf(),
        layer < cache.blocks().layers(),
        cache.sequences().contains_key(part.handle.0),
        part.start_pos + part.n <= usize::MAX,
    ensures
        exists|q: TensorInfo, o: TensorInfo|
            is_slice(q, part.n, cfg.num_q_heads, cfg.head_dim) && is_slice(
                o,
                part.n,
                cfg.num_q_heads,
                cfg.head_dim,
            ) && #[trigger] ran(
                old(backend).trace(),
                final(backend).trace(),
                attend_events(
                    *cfg,
                    views@,
                    cache.blocks().tensors(),
                    cache.sequences()[part.handle.0],
                    layer as int,
                    part,
                    q,
                    o,
                ),
                error_of(res),
            ),
{
    let ghost before = backend.trace();
    let ghost tensors = cache.blocks().tensors();
    let ghost t = cache.sequences()[part.handle.0];
    let ghost blank = blank_slice(part.n, cfg.num_q_heads, cfg.head_dim);
    let r = allocate_slice(backend, part.n, cfg.num_q_heads, cfg.head_dim);
    let ghost q = choose|t: TensorInfo|
        is_slice(t, part.n, cfg.num_q_heads, cfg.head_dim) && (r matches Ok(r) ==> r@ == t)
            && #[trigger] ran(before, backend.trace(), seq![allocated(t)], error_of(r));
    let ghost full0 = attend_events(
        *cfg,
        views@,
        tensors,
        t,
        layer as int,
        part,
        q,
        blank,
    );
    let q_slice = match r {
        Ok(q_slice) => q_slice,
        Err(e) => {
            proof {
                ran_short(before, backend.trace(), seq![allocated(q)], full0.skip(1), e);
                assert(seq![allocated(q)] + full0.skip(1) =~= full0);
            }
            return Err(e);
        },
    };
    let ghost at_copy = backend.trace();
    let mut commands: Vec<DeviceCommand> = Vec::new();
    push_command(
        &mut commands,
        DeviceCommand::CopyRows {
            src: &views.q,
            dst: &q_slice,
            src_offset: part.offset,
            dst_offset: 0,
            count: part.n,
        },
    );
    let r = run_all(backend, commands.as_slice());
    proof {
        let copy = all_done(calls_of(commands@));
        ran_then(before, at_copy, backend.trace(), seq![allocated(q)], copy, error_of(r));
        assert(seq![allocated(q)] + copy =~= full0.take(2));
        if let Some(e) = error_of(r) {
            ran_short(before, backend.trace(), full0.take(2), full0.skip(2), e);
            assert(full0.take(2) + full0.skip(2) =~= full0);
        }
    }
    r?;
    let ghost at_out = backend.trace();
    let r = allocate_slice(backend, part.n, cfg.num_q_heads, cfg.head_dim);
    let ghost o = choose|t: TensorInfo|
        is_slice(t, part.n, cfg.num_q_heads, cfg.head_dim) && (r matches Ok(r) ==> r@ == t)
            && #[trigger] ran(at_out, backend.trace(), seq![allocated(t)], error_of(r));
    let ghost full = attend_events(*cfg, views@, tensors, t, layer as int, part, q, o);
    proof {
        assert(full.take(2) =~= full0.take(2));
        ran_then(before, at_out, backend.trace(), full.take(2), seq![allocated(o)], error_of(r));
        assert(full.take(2) + seq![allocated(o)] =~= full.take(3));
        if let Some(e) = error_of(r) {
            ran_short(before, backend.trace(), full.take(3), full.skip(3), e);
            assert(full.take(3) + full.skip(3) =~= full);
        }
    }
    let attn_slice = r?;
    let ghost at_attend = backend.trace();
    let table = match cache.block_table(part.handle) {
        Ok(table) => table,
        Err(e) => {
            return Err(e);
        },
    };
    let ids = make_table_ids(table);
    let k_blocks = k_column(cache.pool(), layer);
    let v_blocks = v_column(cache.pool(), layer);
    let mut commands: Vec<DeviceCommand> = Vec::new();
    push_command(
        &mut commands,
        DeviceCommand::AttentionPaged {
            q: &q_slice,
            block_table: ids.as_slice(),
            k_blocks: k_blocks.as_slice(),
            v_blocks: v_blocks.as_slice(),
            num_kv_heads: cfg.num_kv_heads,
            kv_len: part.start_pos + part.n,
            start_pos: part.start_pos,
            out: &attn_slice,
        },
    );
    push_command(
        &mut commands,
        DeviceCommand::CopyRows {
            src: &attn_slice,
            dst: &views.attn,
            src_offset: 0,
            dst_offset: part.offset,
            count: part.n,
        },
    );
    push_command(&mut commands, DeviceCommand::Free { tensor: &q_slice });
    push_command(&mut commands, DeviceCommand::Free { tensor: &attn_slice });
    let res = run_all(backend, commands.as_slice());
    proof {
        let rest = all_done(calls_of(commands@));
        assert(rest =~= full.skip(3));
        ran_then(before, at_attend, backend.trace(), full.take(3), rest, error_of(res));
        assert(full.take(3) + rest =~= full);
    }
    res
}

/// What attention of a batch on one layer is given.
pub struct AttendInfo {
    pub cfg: ModelConfig,
    pub views: HeadViewsInfo,
    pub tensors: Seq<Seq<TensorInfo>>,
    pub seqs: Map<u64, BlocksInfo>,
    pub parts: Seq<Part>,
    pub layer: int,
}

impl AttendInfo {
    /// The events of the parts, one after the other.
    pub open spec fn rows(self, qs: Seq<TensorInfo>, os: Seq<TensorInfo>) -> Seq<
        Seq<DeviceEvent>,
    > {
        Seq::new(self.parts.len(), |j: int| self.row(qs[j], os[j], j))
    }

    /// The events of part `j`.
    pub open spec fn row(self, q: TensorInfo, o: TensorInfo, j: int) -> Seq<DeviceEvent> {
        attend_events(
            self.cfg,
            self.views,
            self.tensors,
            self.seqs[self.parts[j].handle.0],
            self.layer,
            self.parts[j],
            q,
            o,
        )
    }
}

/// Runs attention for every part.
pub(crate) fn attend_batch<B: Backend>(
    backend: &mut B,
    cfg: &ModelConfig,
    views: &HeadViews,
    cache: &PagedKvCacheManager,
    parts: &Vec<Part>,
    layer: usize,
    Ghost(a): Ghost<AttendInfo>,
) -> (res: Result<()>)
    requires
        cache.wf(),
        parts@.len() > 0 ==> layer < cache.blocks().layers(),
        forall|j: int|
            0 <= j < parts@.len() ==> cache.sequences().contains_key(
                (#[trigger] parts@[j]).handle.0,
            ) && parts@[j].start_pos + parts@[j].n <= usize::MAX,
        a.cfg == cfg,
        a.views == views@,
        a.tensors == cache.blocks().tensors(),
        a.seqs == cache.sequences(),
        a.parts == parts@,
        a.layer == layer,
    ensures
        exists|qs: Seq<TensorInfo>, os: Seq<TensorInfo>|
            are_slices(qs, parts@, cfg.num_q_heads, cfg.head_dim) && are_slices(
                os,
                parts@,
                cfg.num_q_heads,
                cfg.head_dim,
            ) && #[trigger] ran(
                old(backend).trace(),
                final(backend).trace(),
                joined(a.rows(qs, os)),
                error_of(res),
            ),
{
    let ghost before = backend.trace();
    let ghost heads = cfg.num_q_heads;
    let ghost dim = cfg.head_dim;
    let ghost mut qs: Seq<TensorInfo> = Seq::empty();
    let ghost mut os: Seq<TensorInfo> = Seq::empty();
    let ghost mut rows: Seq<Seq<DeviceEvent>> = Seq::empty();
    let mut j: usize = 0;
    assert(before + joined(rows) =~= before);
    while j < parts.len()
        invariant
            before == old(backend).trace(),
            heads == cfg.num_q_heads,
            dim == cfg.head_dim,
            cache.wf(),
            parts@.len() > 0 ==> layer < cache.blocks().layers(),
            forall|j: int|
                0 <= j < parts@.len() ==> cache.sequences().contains_key(
                    (#[trigger] parts@[j]).handle.0,
                ) && parts@[j].start_pos + parts@[j].n <= usize::MAX,
            a.cfg == cfg,
            a.views == views@,
            a.tensors == cache.blocks().tensors(),
            a.seqs == cache.sequences(),
            a.parts == parts@,
            a.layer == layer,
            j <= parts@.len(),
            qs.len() == j,
            os.len() == j,
            rows.len() == j,
            forall|i: int|
                0 <= i < j ==> is_slice(#[trigger] qs[i], parts@[i].n, heads, dim),
            forall|i: int|
                0 <= i < j ==> is_slice(#[trigger] os[i], parts@[i].n, heads, dim),
            forall|i: int| 0 <= i < j ==> #[trigger] rows[i] == a.row(qs[i], os[i], i),
            backend.trace() == before + joined(rows),
        decreases parts@.len() - j,
    {
        let part = parts[j];
        let ghost middle = backend.trace();
        let r = attend_part(backend, cfg, views, cache, part, layer);
        let ghost (q, o) = choose|q: TensorInfo, o: TensorInfo|
            is_slice(q, part.n, heads, dim) && is_slice(o, part.n, heads, dim) && #[trigger] ran(
                middle,
                backend.trace(),
                attend_events(
                    *cfg,
                    views@,
                    a.tensors,
                    a.seqs[part.handle.0],
                    layer as int,
                    part,
                    q,
                    o,
                ),
                error_of(r),
            );
        let ghost next = rows.push(a.row(q, o, j as int));
        proof {
            ran_then(
                before,
                middle,
                backend.trace(),
                joined(rows),
                a.row(q, o, j as int),
                error_of(r),
            );
            assert(next.drop_last() =~= rows);
            if let Some(e) = error_of(r) {
                let qs2 = pad_slices(qs.push(q), parts@, heads, dim);
                let os2 = pad_slices(os.push(o), parts@, heads, dim);
                let all = a.rows(qs2, os2);
                assert(all.take(j + 1) =~= next);
                joined_split(all, j + 1);
                ran_short(before, backend.trace(), joined(next), joined(all.skip(j + 1)), e);
                assert(are_slices(qs2, parts@, heads, dim));
                assert(are_slices(os2, parts@, heads, dim));
                assert(ran(before, backend.trace(), joined(all), Some(e)));
            }
        }
        match r {
            Ok(_) => {},
            Err(e) => {
                return Err(e);
            },
        }
        proof {
            qs = qs.push(q);
            os = os.push(o);
            rows = next;
        }
        j = j + 1;
    }
    proof {
        assert(a.rows(qs, os) =~= rows);
        assert(ran(before, backend.trace(), joined(a.rows(qs, os)), None::<FractureError>));
    }
    Ok(())
}

} // verus!

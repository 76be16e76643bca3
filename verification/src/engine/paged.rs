//! The layers of a forward pass over a paged cache.
use crate::base::backend::{done, tensor_infos, Backend, DeviceCall, DeviceEvent};
use crate::base::error::{FractureError, Result};
use crate::base::model_config::ModelConfig;
use crate::base::program::{
    all_allocated, all_done, ended, error_of, joined, joined_one, ran, ran_short, ran_then,
    run_untimed, step_calls, steps_of, DeviceCommand, Step, StepCalls,
};
use crate::base::tensor::{DeviceTensor, TensorInfo};
use crate::base::text::numbered;
use crate::engine::block_table::BlocksInfo;
use crate::engine::contiguous::layer_name;
use crate::engine::kv_cache::{is_invalid_handle, CacheHandle};
use crate::engine::node::{NodeConfig, NodeOutput};
use crate::engine::paged_kv_cache::{write_calls, BlockPool, CacheModel, PagedKvCacheManager};
use crate::engine::pass::{node_pass, weights_cover, Pass, Resolved};
use crate::engine::staged::{ran_staged, stage_stops};
use crate::engine::transformer::{
    finish_steps, head_views, make_views, project_steps, push_finish_steps, push_project_steps,
    step, HeadViews, OutputInfo, Scratch, ScratchInfo,
};
use crate::engine::weights::{LayerWeights, WeightStore};
use vstd::prelude::*;

verus! {

/// One tensor of each block: K of layer `i` at `2 * i`, V of layer `i` at `2 * i + 1`.
pub open spec fn block_column(tensors: Seq<Seq<TensorInfo>>, at: int) -> Seq<TensorInfo> {
    Seq::new(tensors.len(), |b: int| tensors[b][at])
}

/// A block table as the attention kernel takes it.
pub open spec fn table_ids(table: Seq<usize>) -> Seq<i32> {
    table.map_values(|b: usize| b as i32)
}

/// Paged attention of layer `i` over `kv_len` tokens, of which `n` are new.
pub open spec fn attention_call(
    cfg: ModelConfig,
    tensors: Seq<Seq<TensorInfo>>,
    table: Seq<usize>,
    i: int,
    q: TensorInfo,
    kv_len: usize,
    start_pos: usize,
    out: TensorInfo,
) -> DeviceCall {
    DeviceCall::AttentionPaged {
        q,
        block_table: table_ids(table),
        k_blocks: block_column(tensors, 2 * i),
        v_blocks: block_column(tensors, 2 * i + 1),
        num_kv_heads: cfg.num_kv_heads,
        kv_len,
        start_pos,
        out,
    }
}

/// Writes a block table as the attention kernel takes it.
pub(crate) fn make_table_ids(table: &[usize]) -> (res: Vec<i32>)
    ensures
        res@ == table_ids(table@),
{
    let mut ids: Vec<i32> = Vec::new();
    let mut i: usize = 0;
    while i < table.len()
        invariant
            i <= table@.len(),
            ids@ =~= table_ids(table@).take(i as int),
        decreases table@.len() - i,
    {
        ids.push(table[i] as i32);
        i = i + 1;
    }
    assert(table_ids(table@).take(i as int) =~= table_ids(table@));
    ids
}

/// The K tensors of a layer, one per block.
pub(crate) fn k_column(pool: &BlockPool, layer: usize) -> (res: Vec<&DeviceTensor>)
    requires
        pool.wf(),
        layer < pool.layers(),
    ensures
        tensor_infos(res@) == block_column(pool.tensors(), 2 * layer),
{
    let mut column: Vec<&DeviceTensor> = Vec::new();
    let mut b: usize = 0;
    while b < pool.capacity()
        invariant
            pool.wf(),
            layer < pool.layers(),
            b <= pool.size(),
            tensor_infos(column@) =~= block_column(pool.tensors(), 2 * layer).take(b as int),
        decreases pool.size() - b,
    {
        let ghost so_far = column@;
        let t = pool.k_tensor(b, layer);
        column.push(t);
        assert(tensor_infos(column@) =~= tensor_infos(so_far).push(t@));
        b = b + 1;
    }
    assert(block_column(pool.tensors(), 2 * layer).take(b as int) =~= block_column(
        pool.tensors(),
        2 * layer,
    ));
    column
}

/// The V tensors of a layer, one per block.
pub(crate) fn v_column(pool: &BlockPool, layer: usize) -> (res: Vec<&DeviceTensor>)
    requires
        pool.wf(),
        layer < pool.layers(),
    ensures
        tensor_infos(res@) == block_column(pool.tensors(), 2 * layer + 1),
{
    let mut column: Vec<&DeviceTensor> = Vec::new();
    let mut b: usize = 0;
    while b < pool.capacity()
        invariant
            pool.wf(),
            layer < pool.layers(),
            b <= pool.size(),
            tensor_infos(column@) =~= block_column(pool.tensors(), 2 * layer + 1).take(b as int),
        decreases pool.size() - b,
    {
        let ghost so_far = column@;
        let t = pool.v_tensor(b, layer);
        column.push(t);
        assert(tensor_infos(column@) =~= tensor_infos(so_far).push(t@));
        b = b + 1;
    }
    assert(block_column(pool.tensors(), 2 * layer + 1).take(b as int) =~= block_column(
        pool.tensors(),
        2 * layer + 1,
    ));
    column
}

/// The device values that a pass over a paged cache meets.
pub struct PagedRun {
    pub hidden: TensorInfo,
    pub scratch: ScratchInfo,
    pub output: OutputInfo,
}

impl PagedRun {
    /// The values have the shapes and sizes that the pass asks for.
    pub open spec fn fits(self, p: Pass) -> bool {
        &&& p.can_hide(self.hidden)
        &&& self.scratch.fits(p.cfg, p.n())
        &&& self.output.fits(p.cfg)
    }

    /// The events before the first layer.
    pub open spec fn setup(self, p: Pass) -> Seq<DeviceEvent> {
        p.input_events(self.hidden) + all_allocated(self.scratch.list())
    }

    /// The events of layer `i` before the cache is written.
    pub open spec fn begin(self, p: Pass, i: int) -> Seq<DeviceEvent> {
        seq![done(DeviceCall::MarkerPush { name: layer_name(p.first + i) })] + all_done(
            step_calls(
                project_steps(
                    p.cfg,
                    p.layers[i],
                    self.hidden,
                    self.scratch,
                    p.n(),
                    p.positions(),
                ),
            ),
        )
    }

    /// The events of layer `i` from the writing of the cache on. `t` is the sequence
    /// with the new tokens counted in.
    pub open spec fn attend(
        self,
        p: Pass,
        tensors: Seq<Seq<TensorInfo>>,
        t: BlocksInfo,
        i: int,
    ) -> Seq<DeviceEvent> {
        let v = head_views(p.cfg, self.scratch, p.n());
        all_done(write_calls(tensors, t, i, v.k, v.v, p.n() as int)) + seq![
            done(
                attention_call(
                    p.cfg,
                    tensors,
                    t.table,
                    i,
                    v.q,
                    t.len,
                    (t.len - p.n()) as usize,
                    v.attn,
                ),
            ),
        ] + all_done(
            step_calls(finish_steps(p.cfg, p.layers[i], self.hidden, self.scratch, p.n())),
        ) + seq![done(DeviceCall::MarkerPop)]
    }

    /// The events of the layers `from..to`.
    pub open spec fn layers(
        self,
        p: Pass,
        tensors: Seq<Seq<TensorInfo>>,
        t: BlocksInfo,
        from: int,
        to: int,
    ) -> Seq<DeviceEvent>
        decreases to - from,
    {
        if from >= to {
            Seq::empty()
        } else {
            self.layers(p, tensors, t, from, to - 1) + self.begin(p, to - 1) + self.attend(
                p,
                tensors,
                t,
                to - 1,
            )
        }
    }

    /// The stages of the pass. The sequence grows in the first layer, between its
    /// projections and the writing of its keys and values.
    pub open spec fn stages(self, p: Pass, tensors: Seq<Seq<TensorInfo>>, t: BlocksInfo) -> Seq<
        Seq<DeviceEvent>,
    > {
        let end = p.end_events(self.hidden, self.scratch, self.output);
        if p.layers.len() == 0 {
            seq![self.setup(p) + end]
        } else {
            seq![
                self.setup(p) + self.begin(p, 0),
                self.attend(p, tensors, t, 0) + self.layers(
                    p,
                    tensors,
                    t,
                    1,
                    p.layers.len() as int,
                ) + end,
            ]
        }
    }
}

/// The bookkeeping of the cache, and the trace.
pub struct PagedState {
    pub cache: CacheModel,
    pub trace: Seq<DeviceEvent>,
}

/// The bookkeeping during each stage of a pass.
pub open spec fn stage_caches(p: Pass, m: CacheModel, handle: CacheHandle) -> Seq<CacheModel> {
    if p.layers.len() == 0 {
        seq![m]
    } else {
        seq![m, m.append(handle, 0, p.n() as int)]
    }
}

/// How an accepted pass ends, given the device values that it meets.
///
/// Where the device fails, the pass ends there with the device's error. A position
/// beyond the model is found after the input, an unknown handle after the scratch
/// tensors, and a lack of blocks where the first layer would grow the sequence.
pub open spec fn paged_outcome(
    p: Pass,
    handle: CacheHandle,
    run: PagedRun,
    tensors: Seq<Seq<TensorInfo>>,
    exhausted: FractureError,
    before: PagedState,
    after: PagedState,
    res: Result<NodeOutput>,
) -> bool {
    let m = before.cache;
    let t = m.append(handle, 0, p.n() as int).seqs[handle.0];
    let stages = run.stages(p, tensors, t);
    let caches = stage_caches(p, m, handle);
    if p.beyond() {
        &&& after.cache == m
        &&& res matches Err(e) && ended(
            before.trace,
            after.trace,
            p.input_events(run.hidden),
            e,
            p.is_beyond(e),
        )
    } else if !m.seqs.contains_key(handle.0) {
        &&& after.cache == m
        &&& res matches Err(e) && ended(
            before.trace,
            after.trace,
            run.setup(p),
            e,
            is_invalid_handle(e, handle),
        )
    } else if p.layers.len() > 0 && !m.has_room(handle, 0, p.n() as int) {
        &&& after.cache == m
        &&& res matches Err(e) && ended(
            before.trace,
            after.trace,
            stages[0],
            e,
            e == exhausted,
        )
    } else {
        &&& ran_staged(stages, caches, before.trace, after.trace, after.cache, error_of(res))
        &&& res matches Ok(out) ==> out@ == p.output(run.hidden, run.output)
    }
}

/// How a pass over a paged cache ends.
pub open spec fn paged_end(
    p: Pass,
    handle: CacheHandle,
    tensors: Seq<Seq<TensorInfo>>,
    exhausted: FractureError,
    before: PagedState,
    after: PagedState,
    res: Result<NodeOutput>,
) -> bool {
    if p.refused() {
        &&& res matches Err(e) && p.is_refusal(e)
        &&& after == before
    } else {
        exists|run: PagedRun|
            run.fits(p) && #[trigger] paged_outcome(
                p,
                handle,
                run,
                tensors,
                exhausted,
                before,
                after,
                res,
            )
    }
}

/// Runs a layer up to the point where the cache is written.
fn begin_layer<B: Backend>(
    backend: &mut B,
    cfg: &ModelConfig,
    layer_idx: usize,
    w: &LayerWeights,
    r: &Resolved,
    s: &Scratch,
    v: &HeadViews,
    Ghost(p): Ghost<Pass>,
    Ghost(run): Ghost<PagedRun>,
    Ghost(i): Ghost<int>,
) -> (res: Result<()>)
    requires
        p.cfg == cfg,
        p.n() == r.n,
        p.positions() == r.positions@,
        run.hidden == r.hidden@,
        run.scratch == s@,
        v@ == head_views(*cfg, s@, r.n),
        layer_idx == p.first + i,
        0 <= i < p.layers.len(),
        w@ == p.layers[i],
    ensures
        ran(old(backend).trace(), final(backend).trace(), run.begin(p, i), error_of(res)),
{
    let ghost before = backend.trace();
    let name: String = numbered("layer_", layer_idx as u64);
    backend.marker_push(name.as_str());
    let ghost push = seq![done(DeviceCall::MarkerPush { name: layer_name(p.first + i) })];
    assert(backend.trace() =~= before + push);
    let ghost middle = backend.trace();
    let mut steps: Vec<Step> = Vec::new();
    push_project_steps(
        &mut steps,
        cfg,
        w,
        &r.hidden,
        s,
        v,
        r.positions.as_slice(),
        Ghost(r.n),
    );
    let res = run_untimed(backend, &steps);
    proof {
        let project = project_steps(p.cfg, p.layers[i], run.hidden, run.scratch, p.n(), p.positions());
        assert(steps_of(steps@) =~= project);
        ran_then(
            before,
            middle,
            backend.trace(),
            push,
            all_done(step_calls(project)),
            error_of(res),
        );
    }
    res
}

/// Runs attention over the cache and the rest of a layer.
fn finish_layer<B: Backend>(
    backend: &mut B,
    cfg: &ModelConfig,
    w: &LayerWeights,
    r: &Resolved,
    s: &Scratch,
    v: &HeadViews,
    cache: &PagedKvCacheManager,
    handle: CacheHandle,
    cache_idx: usize,
    start_pos: usize,
    Ghost(p): Ghost<Pass>,
    Ghost(run): Ghost<PagedRun>,
) -> (res: Result<()>)
    requires
        p.cfg == cfg,
        p.n() == r.n,
        run.hidden == r.hidden@,
        run.scratch == s@,
        v@ == head_views(*cfg, s@, r.n),
        cache_idx < p.layers.len() <= cache.blocks().layers(),
        w@ == p.layers[cache_idx as int],
        cache.wf(),
        cache.sequences().contains_key(handle.0),
        cache.sequences()[handle.0].len == start_pos + r.n,
    ensures
        ({
            let t = cache.sequences()[handle.0];
            let tensors = cache.blocks().tensors();
            let writes = all_done(
                write_calls(tensors, t, cache_idx as int, v@.k, v@.v, p.n() as int),
            );
            ran(
                old(backend).trace(),
                final(backend).trace(),
                run.attend(p, tensors, t, cache_idx as int).skip(writes.len() as int),
                error_of(res),
            )
        }),
{
    let ghost before = backend.trace();
    let ghost t = cache.sequences()[handle.0];
    let ghost tensors = cache.blocks().tensors();
    let table = match cache.block_table(handle) {
        Ok(table) => table,
        Err(e) => {
            return Err(e);
        },
    };
    let ids = make_table_ids(table);
    let k_blocks = k_column(cache.pool(), cache_idx);
    let v_blocks = v_column(cache.pool(), cache_idx);
    let attention = step(
        false,
        vec![
            DeviceCommand::AttentionPaged {
                q: &v.q,
                block_table: ids.as_slice(),
                k_blocks: k_blocks.as_slice(),
                v_blocks: v_blocks.as_slice(),
                num_kv_heads: cfg.num_kv_heads,
                kv_len: start_pos + r.n,
                start_pos,
                out: &v.attn,
            },
        ],
    );
    let mut steps: Vec<Step> = Vec::new();
    steps.push(attention);
    assert(steps_of(steps@) =~= seq![attention@]);
    push_finish_steps(&mut steps, cfg, w, &r.hidden, s, v, Ghost(r.n));
    let res = run_untimed(backend, &steps);
    let ghost call = attention_call(
        p.cfg,
        tensors,
        t.table,
        cache_idx as int,
        v@.q,
        t.len,
        start_pos,
        v@.attn,
    );
    let ghost finish = finish_steps(
        p.cfg,
        p.layers[cache_idx as int],
        run.hidden,
        run.scratch,
        p.n(),
    );
    let ghost full = run.attend(p, tensors, t, cache_idx as int).skip(
        all_done(write_calls(tensors, t, cache_idx as int, v@.k, v@.v, p.n() as int)).len() as int,
    );
    let ghost work = seq![done(call)] + all_done(step_calls(finish));
    proof {
        assert(attention@.calls =~= seq![call]);
        steps_prepend(attention@, finish);
        assert(steps_of(steps@) =~= seq![attention@] + finish);
        assert(all_done(seq![call] + step_calls(finish)) =~= work);
        assert(work + seq![done(DeviceCall::MarkerPop)] =~= full);
        if let Some(e) = error_of(res) {
            ran_short(before, backend.trace(), work, seq![done(DeviceCall::MarkerPop)], e);
        }
    }
    match res {
        Ok(_) => {
            backend.marker_pop();
            assert(backend.trace() =~= before + full);
            Ok(())
        },
        Err(e) => Err(e),
    }
}

/// A step before others comes first in their calls.
proof fn steps_prepend(first: StepCalls, steps: Seq<StepCalls>)
    ensures
        step_calls(seq![first] + steps) == first.calls + step_calls(steps),
    decreases steps.len(),
{
    let all = seq![first] + steps;
    if steps.len() == 0 {
        assert(all.drop_last() =~= Seq::empty());
        assert(step_calls(all.drop_last()) =~= Seq::empty());
        assert(step_calls(steps) =~= Seq::empty());
        assert(step_calls(all) =~= first.calls + step_calls(steps));
    } else {
        steps_prepend(first, steps.drop_last());
        assert(all.drop_last() =~= seq![first] + steps.drop_last());
        assert(step_calls(all) =~= first.calls + step_calls(steps));
    }
}

/// What running all layers of a pass does to the cache and the device.
pub open spec fn paged_layers_outcome(
    p: Pass,
    handle: CacheHandle,
    run: PagedRun,
    tensors: Seq<Seq<TensorInfo>>,
    exhausted: FractureError,
    before: PagedState,
    after: PagedState,
    err: Option<FractureError>,
) -> bool {
    let m = before.cache;
    let grown = m.append(handle, 0, p.n() as int);
    let t = grown.seqs[handle.0];
    let begin = run.begin(p, 0);
    let rest = run.attend(p, tensors, t, 0) + run.layers(p, tensors, t, 1, p.layers.len() as int);
    if p.layers.len() == 0 {
        err is None && after == before
    } else if !m.has_room(handle, 0, p.n() as int) {
        &&& after.cache == m
        &&& err matches Some(e) && ended(before.trace, after.trace, begin, e, e == exhausted)
    } else {
        match err {
            None => after.cache == grown && after.trace == before.trace + begin + rest,
            Some(e) => {
                ||| after.cache == m && ran(before.trace, after.trace, begin, Some(e))
                ||| after.cache == grown && ran(before.trace + begin, after.trace, rest, Some(e))
            },
        }
    }
}

/// The layers after the first up to `i`, and those from there on, are all of them.
proof fn paged_layers_split(
    p: Pass,
    run: PagedRun,
    tensors: Seq<Seq<TensorInfo>>,
    t: BlocksInfo,
    from: int,
    mid: int,
    to: int,
)
    requires
        from <= mid <= to,
    ensures
        run.layers(p, tensors, t, from, to) == run.layers(p, tensors, t, from, mid) + run.layers(
            p,
            tensors,
            t,
            mid,
            to,
        ),
    decreases to - mid,
{
    let left = run.layers(p, tensors, t, from, mid);
    if mid == to {
        assert(left + Seq::<DeviceEvent>::empty() =~= left);
    } else {
        paged_layers_split(p, run, tensors, t, from, mid, to - 1);
        let right = run.layers(p, tensors, t, mid, to - 1);
        let a = run.begin(p, to - 1);
        let b = run.attend(p, tensors, t, to - 1);
        assert(left + right + a + b =~= left + (right + a + b));
    }
}

/// What running layer `i` of a pass does to the cache and the device.
pub open spec fn paged_layer_outcome(
    p: Pass,
    handle: CacheHandle,
    run: PagedRun,
    tensors: Seq<Seq<TensorInfo>>,
    exhausted: FractureError,
    i: int,
    before: PagedState,
    after: PagedState,
    err: Option<FractureError>,
) -> bool {
    let m = before.cache;
    let next = m.append(handle, i, p.n() as int);
    let begin = run.begin(p, i);
    let attend = run.attend(p, tensors, next.seqs[handle.0], i);
    if !m.has_room(handle, i, p.n() as int) {
        &&& after.cache == m
        &&& err matches Some(e) && ended(before.trace, after.trace, begin, e, e == exhausted)
    } else {
        match err {
            None => after.cache == next && after.trace == before.trace + begin + attend,
            Some(e) => {
                ||| after.cache == m && ran(before.trace, after.trace, begin, Some(e))
                ||| after.cache == next && ran(before.trace + begin, after.trace, attend, Some(e))
            },
        }
    }
}

/// Runs one layer of a pass over a paged cache.
fn run_paged_layer<B: Backend>(
    backend: &mut B,
    cfg: &ModelConfig,
    layer_idx: usize,
    w: &LayerWeights,
    cache: &mut PagedKvCacheManager,
    handle: CacheHandle,
    cache_idx: usize,
    start_pos: usize,
    r: &Resolved,
    s: &Scratch,
    v: &HeadViews,
    Ghost(p): Ghost<Pass>,
    Ghost(run): Ghost<PagedRun>,
) -> (res: Result<()>)
    requires
        p.cfg == cfg,
        p.n() == r.n,
        p.positions() == r.positions@,
        run.hidden == r.hidden@,
        run.scratch == s@,
        v@ == head_views(*cfg, s@, r.n),
        layer_idx == p.first + cache_idx,
        cache_idx < p.layers.len(),
        w@ == p.layers[cache_idx as int],
        old(cache).wf(),
        old(cache).sequences().contains_key(handle.0),
        old(cache).model().has_room(handle, cache_idx as int, p.n() as int) ==> p.layers.len()
            <= old(cache).blocks().layers() && start_pos + r.n <= usize::MAX,
        old(cache).sequences()[handle.0].len == if cache_idx == 0 {
            start_pos as int
        } else {
            start_pos + r.n
        },
    ensures
        final(cache).wf(),
        final(cache).blocks().same_blocks(&old(cache).blocks()),
        final(cache).next_handle() == old(cache).next_handle(),
        paged_layer_outcome(
            p,
            handle,
            run,
            old(cache).blocks().tensors(),
            old(cache).blocks().exhausted(),
            cache_idx as int,
            PagedState { cache: old(cache).model(), trace: old(backend).trace() },
            PagedState { cache: final(cache).model(), trace: final(backend).trace() },
            error_of(res),
        ),
{
    let ghost before = backend.trace();
    let ghost m = cache.model();
    let ghost tensors = cache.blocks().tensors();
    let ghost i = cache_idx as int;
    let ghost n = p.n() as int;
    let ghost t = m.append(handle, i, n).seqs[handle.0];
    begin_layer(backend, cfg, layer_idx, w, r, s, v, Ghost(p), Ghost(run), Ghost(i))?;
    let ghost at_append = backend.trace();
    let appended = cache.append_kv(handle, cache_idx, &v.k, &v.v, backend);
    let ghost attend = run.attend(p, tensors, t, i);
    let ghost writes = all_done(write_calls(tensors, t, i, v@.k, v@.v, n));
    let ghost rest = attend.skip(writes.len() as int);
    assert(writes + rest =~= attend);
    if let Err(e) = appended {
        proof {
            if m.has_room(handle, i, n) {
                ran_short(at_append, backend.trace(), writes, rest, e);
            }
        }
        return Err(e);
    }
    let ghost at_finish = backend.trace();
    let res = finish_layer(
        backend,
        cfg,
        w,
        r,
        s,
        v,
        cache,
        handle,
        cache_idx,
        start_pos,
        Ghost(p),
        Ghost(run),
    );
    proof {
        ran_then(at_append, at_finish, backend.trace(), writes, rest, error_of(res));
    }
    res
}

/// A device failure after the first layer's projections ends what follows them.
proof fn paged_layer_stops(
    p: Pass,
    run: PagedRun,
    tensors: Seq<Seq<TensorInfo>>,
    t: BlocksInfo,
    before: Seq<DeviceEvent>,
    middle: Seq<DeviceEvent>,
    after: Seq<DeviceEvent>,
    i: int,
    part: Seq<DeviceEvent>,
    left: Seq<DeviceEvent>,
    e: FractureError,
)
    requires
        0 < i < p.layers.len(),
        part + left == run.begin(p, i) + run.attend(p, tensors, t, i),
        middle == before + run.attend(p, tensors, t, 0) + run.layers(p, tensors, t, 1, i),
        ran(middle, after, part, Some(e)),
    ensures
        ran(
            before,
            after,
            run.attend(p, tensors, t, 0) + run.layers(p, tensors, t, 1, p.layers.len() as int),
            Some(e),
        ),
{
    let len = p.layers.len() as int;
    let first = run.attend(p, tensors, t, 0);
    let some = run.layers(p, tensors, t, 1, i);
    let sofar = first + some;
    assert(middle =~= before + sofar);
    ran_then(before, middle, after, sofar, part, Some(e));
    ran_short(before, after, sofar + part, left, e);
    assert(some + (part + left) =~= some + run.begin(p, i) + run.attend(p, tensors, t, i));
    assert(sofar + part + left =~= first + (some + (part + left)));
    assert(sofar + part + left == first + run.layers(p, tensors, t, 1, i + 1));
    paged_layers_split(p, run, tensors, t, 1, i + 1, len);
    let more = run.layers(p, tensors, t, i + 1, len);
    ran_short(before, after, sofar + part + left, more, e);
    assert(sofar + part + left + more =~= first + run.layers(p, tensors, t, 1, len));
}

/// A failure of layer `i` is a failure of the layers.
proof fn paged_layer_fails(
    p: Pass,
    handle: CacheHandle,
    run: PagedRun,
    tensors: Seq<Seq<TensorInfo>>,
    exhausted: FractureError,
    i: int,
    before: PagedState,
    middle: PagedState,
    after: PagedState,
    e: FractureError,
)
    requires
        0 <= i < p.layers.len(),
        ({
            let grown = before.cache.append(handle, 0, p.n() as int);
            let t = grown.seqs[handle.0];
            &&& i == 0 ==> middle == before
            &&& i > 0 ==> before.cache.has_room(handle, 0, p.n() as int) && middle.cache == grown
                && middle.trace == before.trace + run.begin(p, 0) + run.attend(p, tensors, t, 0)
                + run.layers(p, tensors, t, 1, i)
        }),
        paged_layer_outcome(p, handle, run, tensors, exhausted, i, middle, after, Some(e)),
    ensures
        paged_layers_outcome(p, handle, run, tensors, exhausted, before, after, Some(e)),
{
    let grown = before.cache.append(handle, 0, p.n() as int);
    let t = grown.seqs[handle.0];
    let start = before.trace + run.begin(p, 0);
    let others = run.layers(p, tensors, t, 1, p.layers.len() as int);
    if i == 0 {
        if after.cache == grown && ran(start, after.trace, run.attend(p, tensors, t, 0), Some(e)) {
            ran_short(start, after.trace, run.attend(p, tensors, t, 0), others, e);
        }
    } else {
        let begin = run.begin(p, i);
        let attend = run.attend(p, tensors, t, i);
        let none = Seq::<DeviceEvent>::empty();
        if ran(middle.trace, after.trace, begin, Some(e)) {
            paged_layer_stops(
                p,
                run,
                tensors,
                t,
                start,
                middle.trace,
                after.trace,
                i,
                begin,
                attend,
                e,
            );
        } else {
            ran_then(
                middle.trace,
                middle.trace + begin,
                after.trace,
                begin,
                attend,
                Some(e),
            );
            assert(begin + attend + none =~= begin + attend);
            paged_layer_stops(
                p,
                run,
                tensors,
                t,
                start,
                middle.trace,
                after.trace,
                i,
                begin + attend,
                none,
                e,
            );
        }
    }
}

/// Runs all layers of a pass over a paged cache.
pub(crate) fn run_paged_layers<B: Backend>(
    backend: &mut B,
    weights: &WeightStore,
    base: usize,
    node: &NodeConfig,
    cache: &mut PagedKvCacheManager,
    handle: CacheHandle,
    start_pos: usize,
    r: &Resolved,
    s: &Scratch,
    Ghost(p): Ghost<Pass>,
    Ghost(run): Ghost<PagedRun>,
) -> (res: Result<()>)
    requires
        weights_cover(
            *weights,
            base as int,
            *node,
            if old(cache).model().has_room(handle, 0, p.n() as int) {
                p.layers.len() as int
            } else {
                1
            },
        ) || p.layers.len() == 0,
        p == node_pass(*weights, base as int, *node, p.input),
        old(cache).wf(),
        old(cache).sequences().contains_key(handle.0),
        start_pos == old(cache).sequences()[handle.0].len,
        old(cache).model().has_room(handle, 0, p.n() as int) && p.layers.len() > 0
            ==> p.layers.len() <= old(cache).blocks().layers() && start_pos + p.n() <= usize::MAX,
        r.n == p.n(),
        r.positions@ == p.positions(),
        run.hidden == r.hidden@,
        run.scratch == s@,
    ensures
        final(cache).wf(),
        final(cache).blocks().same_blocks(&old(cache).blocks()),
        final(cache).next_handle() == old(cache).next_handle(),
        paged_layers_outcome(
            p,
            handle,
            run,
            old(cache).blocks().tensors(),
            old(cache).blocks().exhausted(),
            PagedState { cache: old(cache).model(), trace: old(backend).trace() },
            PagedState { cache: final(cache).model(), trace: final(backend).trace() },
            error_of(res),
        ),
{
    let cfg = weights.config;
    let ghost before = backend.trace();
    let ghost m = cache.model();
    let ghost tensors = cache.blocks().tensors();
    let ghost n = p.n() as int;
    let ghost grown = m.append(handle, 0, n);
    let ghost t = grown.seqs[handle.0];
    let ghost len = p.layers.len() as int;
    let v = make_views(&cfg, s, r.n);
    let mut layer_idx: usize = node.layer_range.start;
    assert(run.layers(p, tensors, t, 1, 1) =~= Seq::empty());
    while layer_idx < node.layer_range.end
        invariant
            before == old(backend).trace(),
            m == old(cache).model(),
            tensors == old(cache).blocks().tensors(),
            n == p.n(),
            grown == m.append(handle, 0, n),
            t == grown.seqs[handle.0],
            len == p.layers.len(),
            cfg == weights.config,
            weights_cover(
                *weights,
                base as int,
                *node,
                if m.has_room(handle, 0, n) {
                    len
                } else {
                    1
                },
            ) || len == 0,
            p == node_pass(*weights, base as int, *node, p.input),
            m.seqs.contains_key(handle.0),
            start_pos == m.seqs[handle.0].len,
            m.has_room(handle, 0, n) && len > 0 ==> len <= old(cache).blocks().layers() && start_pos
                + p.n() <= usize::MAX,
            r.n == p.n(),
            r.positions@ == p.positions(),
            run.hidden == r.hidden@,
            run.scratch == s@,
            v@ == head_views(cfg, s@, r.n),
            cache.wf(),
            cache.blocks().same_blocks(&old(cache).blocks()),
            cache.next_handle() == old(cache).next_handle(),
            node.start() <= node.end() ==> node.start() <= layer_idx <= node.end(),
            node.start() > node.end() ==> layer_idx == node.start(),
            layer_idx == node.start() ==> cache.model() == m && backend.trace() == before,
            layer_idx > node.start() ==> m.has_room(handle, 0, n) && cache.model() == grown
                && backend.trace() == before + run.begin(p, 0) + run.attend(p, tensors, t, 0)
                + run.layers(p, tensors, t, 1, layer_idx - node.start()),
            len == 0 ==> node.start() >= node.end(),
        decreases node.layer_range.end - layer_idx,
    {
        let cache_idx: usize = layer_idx - node.layer_range.start;
        let ghost i = cache_idx as int;
        let ghost middle = PagedState { cache: cache.model(), trace: backend.trace() };
        let ran_layer = run_paged_layer(
            backend,
            &cfg,
            layer_idx,
            &weights.layers[layer_idx - base],
            cache,
            handle,
            cache_idx,
            start_pos,
            r,
            s,
            &v,
            Ghost(p),
            Ghost(run),
        );
        let ghost after = PagedState { cache: cache.model(), trace: backend.trace() };
        if let Err(e) = ran_layer {
            proof {
                paged_layer_fails(
                    p,
                    handle,
                    run,
                    tensors,
                    cache.blocks().exhausted(),
                    i,
                    PagedState { cache: m, trace: before },
                    middle,
                    after,
                    e,
                );
            }
            return Err(e);
        }
        proof {
            if i == 0 {
                assert(backend.trace() =~= before + run.begin(p, 0) + run.attend(p, tensors, t, 0)
                    + run.layers(p, tensors, t, 1, 1));
            } else {
                assert(run.layers(p, tensors, t, 1, i + 1) == run.layers(p, tensors, t, 1, i)
                    + run.begin(p, i) + run.attend(p, tensors, t, i));
                assert(backend.trace() =~= before + run.begin(p, 0) + run.attend(p, tensors, t, 0)
                    + run.layers(p, tensors, t, 1, i + 1));
            }
        }
        layer_idx = layer_idx + 1;
    }
    proof {
        if len > 0 {
            assert(backend.trace() =~= before + run.begin(p, 0) + (run.attend(p, tensors, t, 0)
                + run.layers(p, tensors, t, 1, len)));
        }
    }
    Ok(())
}

/// A device failure during the input is a failure of the pass.
pub(crate) proof fn paged_input_stops(
    p: Pass,
    handle: CacheHandle,
    run: PagedRun,
    tensors: Seq<Seq<TensorInfo>>,
    exhausted: FractureError,
    before: PagedState,
    after: PagedState,
    e: FractureError,
)
    requires
        after.cache == before.cache,
        ran(before.trace, after.trace, p.input_events(run.hidden), Some(e)),
    ensures
        paged_outcome(p, handle, run, tensors, exhausted, before, after, Err(e)),
{
    ran_short(
        before.trace,
        after.trace,
        p.input_events(run.hidden),
        all_allocated(run.scratch.list()),
        e,
    );
    if !p.beyond() {
        paged_setup_stops(p, handle, run, tensors, exhausted, before, after, e);
    }
}

/// A device failure before the first layer is a failure of the pass.
pub(crate) proof fn paged_setup_stops(
    p: Pass,
    handle: CacheHandle,
    run: PagedRun,
    tensors: Seq<Seq<TensorInfo>>,
    exhausted: FractureError,
    before: PagedState,
    after: PagedState,
    e: FractureError,
)
    requires
        !p.beyond(),
        after.cache == before.cache,
        ran(before.trace, after.trace, run.setup(p), Some(e)),
    ensures
        paged_outcome(p, handle, run, tensors, exhausted, before, after, Err(e)),
{
    let t = before.cache.append(handle, 0, p.n() as int).seqs[handle.0];
    let stages = run.stages(p, tensors, t);
    let caches = stage_caches(p, before.cache, handle);
    let none = Seq::<DeviceEvent>::empty();
    let rest = if p.layers.len() == 0 {
        p.end_events(run.hidden, run.scratch, run.output)
    } else {
        run.begin(p, 0)
    };
    ran_short(before.trace, after.trace, run.setup(p), rest, e);
    assert(stages.take(0) =~= Seq::empty());
    assert(before.trace + joined(stages.take(0)) + none =~= before.trace);
    assert(none + run.setup(p) + rest =~= stages[0]);
    stage_stops(
        stages,
        caches,
        0,
        before.trace,
        before.trace,
        after.trace,
        none,
        run.setup(p),
        rest,
        e,
    );
}

/// The layers do not depend on the output phase.
pub(crate) proof fn same_paged_layers(
    p: Pass,
    handle: CacheHandle,
    run: PagedRun,
    output: OutputInfo,
    tensors: Seq<Seq<TensorInfo>>,
    exhausted: FractureError,
    before: PagedState,
    after: PagedState,
    err: Option<FractureError>,
)
    requires
        paged_layers_outcome(p, handle, run, tensors, exhausted, before, after, err),
    ensures
        paged_layers_outcome(
            p,
            handle,
            PagedRun { output, ..run },
            tensors,
            exhausted,
            before,
            after,
            err,
        ),
{
    let t = before.cache.append(handle, 0, p.n() as int).seqs[handle.0];
    same_layer_events(p, run, output, tensors, t, 1, p.layers.len() as int);
}

proof fn same_layer_events(
    p: Pass,
    run: PagedRun,
    output: OutputInfo,
    tensors: Seq<Seq<TensorInfo>>,
    t: BlocksInfo,
    from: int,
    to: int,
)
    ensures
        run.layers(p, tensors, t, from, to) == (PagedRun { output, ..run }).layers(
            p,
            tensors,
            t,
            from,
            to,
        ),
    decreases to - from,
{
    if from < to {
        same_layer_events(p, run, output, tensors, t, from, to - 1);
    }
}

/// A pass whose layers did not all run ends as they do.
pub(crate) proof fn paged_layers_stop(
    p: Pass,
    handle: CacheHandle,
    run: PagedRun,
    tensors: Seq<Seq<TensorInfo>>,
    exhausted: FractureError,
    before: PagedState,
    after: PagedState,
    e: FractureError,
)
    requires
        !p.beyond(),
        before.cache.seqs.contains_key(handle.0),
        paged_layers_outcome(
            p,
            handle,
            run,
            tensors,
            exhausted,
            PagedState { trace: before.trace + run.setup(p), ..before },
            after,
            Some(e),
        ),
    ensures
        paged_outcome(p, handle, run, tensors, exhausted, before, after, Err(e)),
{
    let m = before.cache;
    let grown = m.append(handle, 0, p.n() as int);
    let t = grown.seqs[handle.0];
    let stages = run.stages(p, tensors, t);
    let caches = stage_caches(p, m, handle);
    let at = before.trace + run.setup(p);
    let begin = run.begin(p, 0);
    let none = Seq::<DeviceEvent>::empty();
    let rest = run.attend(p, tensors, t, 0) + run.layers(p, tensors, t, 1, p.layers.len() as int);
    assert(stages.take(0) =~= Seq::empty());
    assert(stages.take(1) =~= seq![stages[0]]);
    joined_one(stages[0]);
    assert(at + begin =~= before.trace + stages[0]);
    if ran(at, after.trace, begin, Some(e)) {
        ran_then(before.trace, at, after.trace, run.setup(p), begin, Some(e));
        assert(before.trace + joined(stages.take(0)) + none =~= before.trace);
        assert(none + stages[0] + none =~= stages[0]);
        stage_stops(
            stages,
            caches,
            0,
            before.trace,
            before.trace,
            after.trace,
            none,
            stages[0],
            none,
            e,
        );
    }
    if m.has_room(handle, 0, p.n() as int) && ran(at + begin, after.trace, rest, Some(e)) {
        let end = p.end_events(run.hidden, run.scratch, run.output);
        assert(at + begin =~= before.trace + joined(stages.take(1)) + none);
        assert(none + rest + end =~= stages[1]);
        stage_stops(
            stages,
            caches,
            1,
            before.trace,
            at + begin,
            after.trace,
            none,
            rest,
            end,
            e,
        );
    }
}

/// A pass whose layers all ran ends as the output phase does.
pub(crate) proof fn paged_layers_done(
    p: Pass,
    handle: CacheHandle,
    run: PagedRun,
    tensors: Seq<Seq<TensorInfo>>,
    exhausted: FractureError,
    before: PagedState,
    middle: PagedState,
    after: PagedState,
    res: Result<NodeOutput>,
)
    requires
        !p.beyond(),
        before.cache.seqs.contains_key(handle.0),
        after.cache == middle.cache,
        paged_layers_outcome(
            p,
            handle,
            run,
            tensors,
            exhausted,
            PagedState { trace: before.trace + run.setup(p), ..before },
            middle,
            None,
        ),
        ran(
            middle.trace,
            after.trace,
            p.end_events(run.hidden, run.scratch, run.output),
            error_of(res),
        ),
        res matches Ok(out) ==> out@ == p.output(run.hidden, run.output),
    ensures
        paged_outcome(p, handle, run, tensors, exhausted, before, after, res),
{
    let m = before.cache;
    let grown = m.append(handle, 0, p.n() as int);
    let t = grown.seqs[handle.0];
    let stages = run.stages(p, tensors, t);
    let caches = stage_caches(p, m, handle);
    let end = p.end_events(run.hidden, run.scratch, run.output);
    let none = Seq::<DeviceEvent>::empty();
    let last = stages.len() - 1;
    let sofar = if p.layers.len() == 0 {
        run.setup(p)
    } else {
        run.attend(p, tensors, t, 0) + run.layers(p, tensors, t, 1, p.layers.len() as int)
    };
    assert(stages.take(0) =~= Seq::empty());
    assert(stages.take(1) =~= seq![stages[0]]);
    joined_one(stages[0]);
    assert(stages.drop_last() =~= stages.take(last));
    assert(joined(stages) =~= joined(stages.take(last)) + stages[last]);
    assert(middle.trace =~= before.trace + joined(stages.take(last)) + sofar);
    assert(sofar + end + none =~= stages[last]);
    match error_of(res) {
        None => {
            assert(after.trace =~= before.trace + joined(stages));
        },
        Some(e) => {
            stage_stops(
                stages,
                caches,
                last,
                before.trace,
                middle.trace,
                after.trace,
                sofar,
                end,
                none,
                e,
            );
        },
    }
}

} // verus!

//! A forward pass over a batch of sequences: all layers, and the output phase.
use crate::base::backend::{done, Backend, DeviceCall, DeviceEvent};
use crate::base::error::{FractureError, Result};
use crate::base::model_config::ModelConfig;
use crate::base::numeric::Half;
use crate::base::program::{
    all_done, calls_of, error_of, frees, joined, joined_one, push_command, ran, ran_short, ran_then,
    run_all, run_untimed, step_calls, steps_of, DeviceCommand, Step,
};
use crate::base::tensor::{DeviceTensor, TensorInfo};
use crate::engine::batch_layers::{
    append_batch, appended, are_slices, attend_batch, blank_slice, has_room_at, have_room,
    limit_bounds, parts_ready, AppendInfo, AttendInfo, Part,
};
use crate::engine::logits::halves;
use crate::engine::paged_kv_cache::{CacheModel, PagedKvCacheManager};
use crate::engine::staged::{
    joined_split, prefix_fails, prefix_outcome, prefixed, staged_outcome, stages_are_program,
    suffix_fails, suffix_outcome, suffixed,
};
use crate::engine::transformer::{
    fetch_events, fetch_row, finish_steps, head_views, is_logits, is_row, logits_fit, make_views,
    project_steps, push_finish_steps, push_project_steps, push_scratch_frees, row_events,
    row_logits, HeadViews, HeadViewsInfo, OutputInfo, Scratch, ScratchInfo,
};
use crate::engine::weights::{LayerWeights, LayerWeightsInfo, WeightStore};
use vstd::prelude::*;

verus! {

/// What a pass over a batch is given.
pub struct Batch {
    pub cfg: ModelConfig,
    /// The weights of the layers that are executed.
    pub layers: Seq<LayerWeightsInfo>,
    pub output_norm: TensorInfo,
    pub lm_head: TensorInfo,
    pub parts: Seq<Part>,
    /// Tokens of all parts.
    pub total: usize,
    /// Positions of all tokens.
    pub positions: Seq<u32>,
    /// The tensors of the block pool.
    pub tensors: Seq<Seq<TensorInfo>>,
    /// The bookkeeping of the cache before the pass.
    pub cache: CacheModel,
}

/// The slices of the batch that one layer makes.
pub struct LayerSlices {
    pub ks: Seq<TensorInfo>,
    pub vs: Seq<TensorInfo>,
    pub qs: Seq<TensorInfo>,
    pub os: Seq<TensorInfo>,
}

/// The device values that a pass over a batch meets.
pub struct BatchRun {
    pub hidden: TensorInfo,
    pub scratch: ScratchInfo,
    /// The slices that each layer makes.
    pub slices: Seq<LayerSlices>,
    /// The last row and the logits of each part.
    pub rows: Seq<OutputInfo>,
}

impl LayerSlices {
    /// The slices have the shapes of the parts.
    pub open spec fn fits(self, b: Batch) -> bool {
        &&& are_slices(self.ks, b.parts, b.cfg.num_kv_heads, b.cfg.head_dim)
        &&& are_slices(self.vs, b.parts, b.cfg.num_kv_heads, b.cfg.head_dim)
        &&& are_slices(self.qs, b.parts, b.cfg.num_q_heads, b.cfg.head_dim)
        &&& are_slices(self.os, b.parts, b.cfg.num_q_heads, b.cfg.head_dim)
    }

    /// Some slices of the right shapes.
    pub open spec fn blank(b: Batch) -> Self {
        let kv = Seq::new(
            b.parts.len(),
            |j: int| blank_slice(b.parts[j].n, b.cfg.num_kv_heads, b.cfg.head_dim),
        );
        let q = Seq::new(
            b.parts.len(),
            |j: int| blank_slice(b.parts[j].n, b.cfg.num_q_heads, b.cfg.head_dim),
        );
        LayerSlices { ks: kv, vs: kv, qs: q, os: q }
    }
}

impl Batch {
    /// The bookkeeping once all parts are counted in.
    pub open spec fn grown(self) -> CacheModel {
        appended(self.cache, self.parts, 0, self.parts.len() as int)
    }

    /// The views of the scratch tensors by heads.
    pub open spec fn views(self, s: ScratchInfo) -> HeadViewsInfo {
        head_views(self.cfg, s, self.total)
    }

    /// The first part of layer `l`.
    pub open spec fn project(self, hidden: TensorInfo, s: ScratchInfo, l: int) -> Seq<DeviceEvent> {
        all_done(
            step_calls(
                project_steps(self.cfg, self.layers[l], hidden, s, self.total, self.positions),
            ),
        )
    }

    /// The appending to the cache in layer `l`. Layer 0 counts the parts in.
    pub open spec fn append(self, s: ScratchInfo, l: int) -> AppendInfo {
        AppendInfo {
            views: self.views(s),
            tensors: self.tensors,
            cache: if l == 0 {
                self.cache
            } else {
                self.grown()
            },
            parts: self.parts,
            layer: l,
        }
    }

    /// Attention in layer `l`.
    pub open spec fn attend(self, s: ScratchInfo, l: int) -> AttendInfo {
        AttendInfo {
            cfg: self.cfg,
            views: self.views(s),
            tensors: self.tensors,
            seqs: self.grown().seqs,
            parts: self.parts,
            layer: l,
        }
    }

    /// The last part of layer `l`.
    pub open spec fn finish(self, hidden: TensorInfo, s: ScratchInfo, l: int) -> Seq<DeviceEvent> {
        all_done(step_calls(finish_steps(self.cfg, self.layers[l], hidden, s, self.total)))
    }

    /// What follows the appending in layer `l`, with these slices.
    pub open spec fn closing(
        self,
        hidden: TensorInfo,
        s: ScratchInfo,
        l: int,
        qs: Seq<TensorInfo>,
        os: Seq<TensorInfo>,
    ) -> Seq<DeviceEvent> {
        joined(self.attend(s, l).rows(qs, os)) + self.finish(hidden, s, l)
    }

    /// What follows the appending in layer `l`.
    pub open spec fn close(
        self,
        hidden: TensorInfo,
        s: ScratchInfo,
        l: int,
        sl: LayerSlices,
    ) -> Seq<DeviceEvent> {
        self.closing(hidden, s, l, sl.qs, sl.os)
    }

    /// The stages of layer `l`.
    pub open spec fn layer_stages(
        self,
        hidden: TensorInfo,
        s: ScratchInfo,
        l: int,
        sl: LayerSlices,
    ) -> Seq<Seq<DeviceEvent>> {
        suffixed(
            prefixed(self.append(s, l).stages(sl.ks, sl.vs), self.project(hidden, s, l)),
            self.close(hidden, s, l, sl),
        )
    }

    /// The events of the layers `from..to`, none of which is the first.
    pub open spec fn later(
        self,
        hidden: TensorInfo,
        s: ScratchInfo,
        slices: Seq<LayerSlices>,
        from: int,
        to: int,
    ) -> Seq<DeviceEvent>
        decreases to - from,
    {
        if from >= to {
            Seq::empty()
        } else {
            self.later(hidden, s, slices, from, to - 1) + joined(
                self.layer_stages(hidden, s, to - 1, slices[to - 1]),
            )
        }
    }

    /// The stages of all layers. The first layer counts the parts in, one by one.
    pub open spec fn stages(
        self,
        hidden: TensorInfo,
        s: ScratchInfo,
        slices: Seq<LayerSlices>,
    ) -> Seq<Seq<DeviceEvent>> {
        if self.layers.len() == 0 {
            seq![Seq::empty()]
        } else {
            suffixed(
                self.layer_stages(hidden, s, 0, slices[0]),
                self.later(hidden, s, slices, 1, self.layers.len() as int),
            )
        }
    }

    /// The bookkeeping during each stage.
    pub open spec fn caches(self, s: ScratchInfo) -> Seq<CacheModel> {
        if self.layers.len() == 0 {
            seq![self.cache]
        } else {
            self.append(s, 0).caches()
        }
    }

    /// The number of stages that can run.
    pub open spec fn limit(self, s: ScratchInfo) -> int {
        if self.layers.len() == 0 {
            1
        } else {
            self.append(s, 0).limit()
        }
    }

    /// There are blocks for all parts, if they are appended at all.
    pub open spec fn has_room(self) -> bool {
        self.layers.len() > 0 ==> have_room(
            self.cache,
            self.parts,
            0,
            self.parts.len() as int,
        )
    }

    /// `held` layers with weights and `cached` layers of the cache are as many as the batch
    /// gets to where the device does not fail. Where blocks are lacking that is the first
    /// layer, and its cache only if the first part has room.
    pub open spec fn can_run(self, held: int, cached: int) -> bool {
        if self.has_room() {
            self.layers.len() <= held && self.layers.len() <= cached
        } else {
            &&& 1 <= held
            &&& has_room_at(self.cache, self.parts, 0, 0) ==> 1 <= cached
        }
    }

    /// Every part names a sequence of the cache, with the start that it says and
    /// room in the counters for all tokens of the batch.
    pub open spec fn ready(self) -> bool {
        &&& forall|j: int|
            0 <= j < self.parts.len() ==> self.cache.seqs.contains_key(
                (#[trigger] self.parts[j]).handle.0,
            ) && self.cache.seqs[self.parts[j].handle.0].len + self.total <= usize::MAX
                && self.parts[j].start_pos == self.cache.seqs[self.parts[j].handle.0].len
        &&& parts_consecutive(self.parts, self.total)
    }
}

/// Part `j` ends where the next one begins, or the batch ends.
pub open spec fn part_closes(parts: Seq<Part>, total: usize, j: int) -> bool {
    parts[j].offset + parts[j].n == if j + 1 < parts.len() {
        parts[j + 1].offset as int
    } else {
        total as int
    }
}

/// The parts follow each other in the batch and make it up.
pub open spec fn parts_consecutive(parts: Seq<Part>, total: usize) -> bool {
    &&& forall|j: int| 0 <= j < parts.len() ==> #[trigger] part_closes(parts, total, j)
    &&& parts.len() > 0 ==> parts[0].offset == 0
    &&& parts.len() == 0 ==> total == 0
}

/// While the first `j` parts are counted in, every sequence stays known and grows by
/// no more than those parts hold.
proof fn appended_bounds(b: Batch, j: int, id: u64)
    requires
        b.ready(),
        0 <= j <= b.parts.len(),
        b.cache.seqs.contains_key(id),
        b.cache.seqs[id].len + b.total <= usize::MAX,
    ensures
        ({
            let m = appended(b.cache, b.parts, 0, j);
            &&& m.seqs.contains_key(id)
            &&& b.cache.seqs[id].len <= m.seqs[id].len
            &&& m.seqs[id].len - b.cache.seqs[id].len <= (if j < b.parts.len() {
                b.parts[j].offset as int
            } else {
                b.total as int
            })
            &&& forall|i: int|
                0 <= i < j && (#[trigger] b.parts[i]).handle.0 == id ==> b.parts[i].n
                    <= m.seqs[id].len
        }),
    decreases j,
{
    if j > 0 {
        appended_bounds(b, j - 1, id);
        assert(part_closes(b.parts, b.total, j - 1));
        let m = appended(b.cache, b.parts, 0, j - 1);
        let part = b.parts[j - 1];
        assert(part.offset + part.n <= b.total) by {
            offsets_bounded(b.parts, b.total, j - 1);
        }
        if part.handle.0 == id {
            assert(m.append(part.handle, 0, part.n as int).seqs[id] == m.seqs[id].grown(
                m.free,
                part.n as int,
            ));
        } else {
            assert(m.append(part.handle, 0, part.n as int).seqs[id] == m.seqs[id]);
        }
    }
}

/// Every part lies within the batch.
proof fn offsets_bounded(parts: Seq<Part>, total: usize, j: int)
    requires
        parts_consecutive(parts, total),
        0 <= j < parts.len(),
    ensures
        parts[j].offset + parts[j].n <= total,
    decreases parts.len() - j,
{
    assert(part_closes(parts, total, j));
    if j + 1 < parts.len() {
        offsets_bounded(parts, total, j + 1);
    }
}

/// The layers after the first change nothing in the bookkeeping.
proof fn appended_later(m: CacheModel, parts: Seq<Part>, layer: int, j: int)
    requires
        layer != 0,
        0 <= j,
    ensures
        appended(m, parts, layer, j) == m,
    decreases j,
{
    if j > 0 {
        appended_later(m, parts, layer, j - 1);
    }
}

/// A batch that is ready can be appended in each layer.
proof fn ready_for_layer(b: Batch, s: ScratchInfo, l: int)
    requires
        b.ready(),
        0 <= l,
    ensures
        parts_ready(b.append(s, l).cache, b.parts, l),
        l > 0 ==> have_room(b.append(s, l).cache, b.parts, l, b.parts.len() as int),
        l > 0 ==> forall|k: int|
            0 <= k <= b.parts.len() ==> #[trigger] b.append(s, l).after(k) == b.grown(),
{
    let m = b.append(s, l).cache;
    assert forall|j: int| 0 <= j < b.parts.len() implies {
        let a = appended(m, b.parts, l, j);
        let h = (#[trigger] b.parts[j]).handle.0;
        &&& a.seqs.contains_key(h)
        &&& l == 0 ==> a.seqs[h].len + b.parts[j].n <= usize::MAX
        &&& l > 0 ==> b.parts[j].n <= a.seqs[h].len
    } by {
        let h = b.parts[j].handle.0;
        offsets_bounded(b.parts, b.total, j);
        if l == 0 {
            appended_bounds(b, j, h);
        } else {
            appended_bounds(b, b.parts.len() as int, h);
            appended_later(m, b.parts, l, j);
        }
    }
    assert forall|k: int| l > 0 && 0 <= k <= b.parts.len() implies #[trigger] b.append(
        s,
        l,
    ).after(k) == b.grown() by {
        appended_later(m, b.parts, l, k);
    }
}

/// After the parts are counted in, attention can find each of them.
proof fn ready_to_attend(b: Batch, j: int)
    requires
        b.ready(),
        0 <= j < b.parts.len(),
    ensures
        b.grown().seqs.contains_key(b.parts[j].handle.0),
        b.parts[j].start_pos + b.parts[j].n <= usize::MAX,
{
    offsets_bounded(b.parts, b.total, j);
    appended_bounds(b, b.parts.len() as int, b.parts[j].handle.0);
}

/// Runs attention and the rest of a layer.
fn close_batch_layer<B: Backend>(
    backend: &mut B,
    cfg: &ModelConfig,
    w: &LayerWeights,
    hidden: &DeviceTensor,
    s: &Scratch,
    views: &HeadViews,
    cache: &PagedKvCacheManager,
    parts: &Vec<Part>,
    l: usize,
    Ghost(b): Ghost<Batch>,
) -> (res: Result<()>)
    requires
        cache.wf(),
        l < b.layers.len(),
        b.parts.len() > 0 ==> l < cache.blocks().layers(),
        b.ready(),
        b.cfg == cfg,
        b.layers[l as int] == w@,
        b.parts == parts@,
        b.tensors == cache.blocks().tensors(),
        cache.model() == b.grown(),
        views@ == b.views(s@),
    ensures
        exists|qs: Seq<TensorInfo>, os: Seq<TensorInfo>|
            are_slices(qs, b.parts, b.cfg.num_q_heads, b.cfg.head_dim) && are_slices(
                os,
                b.parts,
                b.cfg.num_q_heads,
                b.cfg.head_dim,
            ) && #[trigger] ran(
                old(backend).trace(),
                final(backend).trace(),
                b.closing(hidden@, s@, l as int, qs, os),
                error_of(res),
            ),
{
    let ghost before = backend.trace();
    let ghost a = b.attend(s@, l as int);
    proof {
        assert forall|j: int| 0 <= j < parts@.len() implies cache.sequences().contains_key(
            (#[trigger] parts@[j]).handle.0,
        ) && parts@[j].start_pos + parts@[j].n <= usize::MAX by {
            ready_to_attend(b, j);
        }
    }
    let r = attend_batch(backend, cfg, views, cache, parts, l, Ghost(a));
    let ghost (qs, os) = choose|qs: Seq<TensorInfo>, os: Seq<TensorInfo>|
        are_slices(qs, parts@, cfg.num_q_heads, cfg.head_dim) && are_slices(
            os,
            parts@,
            cfg.num_q_heads,
            cfg.head_dim,
        ) && #[trigger] ran(before, backend.trace(), joined(a.rows(qs, os)), error_of(r));
    let ghost finish = b.finish(hidden@, s@, l as int);
    let ghost rows = joined(a.rows(qs, os));
    proof {
        if let Some(e) = error_of(r) {
            ran_short(before, backend.trace(), rows, finish, e);
            assert(ran(
                before,
                backend.trace(),
                b.closing(hidden@, s@, l as int, qs, os),
                Some(e),
            ));
        }
    }
    r?;
    let ghost middle = backend.trace();
    let mut steps: Vec<Step> = Vec::new();
    push_finish_steps(&mut steps, cfg, w, hidden, s, views, Ghost(b.total));
    let res = run_untimed(backend, &steps);
    proof {
        assert(steps_of(steps@) =~= finish_steps(*cfg, w@, hidden@, s@, b.total));
        ran_then(before, middle, backend.trace(), rows, finish, error_of(res));
        assert(ran(
            before,
            backend.trace(),
            b.closing(hidden@, s@, l as int, qs, os),
            error_of(res),
        ));
    }
    res
}

/// Runs one layer of a batch.
fn run_batch_layer<B: Backend>(
    backend: &mut B,
    cfg: &ModelConfig,
    w: &LayerWeights,
    hidden: &DeviceTensor,
    s: &Scratch,
    views: &HeadViews,
    positions: &Vec<u32>,
    cache: &mut PagedKvCacheManager,
    parts: &Vec<Part>,
    l: usize,
    Ghost(b): Ghost<Batch>,
) -> (res: Result<()>)
    requires
        old(cache).wf(),
        l < b.layers.len(),
        b.parts.len() > 0 && has_room_at(b.append(s@, l as int).cache, b.parts, l as int, 0) ==> l
            < old(cache).blocks().layers(),
        b.ready(),
        b.cfg == cfg,
        b.layers[l as int] == w@,
        b.positions == positions@,
        b.parts == parts@,
        b.tensors == old(cache).blocks().tensors(),
        old(cache).model() == b.append(s@, l as int).cache,
        views@ == b.views(s@),
    ensures
        final(cache).wf(),
        final(cache).blocks().same_blocks(&old(cache).blocks()),
        final(cache).next_handle() == old(cache).next_handle(),
        exists|sl: LayerSlices|
            sl.fits(b) && #[trigger] staged_outcome(
                b.layer_stages(hidden@, s@, l as int, sl),
                b.append(s@, l as int).caches(),
                b.append(s@, l as int).limit(),
                old(cache).blocks().exhausted(),
                old(backend).trace(),
                final(backend).trace(),
                final(cache).model(),
                error_of(res),
            ),
{
    let ghost before = backend.trace();
    let ghost exhausted = cache.blocks().exhausted();
    let ghost a = b.append(s@, l as int);
    let ghost blank = LayerSlices::blank(b);
    let ghost project = b.project(hidden@, s@, l as int);
    proof {
        limit_bounds(a);
        ready_for_layer(b, s@, l as int);
    }
    let mut steps: Vec<Step> = Vec::new();
    push_project_steps(
        &mut steps,
        cfg,
        w,
        hidden,
        s,
        views,
        positions.as_slice(),
        Ghost(b.total),
    );
    let r = run_untimed(backend, &steps);
    proof {
        let spec_steps = project_steps(
            *cfg,
            w@,
            hidden@,
            s@,
            b.total,
            positions@,
        );
        assert(steps_of(steps@) =~= spec_steps);
        if let Some(e) = error_of(r) {
            let stages = a.stages(blank.ks, blank.vs);
            prefix_fails(
                stages,
                a.caches(),
                a.limit(),
                exhausted,
                project,
                before,
                backend.trace(),
                e,
            );
            suffix_fails(
                prefixed(stages, project),
                a.caches(),
                a.limit(),
                exhausted,
                b.close(hidden@, s@, l as int, blank),
                before,
                backend.trace(),
                a.caches()[0],
                e,
            );
            assert(blank.fits(b));
            assert(cache.model() == a.caches()[0]);
            assert(staged_outcome(
                b.layer_stages(hidden@, s@, l as int, blank),
                a.caches(),
                a.limit(),
                exhausted,
                before,
                backend.trace(),
                cache.model(),
                Some(e),
            ));
        }
    }
    r?;
    let ghost at_append = backend.trace();
    let r = append_batch(backend, cfg, views, cache, parts, l, Ghost(a));
    let ghost (ks, vs) = choose|ks: Seq<TensorInfo>, vs: Seq<TensorInfo>|
        are_slices(ks, parts@, cfg.num_kv_heads, cfg.head_dim) && are_slices(
            vs,
            parts@,
            cfg.num_kv_heads,
            cfg.head_dim,
        ) && #[trigger] a.outcome(
            ks,
            vs,
            exhausted,
            at_append,
            backend.trace(),
            cache.model(),
            error_of(r),
        );
    let ghost stages = prefixed(a.stages(ks, vs), project);
    proof {
        prefix_outcome(
            a.stages(ks, vs),
            a.caches(),
            a.limit(),
            exhausted,
            project,
            before,
            backend.trace(),
            cache.model(),
            error_of(r),
        );
        if let Some(e) = error_of(r) {
            let sl = LayerSlices { ks, vs, ..blank };
            suffix_fails(
                stages,
                a.caches(),
                a.limit(),
                exhausted,
                b.close(hidden@, s@, l as int, sl),
                before,
                backend.trace(),
                cache.model(),
                e,
            );
            assert(sl.fits(b));
            assert(staged_outcome(
                b.layer_stages(hidden@, s@, l as int, sl),
                a.caches(),
                a.limit(),
                exhausted,
                before,
                backend.trace(),
                cache.model(),
                Some(e),
            ));
        }
    }
    r?;
    let ghost at_close = backend.trace();
    proof {
        reveal(staged_outcome);
        assert(a.caches().last() == a.after(b.parts.len() as int));
        assert(cache.model() == b.grown());
    }
    let res = close_batch_layer(
        backend,
        cfg,
        w,
        hidden,
        s,
        views,
        cache,
        parts,
        l,
        Ghost(b),
    );
    proof {
        let (qs, os) = choose|qs: Seq<TensorInfo>, os: Seq<TensorInfo>|
            are_slices(qs, b.parts, b.cfg.num_q_heads, b.cfg.head_dim) && are_slices(
                os,
                b.parts,
                b.cfg.num_q_heads,
                b.cfg.head_dim,
            ) && #[trigger] ran(
                at_close,
                backend.trace(),
                b.closing(hidden@, s@, l as int, qs, os),
                error_of(res),
            );
        let sl = LayerSlices { ks, vs, qs, os };
        suffix_outcome(
            stages,
            a.caches(),
            a.limit(),
            exhausted,
            b.close(hidden@, s@, l as int, sl),
            before,
            at_close,
            backend.trace(),
            cache.model(),
            error_of(res),
        );
        assert(sl.fits(b));
        assert(staged_outcome(
                b.layer_stages(hidden@, s@, l as int, sl),
                a.caches(),
                a.limit(),
                exhausted,
                before,
                backend.trace(),
                cache.model(),
                error_of(res),
            ));
    }
    res
}

/// The later layers depend only on their own slices.
proof fn later_agrees(
    b: Batch,
    hidden: TensorInfo,
    s: ScratchInfo,
    x: Seq<LayerSlices>,
    y: Seq<LayerSlices>,
    from: int,
    to: int,
)
    requires
        0 <= from,
        to <= x.len(),
        x.is_prefix_of(y),
    ensures
        b.later(hidden, s, x, from, to) == b.later(hidden, s, y, from, to),
    decreases to - from,
{
    if from < to {
        later_agrees(b, hidden, s, x, y, from, to - 1);
    }
}

/// The later layers up to `mid` and those from there on are all of them.
proof fn later_split(
    b: Batch,
    hidden: TensorInfo,
    s: ScratchInfo,
    slices: Seq<LayerSlices>,
    from: int,
    mid: int,
    to: int,
)
    requires
        from <= mid <= to,
    ensures
        b.later(hidden, s, slices, from, to) == b.later(hidden, s, slices, from, mid) + b.later(
            hidden,
            s,
            slices,
            mid,
            to,
        ),
    decreases to - mid,
{
    let left = b.later(hidden, s, slices, from, mid);
    if mid == to {
        assert(left + Seq::<DeviceEvent>::empty() =~= left);
    } else {
        later_split(b, hidden, s, slices, from, mid, to - 1);
        let right = b.later(hidden, s, slices, mid, to - 1);
        let last = joined(b.layer_stages(hidden, s, to - 1, slices[to - 1]));
        assert(left + right + last =~= left + (right + last));
    }
}

/// The slices so far, and some for the layers to come.
pub open spec fn pad_layers(slices: Seq<LayerSlices>, b: Batch) -> Seq<LayerSlices> {
    Seq::new(
        b.layers.len(),
        |l: int|
            if l < slices.len() {
                slices[l]
            } else {
                LayerSlices::blank(b)
            },
    )
}

/// Slices for every layer.
pub open spec fn all_fit(slices: Seq<LayerSlices>, b: Batch) -> bool {
    &&& slices.len() == b.layers.len()
    &&& forall|l: int| 0 <= l < slices.len() ==> (#[trigger] slices[l]).fits(b)
}

/// A failure of the first layer is a failure of the layers.
proof fn first_layer_fails(
    b: Batch,
    hidden: TensorInfo,
    s: ScratchInfo,
    sl: LayerSlices,
    exhausted: FractureError,
    before: Seq<DeviceEvent>,
    after: Seq<DeviceEvent>,
    cache: CacheModel,
    e: FractureError,
)
    requires
        b.layers.len() > 0,
        sl.fits(b),
        staged_outcome(
            b.layer_stages(hidden, s, 0, sl),
            b.append(s, 0).caches(),
            b.append(s, 0).limit(),
            exhausted,
            before,
            after,
            cache,
            Some(e),
        ),
    ensures
        ({
            let slices = pad_layers(seq![sl], b);
            &&& all_fit(slices, b)
            &&& staged_outcome(
                b.stages(hidden, s, slices),
                b.caches(s),
                b.limit(s),
                exhausted,
                before,
                after,
                cache,
                Some(e),
            )
        }),
{
    let slices = pad_layers(seq![sl], b);
    limit_bounds(b.append(s, 0));
    assert(LayerSlices::blank(b).fits(b));
    assert(slices[0] == sl);
    suffix_fails(
        b.layer_stages(hidden, s, 0, sl),
        b.append(s, 0).caches(),
        b.append(s, 0).limit(),
        exhausted,
        b.later(hidden, s, slices, 1, b.layers.len() as int),
        before,
        after,
        cache,
        e,
    );
}

/// A later layer is one program, and leaves the bookkeeping as it is.
proof fn later_layer_is_program(
    b: Batch,
    hidden: TensorInfo,
    s: ScratchInfo,
    l: int,
    sl: LayerSlices,
    exhausted: FractureError,
    before: Seq<DeviceEvent>,
    after: Seq<DeviceEvent>,
    cache: CacheModel,
    err: Option<FractureError>,
)
    requires
        b.ready(),
        0 < l,
        staged_outcome(
            b.layer_stages(hidden, s, l, sl),
            b.append(s, l).caches(),
            b.append(s, l).limit(),
            exhausted,
            before,
            after,
            cache,
            err,
        ),
    ensures
        ran(before, after, joined(b.layer_stages(hidden, s, l, sl)), err),
        cache == b.grown(),
{
    reveal(staged_outcome);
    let a = b.append(s, l);
    let stages = b.layer_stages(hidden, s, l, sl);
    ready_for_layer(b, s, l);
    limit_bounds(a);
    let len = stages.len() as int;
    assert(stages.take(len) =~= stages);
    assert(a.caches().take(len) =~= a.caches());
    assert(a.limit() == len);
    stages_are_program(stages, a.caches(), before, after, cache, err);
    match err {
        None => {
            assert(a.caches().last() == a.after(b.parts.len() as int));
        },
        Some(e) => {
            let k = choose|k: int|
                0 <= k < stages.len() && cache == #[trigger] a.caches()[k] && ran(
                    before + joined(stages.take(k)),
                    after,
                    stages[k],
                    Some(e),
                );
            assert(a.caches()[k] == a.after(k));
        },
    }
}

/// After the first layer and some of the later ones, one more of them: either the
/// later ones are one further, or the layers end there.
proof fn later_layer_extends(
    b: Batch,
    hidden: TensorInfo,
    s: ScratchInfo,
    slices: Seq<LayerSlices>,
    sl: LayerSlices,
    exhausted: FractureError,
    before: Seq<DeviceEvent>,
    at_first: Seq<DeviceEvent>,
    middle: Seq<DeviceEvent>,
    after: Seq<DeviceEvent>,
    err: Option<FractureError>,
)
    requires
        b.ready(),
        0 < slices.len() < b.layers.len(),
        forall|l: int| 0 <= l < slices.len() ==> (#[trigger] slices[l]).fits(b),
        sl.fits(b),
        staged_outcome(
            b.layer_stages(hidden, s, 0, slices[0]),
            b.append(s, 0).caches(),
            b.append(s, 0).limit(),
            exhausted,
            before,
            at_first,
            b.grown(),
            None,
        ),
        middle == at_first + b.later(hidden, s, slices, 1, slices.len() as int),
        ran(
            middle,
            after,
            joined(b.layer_stages(hidden, s, slices.len() as int, sl)),
            err,
        ),
    ensures
        err is None ==> after == at_first + b.later(
            hidden,
            s,
            slices.push(sl),
            1,
            slices.len() as int + 1,
        ),
        err is Some ==> {
            let all = pad_layers(slices.push(sl), b);
            &&& all_fit(all, b)
            &&& staged_outcome(
                b.stages(hidden, s, all),
                b.caches(s),
                b.limit(s),
                exhausted,
                before,
                after,
                b.grown(),
                err,
            )
        },
{
    let l = slices.len() as int;
    let next = slices.push(sl);
    let some = b.later(hidden, s, slices, 1, l);
    let one = joined(b.layer_stages(hidden, s, l, sl));
    ran_then(at_first, middle, after, some, one, err);
    later_agrees(b, hidden, s, slices, next, 1, l);
    assert(b.later(hidden, s, next, 1, l + 1) == some + one);
    if let Some(e) = err {
        let all = pad_layers(next, b);
        let len = b.layers.len() as int;
        assert(next.is_prefix_of(all));
        later_agrees(b, hidden, s, next, all, 1, l + 1);
        later_split(b, hidden, s, all, 1, l + 1, len);
        ran_short(at_first, after, some + one, b.later(hidden, s, all, l + 1, len), e);
        limit_bounds(b.append(s, 0));
        assert(LayerSlices::blank(b).fits(b));
        assert(all[0] == slices[0]);
        suffix_outcome(
            b.layer_stages(hidden, s, 0, slices[0]),
            b.append(s, 0).caches(),
            b.append(s, 0).limit(),
            exhausted,
            b.later(hidden, s, all, 1, len),
            before,
            at_first,
            after,
            b.grown(),
            err,
        );
    }
}

/// All stages of a layer ran: all parts are counted in.
proof fn layer_counts_in(
    b: Batch,
    hidden: TensorInfo,
    s: ScratchInfo,
    l: int,
    sl: LayerSlices,
    exhausted: FractureError,
    before: Seq<DeviceEvent>,
    after: Seq<DeviceEvent>,
    cache: CacheModel,
)
    requires
        b.ready(),
        0 <= l,
        staged_outcome(
            b.layer_stages(hidden, s, l, sl),
            b.append(s, l).caches(),
            b.append(s, l).limit(),
            exhausted,
            before,
            after,
            cache,
            None,
        ),
    ensures
        cache == b.grown(),
        l == 0 ==> have_room(b.cache, b.parts, 0, b.parts.len() as int),
{
    reveal(staged_outcome);
    let a = b.append(s, l);
    limit_bounds(a);
    assert(a.caches().last() == a.after(b.parts.len() as int));
    ready_for_layer(b, s, l);
}

/// Without layers nothing is asked of the device.
proof fn no_layers(
    b: Batch,
    hidden: TensorInfo,
    s: ScratchInfo,
    exhausted: FractureError,
    trace: Seq<DeviceEvent>,
)
    requires
        b.layers.len() == 0,
    ensures
        ({
            let none = Seq::<LayerSlices>::empty();
            &&& all_fit(none, b)
            &&& staged_outcome(
                b.stages(hidden, s, none),
                b.caches(s),
                b.limit(s),
                exhausted,
                trace,
                trace,
                b.cache,
                None,
            )
        }),
{
    reveal(staged_outcome);
    let stages = b.stages(hidden, s, Seq::<LayerSlices>::empty());
    joined_one(Seq::<DeviceEvent>::empty());
    assert(stages =~= seq![Seq::<DeviceEvent>::empty()]);
    assert(trace + joined(stages) =~= trace);
}

/// The first layer and all later ones ran.
proof fn layers_done(
    b: Batch,
    hidden: TensorInfo,
    s: ScratchInfo,
    slices: Seq<LayerSlices>,
    exhausted: FractureError,
    before: Seq<DeviceEvent>,
    at_first: Seq<DeviceEvent>,
    after: Seq<DeviceEvent>,
)
    requires
        b.layers.len() > 0,
        all_fit(slices, b),
        staged_outcome(
            b.layer_stages(hidden, s, 0, slices[0]),
            b.append(s, 0).caches(),
            b.append(s, 0).limit(),
            exhausted,
            before,
            at_first,
            b.grown(),
            None,
        ),
        after == at_first + b.later(hidden, s, slices, 1, b.layers.len() as int),
    ensures
        staged_outcome(
            b.stages(hidden, s, slices),
            b.caches(s),
            b.limit(s),
            exhausted,
            before,
            after,
            b.grown(),
            None,
        ),
{
    limit_bounds(b.append(s, 0));
    suffix_outcome(
        b.layer_stages(hidden, s, 0, slices[0]),
        b.append(s, 0).caches(),
        b.append(s, 0).limit(),
        exhausted,
        b.later(hidden, s, slices, 1, b.layers.len() as int),
        before,
        at_first,
        after,
        b.grown(),
        None,
    );
}

/// Runs all layers of a batch.
pub(crate) fn run_batch_layers<B: Backend>(
    backend: &mut B,
    weights: &WeightStore,
    num_layers: usize,
    hidden: &DeviceTensor,
    s: &Scratch,
    positions: &Vec<u32>,
    cache: &mut PagedKvCacheManager,
    parts: &Vec<Part>,
    total: usize,
    Ghost(b): Ghost<Batch>,
) -> (res: Result<()>)
    requires
        old(cache).wf(),
        b.can_run(weights.layers@.len() as int, old(cache).blocks().layers() as int),
        b.ready(),
        b.cfg == weights.config,
        b.layers == Seq::new(num_layers as nat, |l: int| weights.layers@[l]@),
        b.positions == positions@,
        b.parts == parts@,
        b.total == total,
        b.tensors == old(cache).blocks().tensors(),
        b.cache == old(cache).model(),
    ensures
        final(cache).wf(),
        final(cache).blocks().same_blocks(&old(cache).blocks()),
        final(cache).next_handle() == old(cache).next_handle(),
        res is Ok ==> b.has_room(),
        exists|slices: Seq<LayerSlices>|
            all_fit(slices, b) && #[trigger] staged_outcome(
                b.stages(hidden@, s@, slices),
                b.caches(s@),
                b.limit(s@),
                old(cache).blocks().exhausted(),
                old(backend).trace(),
                final(backend).trace(),
                final(cache).model(),
                error_of(res),
            ),
{
    let cfg = weights.config;
    let ghost before = backend.trace();
    let ghost exhausted = cache.blocks().exhausted();
    let views = make_views(&cfg, s, total);
    if num_layers == 0 {
        proof {
            no_layers(b, hidden@, s@, exhausted, before);
        }
        return Ok(());
    }
    let r = run_batch_layer(
        backend,
        &cfg,
        &weights.layers[0],
        hidden,
        s,
        &views,
        positions,
        cache,
        parts,
        0,
        Ghost(b),
    );
    let ghost sl = choose|sl: LayerSlices|
        sl.fits(b) && #[trigger] staged_outcome(
            b.layer_stages(hidden@, s@, 0, sl),
            b.append(s@, 0).caches(),
            b.append(s@, 0).limit(),
            exhausted,
            before,
            backend.trace(),
            cache.model(),
            error_of(r),
        );
    match r {
        Ok(_) => {},
        Err(e) => {
            proof {
                first_layer_fails(
                    b,
                    hidden@,
                    s@,
                    sl,
                    exhausted,
                    before,
                    backend.trace(),
                    cache.model(),
                    e,
                );
            }
            return Err(e);
        },
    }
    let ghost at_first = backend.trace();
    let ghost mut slices: Seq<LayerSlices> = seq![sl];
    proof {
        layer_counts_in(
            b,
            hidden@,
            s@,
            0,
            sl,
            exhausted,
            before,
            at_first,
            cache.model(),
        );
        assert(at_first + b.later(hidden@, s@, slices, 1, 1) =~= at_first);
    }
    let mut l: usize = 1;
    while l < num_layers
        invariant
            before == old(backend).trace(),
            exhausted == old(cache).blocks().exhausted(),
            cfg == weights.config,
            1 <= l <= num_layers,
            num_layers <= weights.layers@.len(),
            num_layers <= cache.blocks().layers(),
            b.has_room(),
            b.ready(),
            b.cfg == weights.config,
            b.layers == Seq::new(num_layers as nat, |l: int| weights.layers@[l]@),
            b.positions == positions@,
            b.parts == parts@,
            b.total == total,
            b.tensors == old(cache).blocks().tensors(),
            views@ == b.views(s@),
            cache.wf(),
            cache.blocks().same_blocks(&old(cache).blocks()),
            cache.next_handle() == old(cache).next_handle(),
            cache.model() == b.grown(),
            slices.len() == l,
            forall|i: int| 0 <= i < slices.len() ==> (#[trigger] slices[i]).fits(b),
            staged_outcome(
                b.layer_stages(hidden@, s@, 0, slices[0]),
                b.append(s@, 0).caches(),
                b.append(s@, 0).limit(),
                exhausted,
                before,
                at_first,
                b.grown(),
                None,
            ),
            backend.trace() == at_first + b.later(hidden@, s@, slices, 1, l as int),
        decreases num_layers - l,
    {
        let ghost middle = backend.trace();
        let r = run_batch_layer(
            backend,
            &cfg,
            &weights.layers[l],
            hidden,
            s,
            &views,
            positions,
            cache,
            parts,
            l,
            Ghost(b),
        );
        let ghost sl = choose|sl: LayerSlices|
            sl.fits(b) && #[trigger] staged_outcome(
                b.layer_stages(hidden@, s@, l as int, sl),
                b.append(s@, l as int).caches(),
                b.append(s@, l as int).limit(),
                exhausted,
                middle,
                backend.trace(),
                cache.model(),
                error_of(r),
            );
        proof {
            later_layer_is_program(
                b,
                hidden@,
                s@,
                l as int,
                sl,
                exhausted,
                middle,
                backend.trace(),
                cache.model(),
                error_of(r),
            );
            later_layer_extends(
                b,
                hidden@,
                s@,
                slices,
                sl,
                exhausted,
                before,
                at_first,
                middle,
                backend.trace(),
                error_of(r),
            );
        }
        match r {
            Ok(_) => {},
            Err(e) => {
                return Err(e);
            },
        }
        proof {
            assert(slices.push(sl)[0] == slices[0]);
            slices = slices.push(sl);
        }
        l = l + 1;
    }
    proof {
        layers_done(
            b,
            hidden@,
            s@,
            slices,
            exhausted,
            before,
            at_first,
            backend.trace(),
        );
    }
    Ok(())
}

/// The events that compute and read the logits of one part, whose last token is
/// row `row` of the batch.
pub open spec fn part_row_events(
    normed: TensorInfo,
    lm_head: TensorInfo,
    row: usize,
    o: OutputInfo,
) -> Seq<DeviceEvent> {
    fetch_events(normed, row, o.last) + row_events(o.last, lm_head, o.logits, o.bytes) + all_done(
        frees(seq![o.last, o.logits]),
    )
}

impl Batch {
    /// The row of the last token up to the end of part `j`.
    pub open spec fn last_row(self, j: int) -> usize {
        (self.parts[j].offset + self.parts[j].n - 1) as usize
    }

    /// The events that compute and read the logits of each part.
    pub open spec fn output_rows(self, s: ScratchInfo, rows: Seq<OutputInfo>) -> Seq<
        Seq<DeviceEvent>,
    > {
        Seq::new(
            self.parts.len(),
            |j: int| part_row_events(s.normed, self.lm_head, self.last_row(j), rows[j]),
        )
    }

    /// The events after the last layer of the model: norm, the logits of each part,
    /// and the release of the tensors of the pass.
    pub open spec fn output_events(
        self,
        hidden: TensorInfo,
        owned: bool,
        s: ScratchInfo,
        rows: Seq<OutputInfo>,
    ) -> Seq<DeviceEvent> {
        seq![
            done(
                DeviceCall::Rmsnorm {
                    input: hidden,
                    weight: self.output_norm,
                    eps: self.cfg.rms_norm_eps,
                    out: s.normed,
                },
            ),
        ] + joined(self.output_rows(s, rows)) + self.release_events(hidden, owned, s)
    }

    /// The release of the tensors of the pass. The hidden state is released only
    /// where the pass owns it.
    pub open spec fn release_events(self, hidden: TensorInfo, owned: bool, s: ScratchInfo) -> Seq<
        DeviceEvent,
    > {
        all_done(
            seq![DeviceCall::Synchronize] + frees(
                (if owned {
                    seq![hidden]
                } else {
                    Seq::empty()
                }) + s.list(),
            ),
        )
    }

    /// Values of the right shapes and sizes for the output of each part.
    pub open spec fn rows_fit(self, rows: Seq<OutputInfo>) -> bool {
        &&& rows.len() == self.parts.len()
        &&& forall|j: int| 0 <= j < rows.len() ==> (#[trigger] rows[j]).fits(self.cfg)
    }
}

/// Computes and reads the logits of one part.
fn part_logits<B: Backend>(
    backend: &mut B,
    weights: &WeightStore,
    s: &Scratch,
    row: usize,
) -> (res: Result<Vec<Half>>)
    requires
        logits_fit(weights.config),
    ensures
        exists|o: OutputInfo|
            o.fits(weights.config) && (res matches Ok(l) ==> l@ == halves(o.bytes)) && #[trigger] ran(
                old(backend).trace(),
                final(backend).trace(),
                part_row_events(s@.normed, weights.lm_head@, row, o),
                error_of(res),
            ),
{
    let ghost before = backend.trace();
    let ghost blank = OutputInfo::blank(weights.config);
    let ghost normed = s@.normed;
    let ghost lm_head = weights.lm_head@;
    let r = fetch_row(backend, &s.normed, row, weights.config.hidden_size);
    let ghost lt = choose|last: TensorInfo|
        is_row(last, weights.config.hidden_size) && (r matches Ok(r) ==> r@ == last)
            && #[trigger] ran(
            before,
            backend.trace(),
            fetch_events(normed, row, last),
            error_of(r),
        );
    let ghost fetch = fetch_events(normed, row, lt);
    let ghost o1 = OutputInfo { last: lt, ..blank };
    proof {
        if let Some(e) = error_of(r) {
            let full = part_row_events(normed, lm_head, row, o1);
            ran_short(before, backend.trace(), fetch, full.skip(2), e);
            assert(fetch + full.skip(2) =~= full);
        }
    }
    let last = r?;
    let ghost middle = backend.trace();
    let r = row_logits(backend, weights, &last);
    let ghost (gt, bytes) = choose|logits: TensorInfo, bytes: Seq<u8>|
        is_logits(weights.config, logits, bytes) && (r matches Ok(r) ==> r.0@ == logits && r.1@
            == halves(bytes)) && #[trigger] ran(
            middle,
            backend.trace(),
            row_events(lt, lm_head, logits, bytes),
            error_of(r),
        );
    let ghost o = OutputInfo { logits: gt, bytes, ..o1 };
    let ghost full = part_row_events(normed, lm_head, row, o);
    let ghost events = row_events(lt, lm_head, gt, bytes);
    proof {
        ran_then(before, middle, backend.trace(), fetch, events, error_of(r));
        if let Some(e) = error_of(r) {
            ran_short(before, backend.trace(), fetch + events, full.skip(5), e);
            assert(fetch + events + full.skip(5) =~= full);
        }
    }
    let (logits_tensor, logits) = r?;
    let ghost at_free = backend.trace();
    let mut commands: Vec<DeviceCommand> = Vec::new();
    push_command(&mut commands, DeviceCommand::Free { tensor: &last });
    push_command(&mut commands, DeviceCommand::Free { tensor: &logits_tensor });
    let r = run_all(backend, commands.as_slice());
    proof {
        let release = all_done(calls_of(commands@));
        assert(calls_of(commands@) =~= frees(seq![lt, gt]));
        ran_then(before, at_free, backend.trace(), fetch + events, release, error_of(r));
        assert(ran(before, backend.trace(), full, error_of(r)));
    }
    match r {
        Ok(_) => Ok(logits),
        Err(e) => Err(e),
    }
}

/// Computes and reads the logits of every part.
fn all_logits<B: Backend>(
    backend: &mut B,
    weights: &WeightStore,
    s: &Scratch,
    parts: &Vec<Part>,
    Ghost(b): Ghost<Batch>,
) -> (res: Result<Vec<Vec<Half>>>)
    requires
        logits_fit(weights.config),
        b.cfg == weights.config,
        b.lm_head == weights.lm_head@,
        b.parts == parts@,
        parts_consecutive(parts@, b.total),
        parts@.len() > 0 ==> parts@[0].n > 0,
    ensures
        exists|rows: Seq<OutputInfo>|
            b.rows_fit(rows) && (res matches Ok(l) ==> l@.len() == rows.len() && (forall|j: int|
                0 <= j < rows.len() ==> (#[trigger] l@[j])@ == halves(rows[j].bytes)))
                && #[trigger] ran(
                old(backend).trace(),
                final(backend).trace(),
                joined(b.output_rows(s@, rows)),
                error_of(res),
            ),
{
    let ghost before = backend.trace();
    let ghost mut rows: Seq<OutputInfo> = Seq::empty();
    let ghost mut events: Seq<Seq<DeviceEvent>> = Seq::empty();
    let mut out: Vec<Vec<Half>> = Vec::new();
    let mut j: usize = 0;
    assert(before + joined(events) =~= before);
    while j < parts.len()
        invariant
            before == old(backend).trace(),
            logits_fit(weights.config),
            b.cfg == weights.config,
            b.lm_head == weights.lm_head@,
            b.parts == parts@,
            parts_consecutive(parts@, b.total),
            parts@.len() > 0 ==> parts@[0].n > 0,
            j <= parts@.len(),
            rows.len() == j,
            events.len() == j,
            out@.len() == j,
            forall|i: int| 0 <= i < j ==> (#[trigger] rows[i]).fits(b.cfg),
            forall|i: int| 0 <= i < j ==> (#[trigger] out@[i])@ == halves(rows[i].bytes),
            forall|i: int|
                0 <= i < j ==> #[trigger] events[i] == part_row_events(
                    s@.normed,
                    b.lm_head,
                    b.last_row(i),
                    rows[i],
                ),
            backend.trace() == before + joined(events),
        decreases parts@.len() - j,
    {
        let part = parts[j];
        let ghost middle = backend.trace();
        proof {
            offsets_bounded(parts@, b.total, j as int);
            ends_are_positive(parts@, b.total, j as int);
        }
        let r = part_logits(backend, weights, s, part.offset + part.n - 1);
        let ghost o = choose|o: OutputInfo|
            o.fits(weights.config) && (r matches Ok(l) ==> l@ == halves(o.bytes)) && #[trigger] ran(
                middle,
                backend.trace(),
                part_row_events(s@.normed, weights.lm_head@, b.last_row(j as int), o),
                error_of(r),
            );
        let ghost one = part_row_events(s@.normed, b.lm_head, b.last_row(j as int), o);
        let ghost next = events.push(one);
        proof {
            ran_then(before, middle, backend.trace(), joined(events), one, error_of(r));
            assert(next.drop_last() =~= events);
            if let Some(e) = error_of(r) {
                let rows2 = Seq::new(
                    parts@.len(),
                    |i: int|
                        if i < j {
                            rows[i]
                        } else {
                            o
                        },
                );
                let all = b.output_rows(s@, rows2);
                assert(all.take(j + 1) =~= next);
                joined_split(all, j + 1);
                ran_short(before, backend.trace(), joined(next), joined(all.skip(j + 1)), e);
                assert(b.rows_fit(rows2));
                assert(ran(before, backend.trace(), joined(all), Some(e)));
            }
        }
        match r {
            Ok(logits) => {
                out.push(logits);
            },
            Err(e) => {
                return Err(e);
            },
        }
        proof {
            rows = rows.push(o);
            events = next;
        }
        j = j + 1;
    }
    proof {
        assert(b.output_rows(s@, rows) =~= events);
        assert(b.rows_fit(rows));
        assert(ran(
            before,
            backend.trace(),
            joined(b.output_rows(s@, rows)),
            None::<FractureError>,
        ));
    }
    Ok(out)
}

/// Where the first part has a token, the end of every part lies behind one.
proof fn ends_are_positive(parts: Seq<Part>, total: usize, j: int)
    requires
        parts_consecutive(parts, total),
        0 <= j < parts.len(),
        parts[0].n > 0,
    ensures
        parts[j].offset + parts[j].n > 0,
    decreases j,
{
    if j > 0 {
        ends_are_positive(parts, total, j - 1);
        assert(part_closes(parts, total, j - 1));
    }
}

/// Waits for the device and releases the tensors of a pass.
pub(crate) fn release_batch<B: Backend>(
    backend: &mut B,
    hidden: &DeviceTensor,
    owned: bool,
    s: &Scratch,
    Ghost(b): Ghost<Batch>,
) -> (res: Result<()>)
    ensures
        ran(
            old(backend).trace(),
            final(backend).trace(),
            b.release_events(hidden@, owned, s@),
            error_of(res),
        ),
{
    let mut commands: Vec<DeviceCommand> = Vec::new();
    push_command(&mut commands, DeviceCommand::Synchronize);
    if owned {
        push_command(&mut commands, DeviceCommand::Free { tensor: hidden });
    }
    push_scratch_frees(&mut commands, s);
    assert(calls_of(commands@) =~= seq![DeviceCall::Synchronize] + frees(
        (if owned {
            seq![hidden@]
        } else {
            Seq::empty()
        }) + s@.list(),
    ));
    run_all(backend, commands.as_slice())
}

/// Runs the output phase of a batch.
pub(crate) fn produce_batch_logits<B: Backend>(
    backend: &mut B,
    weights: &WeightStore,
    hidden: &DeviceTensor,
    owned: bool,
    s: &Scratch,
    parts: &Vec<Part>,
    Ghost(b): Ghost<Batch>,
) -> (res: Result<Vec<Vec<Half>>>)
    requires
        logits_fit(weights.config),
        b.cfg == weights.config,
        b.output_norm == weights.output_norm@,
        b.lm_head == weights.lm_head@,
        b.parts == parts@,
        parts_consecutive(parts@, b.total),
        parts@.len() > 0 ==> parts@[0].n > 0,
    ensures
        exists|rows: Seq<OutputInfo>|
            b.rows_fit(rows) && (res matches Ok(l) ==> l@.len() == rows.len() && (forall|j: int|
                0 <= j < rows.len() ==> (#[trigger] l@[j])@ == halves(rows[j].bytes)))
                && #[trigger] ran(
                old(backend).trace(),
                final(backend).trace(),
                b.output_events(hidden@, owned, s@, rows),
                error_of(res),
            ),
{
    let ghost before = backend.trace();
    let mut commands: Vec<DeviceCommand> = Vec::new();
    push_command(
        &mut commands,
        DeviceCommand::Rmsnorm {
            input: hidden,
            weight: &weights.output_norm,
            eps: weights.config.rms_norm_eps,
            out: &s.normed,
        },
    );
    let r = run_all(backend, commands.as_slice());
    let ghost norm = all_done(calls_of(commands@));
    let ghost release = b.release_events(hidden@, owned, s@);
    proof {
        if let Some(e) = error_of(r) {
            let rows = Seq::new(parts@.len(), |j: int| OutputInfo::blank(b.cfg));
            let full = b.output_events(hidden@, owned, s@, rows);
            ran_short(before, backend.trace(), norm, full.skip(1), e);
            assert(norm + full.skip(1) =~= full);
            assert(b.rows_fit(rows));
        }
    }
    r?;
    let ghost middle = backend.trace();
    let r = all_logits(backend, weights, s, parts, Ghost(b));
    let ghost rows = choose|rows: Seq<OutputInfo>|
        b.rows_fit(rows) && (r matches Ok(l) ==> l@.len() == rows.len() && (forall|j: int|
            0 <= j < rows.len() ==> (#[trigger] l@[j])@ == halves(rows[j].bytes))) && #[trigger] ran(
            middle,
            backend.trace(),
            joined(b.output_rows(s@, rows)),
            error_of(r),
        );
    let ghost work = joined(b.output_rows(s@, rows));
    let ghost full = b.output_events(hidden@, owned, s@, rows);
    proof {
        ran_then(before, middle, backend.trace(), norm, work, error_of(r));
        assert(full =~= norm + work + release);
        if let Some(e) = error_of(r) {
            ran_short(before, backend.trace(), norm + work, release, e);
        }
    }
    let logits = r?;
    let ghost at_release = backend.trace();
    let r = release_batch(backend, hidden, owned, s, Ghost(b));
    proof {
        ran_then(before, at_release, backend.trace(), norm + work, release, error_of(r));
        assert(ran(before, backend.trace(), full, error_of(r)));
    }
    match r {
        Ok(_) => Ok(logits),
        Err(e) => Err(e),
    }
}

} // verus!

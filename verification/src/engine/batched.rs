//! Batched forward passes over a paged cache.
use crate::base::backend::{allocated, done, Backend, DeviceCall, DeviceEvent};
use crate::base::dtype::DType;
use crate::base::error::{FractureError, Result};
use crate::base::model_config::ModelConfig;
use crate::base::numeric::Half;
use crate::base::program::{
    all_allocated, all_done, calls_of, ended, error_of, joined, push_command, ran, ran_failed,
    ran_short, ran_then, run_all, shape2, DeviceCommand,
};
use crate::base::tensor::{DeviceTensor, TensorId, TensorInfo};
use crate::base::text::{decimal, numbered, push_decimal};
use crate::engine::batch_layers::{limit_bounds, Part};
use crate::engine::batch_pass::{
    all_fit, part_closes, parts_consecutive, produce_batch_logits, release_batch, run_batch_layers,
    Batch, BatchRun, LayerSlices,
};
use crate::engine::kv_cache::{is_invalid_handle, CacheHandle};
use crate::engine::logits::halves;
use crate::engine::node::{NodeConfig, NodeOutput, NodeOutputInfo};
use crate::engine::paged_kv_cache::{CacheModel, PagedKvCacheManager};
use crate::engine::staged::{
    joined_split, prefix_fails, prefix_outcome, prefixed, staged_outcome, suffix_fails,
    suffix_outcome, suffixed,
};
use crate::engine::transformer::{
    allocate_scratch, logits_fit, scratch_fits, OutputInfo, Scratch, ScratchInfo,
};
use crate::engine::weights::WeightStore;
use std::ops::Range;
use vstd::prelude::*;
use vstd::slice::slice_to_vec;
use vstd::string::StringExecFns;

verus! {

/// A single sequence's contribution to a batched forward pass.
#[derive(Debug)]
pub struct SequenceSlice {
    /// Cache handle for this sequence.
    pub handle: CacheHandle,
    /// Token IDs for this iteration.
    /// Prefill: full prompt (or chunk). Decode: single token.
    pub token_ids: Vec<u32>,
    /// Absolute positions.
    pub positions: Vec<u32>,
}

/// Output from a batched forward pass: the logits of each sequence's last token.
#[derive(Debug)]
pub struct BatchedOutput {
    /// One entry per sequence in the batch.
    pub logits: Vec<Vec<Half>>,
}

/// The token ids of each sequence.
pub open spec fn token_runs(seqs: Seq<SequenceSlice>) -> Seq<Seq<u32>> {
    seqs.map_values(|s: SequenceSlice| s.token_ids@)
}

/// The positions of each sequence.
pub open spec fn position_runs(seqs: Seq<SequenceSlice>) -> Seq<Seq<u32>> {
    seqs.map_values(|s: SequenceSlice| s.positions@)
}

/// The parts of a batch whose sequences have the tokens `runs`.
pub open spec fn parts_of(seqs: Seq<SequenceSlice>, runs: Seq<Seq<u32>>, m: CacheModel) -> Seq<
    Part,
> {
    Seq::new(
        seqs.len(),
        |j: int|
            Part {
                handle: seqs[j].handle,
                offset: joined(runs.take(j)).len() as usize,
                n: runs[j].len() as usize,
                start_pos: m.seqs[seqs[j].handle.0].len,
            },
    )
}

/// Every sequence is known to the cache.
pub open spec fn all_known(seqs: Seq<SequenceSlice>, m: CacheModel) -> bool {
    forall|j: int| 0 <= j < seqs.len() ==> m.seqs.contains_key((#[trigger] seqs[j]).handle.0)
}

/// The error that names the first sequence that the cache does not know.
pub open spec fn is_unknown(seqs: Seq<SequenceSlice>, m: CacheModel, e: FractureError) -> bool {
    exists|j: int|
        0 <= j < seqs.len() && !m.seqs.contains_key((#[trigger] seqs[j]).handle.0) && all_known(
            seqs.take(j),
            m,
        ) && is_invalid_handle(e, seqs[j].handle)
}

/// The batch of some sequences.
pub open spec fn batch_of(
    weights: WeightStore,
    num_layers: int,
    seqs: Seq<SequenceSlice>,
    runs: Seq<Seq<u32>>,
    m: CacheModel,
    tensors: Seq<Seq<TensorInfo>>,
) -> Batch {
    Batch {
        cfg: weights.config,
        layers: Seq::new(num_layers as nat, |l: int| weights.layers@[l]@),
        output_norm: weights.output_norm@,
        lm_head: weights.lm_head@,
        parts: parts_of(seqs, runs, m),
        total: joined(runs).len() as usize,
        positions: joined(position_runs(seqs)),
        tensors,
        cache: m,
    }
}

/// The events that look up the embeddings of all tokens.
pub open spec fn embed_events(weights: WeightStore, ids: Seq<u32>, hidden: TensorInfo) -> Seq<
    DeviceEvent,
> {
    seq![
        allocated(hidden),
        done(
            DeviceCall::Embedding {
                token_ids: ids,
                table: weights.token_embedding@,
                out: hidden,
            },
        ),
    ]
}

/// A hidden state for `n` tokens.
pub open spec fn is_hidden(t: TensorInfo, cfg: ModelConfig, n: usize) -> bool {
    t.shape == seq![n, cfg.hidden_size] && t.dtype == DType::FP16
}

impl BatchRun {
    /// The values have the shapes and sizes that the batch asks for.
    pub open spec fn fits(self, b: Batch) -> bool {
        &&& self.scratch.fits(b.cfg, b.total)
        &&& all_fit(self.slices, b)
        &&& b.rows_fit(self.rows)
    }

    /// How a batch ends whose hidden state `input` makes, and which `end` follows.
    pub open spec fn ends(
        self,
        b: Batch,
        input: Seq<DeviceEvent>,
        end: Seq<DeviceEvent>,
        exhausted: FractureError,
        before: Seq<DeviceEvent>,
        after: Seq<DeviceEvent>,
        cache: CacheModel,
        err: Option<FractureError>,
    ) -> bool {
        staged_outcome(
            suffixed(
                prefixed(
                    b.stages(self.hidden, self.scratch, self.slices),
                    input + all_allocated(self.scratch.list()),
                ),
                end,
            ),
            b.caches(self.scratch),
            b.limit(self.scratch),
            exhausted,
            before,
            after,
            cache,
            err,
        )
    }
}

/// Appends the elements of `s` to `v`.
fn extend(v: &mut Vec<u32>, s: &Vec<u32>)
    ensures
        final(v)@ == old(v)@ + s@,
{
    let mut more = slice_to_vec(s.as_slice());
    v.append(&mut more);
}

/// All token ids, one sequence after the other.
fn concat_tokens(seqs: &[SequenceSlice]) -> (res: Vec<u32>)
    ensures
        res@ == joined(token_runs(seqs@)),
{
    let mut all: Vec<u32> = Vec::new();
    let ghost runs = token_runs(seqs@);
    let mut i: usize = 0;
    assert(runs.take(0) =~= Seq::empty());
    while i < seqs.len()
        invariant
            i <= seqs@.len(),
            runs == token_runs(seqs@),
            all@ == joined(runs.take(i as int)),
        decreases seqs@.len() - i,
    {
        assert(runs.take(i + 1).drop_last() =~= runs.take(i as int));
        extend(&mut all, &seqs[i].token_ids);
        i = i + 1;
    }
    assert(runs.take(i as int) =~= runs);
    all
}

/// All positions, one sequence after the other.
fn concat_positions(seqs: &[SequenceSlice]) -> (res: Vec<u32>)
    ensures
        res@ == joined(position_runs(seqs@)),
{
    let mut all: Vec<u32> = Vec::new();
    let ghost runs = position_runs(seqs@);
    let mut i: usize = 0;
    assert(runs.take(0) =~= Seq::empty());
    while i < seqs.len()
        invariant
            i <= seqs@.len(),
            runs == position_runs(seqs@),
            all@ == joined(runs.take(i as int)),
        decreases seqs@.len() - i,
    {
        assert(runs.take(i + 1).drop_last() =~= runs.take(i as int));
        extend(&mut all, &seqs[i].positions);
        i = i + 1;
    }
    assert(runs.take(i as int) =~= runs);
    all
}

/// Rows up to `j` are no longer than all rows.
proof fn joined_monotone(runs: Seq<Seq<u32>>, j: int)
    requires
        0 <= j <= runs.len(),
    ensures
        joined(runs.take(j)).len() <= joined(runs).len(),
{
    joined_split(runs, j);
}

/// The parts of sequences follow each other and make up the batch.
proof fn parts_are_consecutive(seqs: Seq<SequenceSlice>, runs: Seq<Seq<u32>>, m: CacheModel)
    requires
        runs.len() == seqs.len(),
        joined(runs).len() <= usize::MAX,
    ensures
        parts_consecutive(parts_of(seqs, runs, m), joined(runs).len() as usize),
{
    let parts = parts_of(seqs, runs, m);
    let total = joined(runs).len() as usize;
    assert(runs.take(0) =~= Seq::empty());
    assert forall|j: int| 0 <= j < parts.len() implies #[trigger] part_closes(parts, total, j) by {
        joined_monotone(runs, j);
        joined_monotone(runs, j + 1);
        assert(runs.take(j + 1).drop_last() =~= runs.take(j));
        assert(joined(runs.take(j + 1)).len() == joined(runs.take(j)).len() + runs[j].len());
        assert(runs.take(runs.len() as int) =~= runs);
    }
}

/// Finds the parts of a batch, by token ids or by positions. An unknown sequence is an error.
fn make_parts(
    seqs: &[SequenceSlice],
    by_positions: bool,
    cache: &PagedKvCacheManager,
    total: usize,
    Ghost(runs): Ghost<Seq<Seq<u32>>>,
) -> (res: Result<Vec<Part>>)
    requires
        runs == if by_positions {
            position_runs(seqs@)
        } else {
            token_runs(seqs@)
        },
        joined(runs).len() == total,
    ensures
        res is Ok <==> all_known(seqs@, cache.model()),
        res matches Ok(v) ==> v@ == parts_of(seqs@, runs, cache.model()),
        res matches Err(e) ==> is_unknown(seqs@, cache.model(), e),
{
    let ghost m = cache.model();
    let mut parts: Vec<Part> = Vec::new();
    let mut offset: usize = 0;
    let mut i: usize = 0;
    assert(runs.take(0) =~= Seq::empty());
    while i < seqs.len()
        invariant
            i <= seqs@.len(),
            m == cache.model(),
            runs == if by_positions {
                position_runs(seqs@)
            } else {
                token_runs(seqs@)
            },
            joined(runs).len() == total,
            offset == joined(runs.take(i as int)).len(),
            all_known(seqs@.take(i as int), m),
            parts@ =~= parts_of(seqs@, runs, m).take(i as int),
        decreases seqs@.len() - i,
    {
        let handle = seqs[i].handle;
        match cache.seq_len(handle) {
            Ok(start_pos) => {
                let n: usize = if by_positions {
                    seqs[i].positions.len()
                } else {
                    seqs[i].token_ids.len()
                };
                proof {
                    joined_monotone(runs, i + 1);
                    assert(runs.take(i + 1).drop_last() =~= runs.take(i as int));
                    assert(seqs@.take(i + 1) =~= seqs@.take(i as int).push(seqs@[i as int]));
                    assert(all_known(seqs@.take(i + 1), m)) by {
                        assert forall|j: int| 0 <= j < i + 1 implies m.seqs.contains_key(
                            (#[trigger] seqs@.take(i + 1)[j]).handle.0,
                        ) by {
                            if j < i {
                                assert(seqs@.take(i as int)[j] == seqs@[j]);
                            }
                        }
                    }
                }
                parts.push(Part { handle, offset, n, start_pos });
                offset = offset + n;
            },
            Err(e) => {
                assert(!m.seqs.contains_key(seqs@[i as int].handle.0));
                return Err(e);
            },
        }
        i = i + 1;
    }
    assert(seqs@.take(i as int) =~= seqs@);
    assert(parts_of(seqs@, runs, m).take(i as int) =~= parts_of(seqs@, runs, m));
    Ok(parts)
}

/// Looks up the embeddings of all tokens.
fn embed<B: Backend>(backend: &mut B, weights: &WeightStore, ids: &Vec<u32>) -> (res: Result<
    DeviceTensor,
>)
    ensures
        exists|hidden: TensorInfo|
            is_hidden(hidden, weights.config, ids@.len() as usize) && (res matches Ok(t) ==> t@
                == hidden) && #[trigger] ran(
                old(backend).trace(),
                final(backend).trace(),
                embed_events(*weights, ids@, hidden),
                error_of(res),
            ),
{
    let ghost before = backend.trace();
    let n: usize = ids.len();
    let shape = shape2(n, weights.config.hidden_size);
    let ghost blank = TensorInfo { id: TensorId(0), shape: shape@, dtype: DType::FP16 };
    let hidden = match backend.allocate(shape.as_slice(), DType::FP16) {
        Ok(t) => t,
        Err(e) => {
            proof {
                ran_failed(before, embed_events(*weights, ids@, blank), e);
            }
            return Err(e);
        },
    };
    let ghost full = embed_events(*weights, ids@, hidden@);
    assert(backend.trace() =~= before + full.take(1));
    let ghost middle = backend.trace();
    let mut commands: Vec<DeviceCommand> = Vec::new();
    push_command(
        &mut commands,
        DeviceCommand::Embedding {
            token_ids: ids.as_slice(),
            table: &weights.token_embedding,
            out: &hidden,
        },
    );
    let r = run_all(backend, commands.as_slice());
    proof {
        let lookup = all_done(calls_of(commands@));
        ran_then(before, middle, backend.trace(), full.take(1), lookup, error_of(r));
        assert(full.take(1) + lookup =~= full);
    }
    match r {
        Ok(_) => Ok(hidden),
        Err(e) => Err(e),
    }
}

/// Some values for what a batch does not reach.
pub open spec fn blank_run(b: Batch, hidden: TensorInfo) -> BatchRun {
    BatchRun {
        hidden,
        scratch: ScratchInfo::blank(b.cfg, b.total),
        slices: Seq::new(b.layers.len(), |l: int| LayerSlices::blank(b)),
        rows: Seq::new(b.parts.len(), |j: int| OutputInfo::blank(b.cfg)),
    }
}

/// Those values have the right shapes and sizes.
proof fn blank_run_fits(b: Batch, hidden: TensorInfo)
    ensures
        blank_run(b, hidden).fits(b),
{
    let run = blank_run(b, hidden);
    assert(LayerSlices::blank(b).fits(b));
    assert(run.scratch.list() =~= crate::engine::transformer::scratch_shapes(
        b.cfg,
        b.total,
    ).map_values(
        |shape: Seq<usize>| TensorInfo { id: TensorId(0), shape, dtype: DType::FP16 },
    ));
}

/// The numbers of stages match.
proof fn stage_counts(b: Batch, run: BatchRun)
    ensures
        0 < b.limit(run.scratch) <= b.stages(run.hidden, run.scratch, run.slices).len(),
        b.caches(run.scratch).len() == b.stages(run.hidden, run.scratch, run.slices).len(),
        b.caches(run.scratch)[0] == b.cache,
{
    if b.layers.len() > 0 {
        let a = b.append(run.scratch, 0);
        limit_bounds(a);
        assert(a.caches()[0] == a.after(0));
    }
}

/// A device failure before the layers ends the batch.
proof fn input_fails(
    b: Batch,
    run: BatchRun,
    input: Seq<DeviceEvent>,
    end: Seq<DeviceEvent>,
    exhausted: FractureError,
    before: Seq<DeviceEvent>,
    after: Seq<DeviceEvent>,
    e: FractureError,
)
    requires
        ran(before, after, input, Some(e)) || ran(
            before,
            after,
            input + all_allocated(run.scratch.list()),
            Some(e),
        ),
    ensures
        run.ends(b, input, end, exhausted, before, after, b.cache, Some(e)),
{
    stage_counts(b, run);
    let prefix = input + all_allocated(run.scratch.list());
    if ran(before, after, input, Some(e)) {
        ran_short(before, after, input, all_allocated(run.scratch.list()), e);
    }
    let stages = b.stages(run.hidden, run.scratch, run.slices);
    prefix_fails(
        stages,
        b.caches(run.scratch),
        b.limit(run.scratch),
        exhausted,
        prefix,
        before,
        after,
        e,
    );
    suffix_fails(
        prefixed(stages, prefix),
        b.caches(run.scratch),
        b.limit(run.scratch),
        exhausted,
        end,
        before,
        after,
        b.cache,
        e,
    );
}

/// Scratch tensors and layers of a batch, after its hidden state was made.
fn run_batch<B: Backend>(
    backend: &mut B,
    weights: &WeightStore,
    num_layers: usize,
    hidden: &DeviceTensor,
    positions: &Vec<u32>,
    cache: &mut PagedKvCacheManager,
    parts: &Vec<Part>,
    total: usize,
    Ghost(b): Ghost<Batch>,
    Ghost(input): Ghost<Seq<DeviceEvent>>,
    Ghost(before): Ghost<Seq<DeviceEvent>>,
) -> (res: Result<Scratch>)
    requires
        scratch_fits(weights.config),
        old(cache).wf(),
        b.can_run(weights.layers@.len() as int, old(cache).blocks().layers() as int),
        b.ready(),
        b.cfg == weights.config,
        b.layers == Seq::new(num_layers as nat, |l: int| weights.layers@[l]@),
        b.positions == positions@,
        b.parts == parts@,
        b.total == total,
        b.tensors == old(cache).blocks().tensors(),
        b.cache == old(cache).model(),
        ran(before, old(backend).trace(), input, None),
    ensures
        final(cache).wf(),
        final(cache).blocks().same_blocks(&old(cache).blocks()),
        final(cache).next_handle() == old(cache).next_handle(),
        res is Ok ==> b.has_room(),
        exists|run: BatchRun|
            run.hidden == hidden@ && run.fits(b) && (res matches Ok(s) ==> s@ == run.scratch)
                && #[trigger] staged_outcome(
                prefixed(
                    b.stages(run.hidden, run.scratch, run.slices),
                    input + all_allocated(run.scratch.list()),
                ),
                b.caches(run.scratch),
                b.limit(run.scratch),
                old(cache).blocks().exhausted(),
                before,
                final(backend).trace(),
                final(cache).model(),
                error_of(res),
            ),
{
    let ghost exhausted = cache.blocks().exhausted();
    let ghost start = backend.trace();
    let cfg = weights.config;
    let ghost run0 = blank_run(b, hidden@);
    let r = allocate_scratch(backend, &cfg, total);
    let ghost scratch = choose|s: ScratchInfo|
        s.fits(cfg, total) && (r matches Ok(t) ==> t@ == s) && #[trigger] ran(
            start,
            backend.trace(),
            all_allocated(s.list()),
            error_of(r),
        );
    let ghost run1 = BatchRun { scratch, ..run0 };
    let ghost prefix = input + all_allocated(scratch.list());
    proof {
        blank_run_fits(b, hidden@);
        ran_then(before, start, backend.trace(), input, all_allocated(scratch.list()), error_of(r));
        stage_counts(b, run1);
        if let Some(e) = error_of(r) {
            prefix_fails(
                b.stages(run1.hidden, run1.scratch, run1.slices),
                b.caches(scratch),
                b.limit(scratch),
                exhausted,
                prefix,
                before,
                backend.trace(),
                e,
            );
            assert(run1.fits(b));
        }
    }
    let s = match r {
        Ok(s) => s,
        Err(e) => {
            return Err(e);
        },
    };
    let ghost middle = backend.trace();
    let r = run_batch_layers(
        backend,
        weights,
        num_layers,
        hidden,
        &s,
        positions,
        cache,
        parts,
        total,
        Ghost(b),
    );
    let ghost slices = choose|slices: Seq<LayerSlices>|
        all_fit(slices, b) && #[trigger] staged_outcome(
            b.stages(hidden@, s@, slices),
            b.caches(s@),
            b.limit(s@),
            exhausted,
            middle,
            backend.trace(),
            cache.model(),
            error_of(r),
        );
    let ghost run2 = BatchRun { slices, ..run1 };
    proof {
        stage_counts(b, run2);
        prefix_outcome(
            b.stages(hidden@, s@, slices),
            b.caches(s@),
            b.limit(s@),
            exhausted,
            prefix,
            before,
            backend.trace(),
            cache.model(),
            error_of(r),
        );
        assert(run2.fits(b));
        assert(staged_outcome(
            prefixed(b.stages(run2.hidden, run2.scratch, run2.slices), prefix),
            b.caches(run2.scratch),
            b.limit(run2.scratch),
            exhausted,
            before,
            backend.trace(),
            cache.model(),
            error_of(r),
        ));
    }
    match r {
        Ok(_) => Ok(s),
        Err(e) => Err(e),
    }
}

/// The logits that were read for each part.
pub open spec fn are_logits(logits: Seq<Vec<Half>>, rows: Seq<OutputInfo>) -> bool {
    &&& logits.len() == rows.len()
    &&& forall|j: int| 0 <= j < rows.len() ==> (#[trigger] logits[j])@ == halves(rows[j].bytes)
}

/// How a batched pass through the full model ends.
///
/// Without sequences nothing happens, and an unknown sequence is refused at once.
/// Else the tokens are embedded, the layers run, and the logits of each sequence's
/// last token are read.
pub open spec fn batched_end(
    weights: WeightStore,
    num_layers: int,
    seqs: Seq<SequenceSlice>,
    tensors: Seq<Seq<TensorInfo>>,
    exhausted: FractureError,
    m: CacheModel,
    before: Seq<DeviceEvent>,
    cache: CacheModel,
    after: Seq<DeviceEvent>,
    res: Result<BatchedOutput>,
) -> bool {
    let b = batch_of(weights, num_layers, seqs, token_runs(seqs), m, tensors);
    if seqs.len() == 0 {
        &&& res matches Ok(out) && out.logits@.len() == 0
        &&& cache == m
        &&& after == before
    } else if !all_known(seqs, m) {
        &&& res matches Err(e) && is_unknown(seqs, m, e)
        &&& cache == m
        &&& after == before
    } else {
        exists|run: BatchRun|
            is_hidden(run.hidden, b.cfg, b.total) && run.fits(b) && (res matches Ok(out) ==> are_logits(
                out.logits@,
                run.rows,
            )) && #[trigger] run.ends(
                b,
                embed_events(weights, joined(token_runs(seqs)), run.hidden),
                b.output_events(run.hidden, true, run.scratch, run.rows),
                exhausted,
                before,
                after,
                cache,
                error_of(res),
            )
    }
}

/// The layers in a range.
pub open spec fn range_len(range: Range<usize>) -> int {
    if range.start <= range.end {
        range.end - range.start
    } else {
        0
    }
}

/// Every sequence that the cache knows can take `n` more tokens into its counters.
pub open spec fn can_count(seqs: Seq<SequenceSlice>, m: CacheModel, n: int) -> bool {
    forall|j: int|
        0 <= j < seqs.len() && m.seqs.contains_key((#[trigger] seqs[j]).handle.0) ==> m.seqs[
            seqs[j].handle.0
        ].len + n <= usize::MAX
}

/// Sequences that are known and can be counted make a batch that is ready.
proof fn batch_is_ready(
    weights: WeightStore,
    num_layers: int,
    seqs: Seq<SequenceSlice>,
    runs: Seq<Seq<u32>>,
    m: CacheModel,
    tensors: Seq<Seq<TensorInfo>>,
)
    requires
        runs.len() == seqs.len(),
        joined(runs).len() <= usize::MAX,
        all_known(seqs, m),
        can_count(seqs, m, joined(runs).len() as int),
    ensures
        batch_of(weights, num_layers, seqs, runs, m, tensors).ready(),
{
    let b = batch_of(weights, num_layers, seqs, runs, m, tensors);
    parts_are_consecutive(seqs, runs, m);
    assert forall|j: int| 0 <= j < b.parts.len() implies b.cache.seqs.contains_key(
        (#[trigger] b.parts[j]).handle.0,
    ) && b.cache.seqs[b.parts[j].handle.0].len + b.total <= usize::MAX && b.parts[j].start_pos
        == b.cache.seqs[b.parts[j].handle.0].len by {
        assert(seqs[j].handle == b.parts[j].handle);
    }
}

/// Scratch tensors, layers and logits of a batch, after its hidden state was made.
fn run_full_batch<B: Backend>(
    backend: &mut B,
    weights: &WeightStore,
    num_layers: usize,
    hidden_state: &DeviceTensor,
    positions: &Vec<u32>,
    cache: &mut PagedKvCacheManager,
    parts: &Vec<Part>,
    total: usize,
    Ghost(b): Ghost<Batch>,
    Ghost(input): Ghost<Seq<DeviceEvent>>,
    Ghost(before): Ghost<Seq<DeviceEvent>>,
) -> (res: Result<BatchedOutput>)
    requires
        scratch_fits(weights.config),
        old(cache).wf(),
        b.can_run(weights.layers@.len() as int, old(cache).blocks().layers() as int),
        b.has_room() ==> logits_fit(weights.config) && (parts@.len() > 0 ==> parts@[0].n > 0),
        b.ready(),
        b.cfg == weights.config,
        b.layers == Seq::new(num_layers as nat, |l: int| weights.layers@[l]@),
        b.output_norm == weights.output_norm@,
        b.lm_head == weights.lm_head@,
        b.positions == positions@,
        b.parts == parts@,
        b.total == total,
        b.tensors == old(cache).blocks().tensors(),
        b.cache == old(cache).model(),
        ran(before, old(backend).trace(), input, None),
    ensures
        final(cache).wf(),
        final(cache).blocks().same_blocks(&old(cache).blocks()),
        final(cache).next_handle() == old(cache).next_handle(),
        exists|run: BatchRun|
            run.hidden == hidden_state@ && run.fits(b) && (res matches Ok(out) ==> are_logits(
                out.logits@,
                run.rows,
            )) && #[trigger] run.ends(
                b,
                input,
                b.output_events(run.hidden, true, run.scratch, run.rows),
                old(cache).blocks().exhausted(),
                before,
                final(backend).trace(),
                final(cache).model(),
                error_of(res),
            ),
{
    let ghost exhausted = cache.blocks().exhausted();
    let ghost hidden = hidden_state@;
    let r = run_batch(
        backend,
        weights,
        num_layers,
        hidden_state,
        positions,
        cache,
        parts,
        total,
        Ghost(b),
        Ghost(input),
        Ghost(before),
    );
    let ghost run = choose|run: BatchRun|
        run.hidden == hidden && run.fits(b) && (r matches Ok(s) ==> s@ == run.scratch)
            && #[trigger] staged_outcome(
            prefixed(
                b.stages(run.hidden, run.scratch, run.slices),
                input + all_allocated(run.scratch.list()),
            ),
            b.caches(run.scratch),
            b.limit(run.scratch),
            exhausted,
            before,
            backend.trace(),
            cache.model(),
            error_of(r),
        );
    let ghost stages = prefixed(
        b.stages(run.hidden, run.scratch, run.slices),
        input + all_allocated(run.scratch.list()),
    );
    proof {
        stage_counts(b, run);
        if let Some(e) = error_of(r) {
            suffix_fails(
                stages,
                b.caches(run.scratch),
                b.limit(run.scratch),
                exhausted,
                b.output_events(hidden, true, run.scratch, run.rows),
                before,
                backend.trace(),
                cache.model(),
                e,
            );
            assert(run.ends(
                b,
                input,
                b.output_events(run.hidden, true, run.scratch, run.rows),
                exhausted,
                before,
                backend.trace(),
                cache.model(),
                Some(e),
            ));
        }
    }
    let s = match r {
        Ok(s) => s,
        Err(e) => {
            return Err(e);
        },
    };
    let ghost middle = backend.trace();
    let r = produce_batch_logits(backend, weights, hidden_state, true, &s, parts, Ghost(b));
    proof {
        let rows = choose|rows: Seq<OutputInfo>|
            b.rows_fit(rows) && (r matches Ok(l) ==> l@.len() == rows.len() && (forall|j: int|
                0 <= j < rows.len() ==> (#[trigger] l@[j])@ == halves(rows[j].bytes)))
                && #[trigger] ran(
                middle,
                backend.trace(),
                b.output_events(hidden, true, s@, rows),
                error_of(r),
            );
        let run2 = BatchRun { rows, ..run };
        suffix_outcome(
            stages,
            b.caches(run.scratch),
            b.limit(run.scratch),
            exhausted,
            b.output_events(hidden, true, s@, rows),
            before,
            middle,
            backend.trace(),
            cache.model(),
            error_of(r),
        );
        assert(run2.fits(b));
        assert(run2.ends(
            b,
            input,
            b.output_events(run2.hidden, true, run2.scratch, run2.rows),
            exhausted,
            before,
            backend.trace(),
            cache.model(),
            error_of(r),
        ));
    }
    match r {
        Ok(logits) => Ok(BatchedOutput { logits }),
        Err(e) => Err(e),
    }
}

/// A batched pass through the full model can compute and read what it gets to: the sizes
/// fit in `usize`, and there are weights and a cache for each layer.
pub open spec fn batch_can_run(
    weights: WeightStore,
    num_layers: int,
    seqs: Seq<SequenceSlice>,
    m: CacheModel,
    tensors: Seq<Seq<TensorInfo>>,
    cached_layers: int,
) -> bool {
    let b = batch_of(weights, num_layers, seqs, token_runs(seqs), m, tensors);
    seqs.len() > 0 && all_known(seqs, m) ==> {
        &&& scratch_fits(weights.config)
        &&& can_count(seqs, m, joined(token_runs(seqs)).len() as int)
        &&& b.can_run(weights.layers@.len() as int, cached_layers)
        &&& b.has_room() ==> logits_fit(weights.config) && seqs[0].token_ids@.len() > 0
    }
}

/// A device failure while the tokens are embedded ends the batch.
proof fn embedding_fails(
    weights: WeightStore,
    num_layers: int,
    seqs: Seq<SequenceSlice>,
    tensors: Seq<Seq<TensorInfo>>,
    exhausted: FractureError,
    m: CacheModel,
    hidden: TensorInfo,
    before: Seq<DeviceEvent>,
    after: Seq<DeviceEvent>,
    e: FractureError,
)
    requires
        seqs.len() > 0,
        all_known(seqs, m),
        is_hidden(hidden, weights.config, joined(token_runs(seqs)).len() as usize),
        ran(before, after, embed_events(weights, joined(token_runs(seqs)), hidden), Some(e)),
    ensures
        batched_end(
            weights,
            num_layers,
            seqs,
            tensors,
            exhausted,
            m,
            before,
            m,
            after,
            Err(e),
        ),
{
    let b = batch_of(weights, num_layers, seqs, token_runs(seqs), m, tensors);
    let events = embed_events(weights, joined(token_runs(seqs)), hidden);
    let run = blank_run(b, hidden);
    blank_run_fits(b, hidden);
    input_fails(
        b,
        run,
        events,
        b.output_events(hidden, true, run.scratch, run.rows),
        exhausted,
        before,
        after,
        e,
    );
    let res: Result<BatchedOutput> = Err(e);
    assert(run.ends(
        b,
        embed_events(weights, joined(token_runs(seqs)), run.hidden),
        b.output_events(run.hidden, true, run.scratch, run.rows),
        exhausted,
        before,
        after,
        m,
        error_of(res),
    ));
}

/// A batch that ran ends as its stages do.
proof fn batch_ran(
    weights: WeightStore,
    num_layers: int,
    seqs: Seq<SequenceSlice>,
    tensors: Seq<Seq<TensorInfo>>,
    exhausted: FractureError,
    m: CacheModel,
    run: BatchRun,
    before: Seq<DeviceEvent>,
    cache: CacheModel,
    after: Seq<DeviceEvent>,
    res: Result<BatchedOutput>,
)
    requires
        seqs.len() > 0,
        all_known(seqs, m),
        ({
            let b = batch_of(weights, num_layers, seqs, token_runs(seqs), m, tensors);
            &&& is_hidden(run.hidden, b.cfg, b.total)
            &&& run.fits(b)
            &&& res matches Ok(out) ==> are_logits(out.logits@, run.rows)
            &&& run.ends(
                b,
                embed_events(weights, joined(token_runs(seqs)), run.hidden),
                b.output_events(run.hidden, true, run.scratch, run.rows),
                exhausted,
                before,
                after,
                cache,
                error_of(res),
            )
        }),
    ensures
        batched_end(
            weights,
            num_layers,
            seqs,
            tensors,
            exhausted,
            m,
            before,
            cache,
            after,
            res,
        ),
{
}

/// Run a batched forward pass through the full model.
///
/// All sequences share the same weights but have independent block tables. Work per
/// token runs on one tensor of all tokens; attention runs per sequence.
#[verifier::rlimit(30)]
pub fn batched_forward<B: Backend>(
    backend: &mut B,
    weights: &WeightStore,
    layer_range: &Range<usize>,
    cache: &mut PagedKvCacheManager,
    sequences: &[SequenceSlice],
) -> (res: Result<BatchedOutput>)
    requires
        old(cache).wf(),
        batch_can_run(
            *weights,
            range_len(*layer_range),
            sequences@,
            old(cache).model(),
            old(cache).blocks().tensors(),
            old(cache).blocks().layers() as int,
        ),
    ensures
        final(cache).wf(),
        final(cache).blocks().same_blocks(&old(cache).blocks()),
        final(cache).next_handle() == old(cache).next_handle(),
        batched_end(
            *weights,
            range_len(*layer_range),
            sequences@,
            old(cache).blocks().tensors(),
            old(cache).blocks().exhausted(),
            old(cache).model(),
            old(backend).trace(),
            final(cache).model(),
            final(backend).trace(),
            res,
        ),
{
    if sequences.len() == 0 {
        return Ok(BatchedOutput { logits: Vec::new() });
    }
    let ghost before = backend.trace();
    let ghost m = cache.model();
    let ghost tensors = cache.blocks().tensors();
    let ghost exhausted = cache.blocks().exhausted();
    let ghost runs = token_runs(sequences@);
    let num_layers: usize = if layer_range.start <= layer_range.end {
        layer_range.end - layer_range.start
    } else {
        0
    };
    let token_ids = concat_tokens(sequences);
    let positions = concat_positions(sequences);
    let total: usize = token_ids.len();
    let parts = match make_parts(sequences, false, cache, total, Ghost(runs)) {
        Ok(parts) => parts,
        Err(e) => {
            return Err(e);
        },
    };
    let ghost b = batch_of(*weights, num_layers as int, sequences@, runs, m, tensors);
    proof {
        batch_is_ready(*weights, num_layers as int, sequences@, runs, m, tensors);
    }
    let r = embed(backend, weights, &token_ids);
    let ghost hidden = choose|hidden: TensorInfo|
        is_hidden(hidden, weights.config, total) && (r matches Ok(t) ==> t@ == hidden)
            && #[trigger] ran(
            before,
            backend.trace(),
            embed_events(*weights, token_ids@, hidden),
            error_of(r),
        );
    let ghost input = embed_events(*weights, token_ids@, hidden);
    let hidden_state = match r {
        Ok(t) => t,
        Err(e) => {
            proof {
                embedding_fails(
                    *weights,
                    num_layers as int,
                    sequences@,
                    tensors,
                    exhausted,
                    m,
                    hidden,
                    before,
                    backend.trace(),
                    e,
                );
            }
            return Err(e);
        },
    };
    let first_len: usize = sequences[0].token_ids.len();
    assert(runs[0].len() == first_len);
    let res = run_full_batch(
        backend,
        weights,
        num_layers,
        &hidden_state,
        &positions,
        cache,
        &parts,
        total,
        Ghost(b),
        Ghost(input),
        Ghost(before),
    );
    proof {
        let run = choose|run: BatchRun|
            run.hidden == hidden && run.fits(b) && (res matches Ok(out) ==> are_logits(
                out.logits@,
                run.rows,
            )) && #[trigger] run.ends(
                b,
                input,
                b.output_events(run.hidden, true, run.scratch, run.rows),
                exhausted,
                before,
                backend.trace(),
                cache.model(),
                error_of(res),
            );
        batch_ran(
            *weights,
            num_layers as int,
            sequences@,
            tensors,
            exhausted,
            m,
            run,
            before,
            cache.model(),
            backend.trace(),
            res,
        );
    }
    res
}

/// Why a node refuses a batch before anything is asked of the device.
pub open spec fn node_refusal(
    weights: WeightStore,
    node: NodeConfig,
    seqs: Seq<SequenceSlice>,
    input: Option<TensorInfo>,
    e: FractureError,
) -> bool {
    let tokens = joined(token_runs(seqs)).len();
    let total = joined(position_runs(seqs)).len();
    if seqs.len() == 0 {
        e.is_pipeline("batched_forward_node: no sequences"@)
    } else if node.head() {
        if input is Some {
            e.is_pipeline("head node received activations in batched_forward_node"@)
        } else {
            e.is_invalid_shape(
                "token count mismatch: "@ + decimal(tokens) + " token_ids vs "@ + decimal(total)
                    + " positions"@,
            )
        }
    } else {
        match input {
            None => e.is_pipeline("non-head node requires activations in batched_forward_node"@),
            Some(t) => e.is_invalid_shape(
                "activation shape ["@ + decimal(t.shape[0] as nat) + ", "@ + decimal(
                    t.shape[1] as nat,
                ) + "] doesn't match expected ["@ + decimal(total) + ", "@ + decimal(
                    weights.config.hidden_size as nat,
                ) + "]"@,
            ),
        }
    }
}

/// The node takes the batch: there are sequences, and the input is of the kind and
/// shape that the node takes.
pub open spec fn node_accepts(
    weights: WeightStore,
    node: NodeConfig,
    seqs: Seq<SequenceSlice>,
    input: Option<TensorInfo>,
) -> bool {
    let total = joined(position_runs(seqs)).len();
    &&& seqs.len() > 0
    &&& node.head() ==> input is None && joined(token_runs(seqs)).len() == total
    &&& !node.head() ==> (input matches Some(t) && t.shape[0] == total && t.shape[1]
        == weights.config.hidden_size)
}

/// The events that make the hidden state of a node.
pub open spec fn node_input_events(
    weights: WeightStore,
    node: NodeConfig,
    seqs: Seq<SequenceSlice>,
    hidden: TensorInfo,
) -> Seq<DeviceEvent> {
    if node.head() {
        embed_events(weights, joined(token_runs(seqs)), hidden)
    } else {
        Seq::empty()
    }
}

/// `hidden` can be the hidden state of a node: a tensor of its own, or the input.
pub open spec fn node_can_hide(
    b: Batch,
    node: NodeConfig,
    input: Option<TensorInfo>,
    hidden: TensorInfo,
) -> bool {
    if node.head() {
        is_hidden(hidden, b.cfg, b.total)
    } else {
        input == Some(hidden)
    }
}

/// The events after the last layer of a node.
pub open spec fn node_end_events(b: Batch, node: NodeConfig, run: BatchRun) -> Seq<DeviceEvent> {
    if node.tail() {
        b.output_events(run.hidden, node.head(), run.scratch, run.rows)
    } else {
        b.release_events(run.hidden, false, run.scratch)
    }
}

/// The output of a node: the logits of all parts, one after the other, or the hidden
/// state.
pub open spec fn node_output(node: NodeConfig, run: BatchRun) -> NodeOutputInfo {
    if node.tail() {
        NodeOutputInfo::Logits(
            joined(run.rows.map_values(|o: OutputInfo| halves(o.bytes))),
        )
    } else {
        NodeOutputInfo::Activations(run.hidden)
    }
}

/// How a batched pass of a pipeline node ends.
///
/// An input that the node does not take is refused at once; an unknown sequence is
/// found after the tokens were embedded.
pub open spec fn batched_node_end(
    weights: WeightStore,
    node: NodeConfig,
    seqs: Seq<SequenceSlice>,
    input: Option<TensorInfo>,
    tensors: Seq<Seq<TensorInfo>>,
    exhausted: FractureError,
    m: CacheModel,
    before: Seq<DeviceEvent>,
    cache: CacheModel,
    after: Seq<DeviceEvent>,
    res: Result<NodeOutput>,
) -> bool {
    let b = batch_of(
        weights,
        range_len(node.layer_range),
        seqs,
        position_runs(seqs),
        m,
        tensors,
    );
    if !node_accepts(weights, node, seqs, input) {
        &&& res matches Err(e) && node_refusal(weights, node, seqs, input, e)
        &&& cache == m
        &&& after == before
    } else if !all_known(seqs, m) {
        &&& cache == m
        &&& res is Err
        &&& exists|hidden: TensorInfo|
            node_can_hide(b, node, input, hidden) && #[trigger] ended(
                before,
                after,
                node_input_events(weights, node, seqs, hidden),
                res->Err_0,
                is_unknown(seqs, m, res->Err_0),
            )
    } else {
        exists|run: BatchRun|
            node_can_hide(b, node, input, run.hidden) && run.fits(b) && (res matches Ok(out) ==> out@
                == node_output(node, run)) && #[trigger] run.ends(
                b,
                node_input_events(weights, node, seqs, run.hidden),
                node_end_events(b, node, run),
                exhausted,
                before,
                after,
                cache,
                error_of(res),
            )
    }
}

/// All rows, one after the other.
fn flatten(rows: Vec<Vec<Half>>) -> (res: Vec<Half>)
    ensures
        res@ == joined(rows@.map_values(|r: Vec<Half>| r@)),
{
    let ghost all = rows@.map_values(|r: Vec<Half>| r@);
    let mut out: Vec<Half> = Vec::new();
    let mut i: usize = 0;
    assert(all.take(0) =~= Seq::empty());
    while i < rows.len()
        invariant
            i <= rows@.len(),
            all == rows@.map_values(|r: Vec<Half>| r@),
            out@ == joined(all.take(i as int)),
        decreases rows@.len() - i,
    {
        assert(all.take(i + 1).drop_last() =~= all.take(i as int));
        let mut more = slice_to_vec(rows[i].as_slice());
        out.append(&mut more);
        i = i + 1;
    }
    assert(all.take(i as int) =~= all);
    out
}

/// The hidden state of a node, and whether the pass owns it.
fn node_input<B: Backend>(
    backend: &mut B,
    weights: &WeightStore,
    node_config: &NodeConfig,
    sequences: &[SequenceSlice],
    input: Option<DeviceTensor>,
    total: usize,
    Ghost(given): Ghost<Option<TensorInfo>>,
) -> (res: Result<DeviceTensor>)
    requires
        sequences@.len() > 0,
        given == (match input {
            Some(t) => Some(t@),
            None => None,
        }),
        joined(position_runs(sequences@)).len() == total,
        !node_config.head() ==> (input matches Some(t) ==> t@.shape.len() >= 2),
    ensures
        !node_accepts(*weights, *node_config, sequences@, given) ==> (res matches Err(e)
            && node_refusal(*weights, *node_config, sequences@, given, e)) && final(backend).trace()
            == old(backend).trace(),
        node_accepts(*weights, *node_config, sequences@, given) ==> exists|hidden: TensorInfo|
            (if node_config.head() {
                is_hidden(hidden, weights.config, total)
            } else {
                given == Some(hidden)
            }) && (res matches Ok(t) ==> t@ == hidden) && #[trigger] ran(
                old(backend).trace(),
                final(backend).trace(),
                node_input_events(*weights, *node_config, sequences@, hidden),
                error_of(res),
            ),
{
    let ghost before = backend.trace();
    if node_config.is_head() {
        if input.is_some() {
            return Err(
                FractureError::Pipeline(
                    "head node received activations in batched_forward_node".to_owned(),
                ),
            );
        }
        let token_ids = concat_tokens(sequences);
        if token_ids.len() != total {
            let mut t: String = numbered("token count mismatch: ", token_ids.len() as u64);
            t.append(" token_ids vs ");
            push_decimal(&mut t, total as u64);
            t.append(" positions");
            return Err(FractureError::InvalidShape(t));
        }
        let r = embed(backend, weights, &token_ids);
        proof {
            let hidden = choose|hidden: TensorInfo|
                is_hidden(hidden, weights.config, total) && (r matches Ok(t) ==> t@ == hidden)
                    && #[trigger] ran(
                    before,
                    backend.trace(),
                    embed_events(*weights, token_ids@, hidden),
                    error_of(r),
                );
            assert(ran(
                before,
                backend.trace(),
                node_input_events(*weights, *node_config, sequences@, hidden),
                error_of(r),
            ));
        }
        r
    } else {
        match input {
            None => Err(
                FractureError::Pipeline(
                    "non-head node requires activations in batched_forward_node".to_owned(),
                ),
            ),
            Some(hs) => {
                if hs.shape[0] != total || hs.shape[1] != weights.config.hidden_size {
                    let mut t: String = numbered("activation shape [", hs.shape[0] as u64);
                    t.append(", ");
                    push_decimal(&mut t, hs.shape[1] as u64);
                    t.append("] doesn't match expected [");
                    push_decimal(&mut t, total as u64);
                    t.append(", ");
                    push_decimal(&mut t, weights.config.hidden_size as u64);
                    t.append("]");
                    return Err(FractureError::InvalidShape(t));
                }
                assert(backend.trace() =~= before + node_input_events(
                    *weights,
                    *node_config,
                    sequences@,
                    hs@,
                ));
                assert(ran(
                    before,
                    backend.trace(),
                    node_input_events(*weights, *node_config, sequences@, hs@),
                    None::<FractureError>,
                ));
                Ok(hs)
            },
        }
    }
}

/// What follows the last layer of a node.
fn end_batch_node<B: Backend>(
    backend: &mut B,
    weights: &WeightStore,
    node_config: &NodeConfig,
    hidden: DeviceTensor,
    s: &Scratch,
    parts: &Vec<Part>,
    Ghost(b): Ghost<Batch>,
    Ghost(run): Ghost<BatchRun>,
) -> (res: Result<NodeOutput>)
    requires
        node_config.tail() ==> logits_fit(weights.config),
        b.cfg == weights.config,
        b.output_norm == weights.output_norm@,
        b.lm_head == weights.lm_head@,
        b.parts == parts@,
        parts_consecutive(parts@, b.total),
        node_config.tail() && parts@.len() > 0 ==> parts@[0].n > 0,
        run.hidden == hidden@,
        run.scratch == s@,
        b.rows_fit(run.rows),
    ensures
        exists|rows: Seq<OutputInfo>|
            b.rows_fit(rows) && (res matches Ok(out) ==> out@ == node_output(
                *node_config,
                (BatchRun { rows, ..run }),
            )) && #[trigger] ran(
                old(backend).trace(),
                final(backend).trace(),
                node_end_events(b, *node_config, (BatchRun { rows, ..run })),
                error_of(res),
            ),
{
    let ghost before = backend.trace();
    if node_config.is_tail() {
        let r = produce_batch_logits(
            backend,
            weights,
            &hidden,
            node_config.is_head(),
            s,
            parts,
            Ghost(b),
        );
        let ghost rows = choose|rows: Seq<OutputInfo>|
            b.rows_fit(rows) && (r matches Ok(l) ==> l@.len() == rows.len() && (forall|j: int|
                0 <= j < rows.len() ==> (#[trigger] l@[j])@ == halves(rows[j].bytes)))
                && #[trigger] ran(
                before,
                backend.trace(),
                b.output_events(hidden@, node_config.head(), s@, rows),
                error_of(r),
            );
        let ghost run2 = BatchRun { rows, ..run };
        assert(ran(
            before,
            backend.trace(),
            node_end_events(b, *node_config, run2),
            error_of(r),
        ));
        match r {
            Ok(logits) => {
                assert(logits@.map_values(|r: Vec<Half>| r@) =~= rows.map_values(
                    |o: OutputInfo| halves(o.bytes),
                ));
                Ok(NodeOutput::Logits(flatten(logits)))
            },
            Err(e) => Err(e),
        }
    } else {
        let r = release_batch(backend, &hidden, false, s, Ghost(b));
        assert(run == (BatchRun { rows: run.rows, ..run }));
        assert(ran(
            before,
            backend.trace(),
            node_end_events(b, *node_config, (BatchRun { rows: run.rows, ..run })),
            error_of(r),
        ));
        match r {
            Ok(_) => Ok(NodeOutput::Activations(hidden)),
            Err(e) => Err(e),
        }
    }
}

/// Scratch tensors, layers and output of a node, after its hidden state was made.
fn run_batch_node<B: Backend>(
    backend: &mut B,
    weights: &WeightStore,
    node_config: &NodeConfig,
    num_layers: usize,
    hidden_state: DeviceTensor,
    positions: &Vec<u32>,
    cache: &mut PagedKvCacheManager,
    parts: &Vec<Part>,
    total: usize,
    Ghost(b): Ghost<Batch>,
    Ghost(input): Ghost<Seq<DeviceEvent>>,
    Ghost(before): Ghost<Seq<DeviceEvent>>,
) -> (res: Result<NodeOutput>)
    requires
        scratch_fits(weights.config),
        old(cache).wf(),
        b.can_run(weights.layers@.len() as int, old(cache).blocks().layers() as int),
        b.has_room() && node_config.tail() ==> logits_fit(weights.config) && (parts@.len() > 0
            ==> parts@[0].n > 0),
        b.ready(),
        b.cfg == weights.config,
        b.layers == Seq::new(num_layers as nat, |l: int| weights.layers@[l]@),
        b.output_norm == weights.output_norm@,
        b.lm_head == weights.lm_head@,
        b.positions == positions@,
        b.parts == parts@,
        b.total == total,
        b.tensors == old(cache).blocks().tensors(),
        b.cache == old(cache).model(),
        ran(before, old(backend).trace(), input, None),
    ensures
        final(cache).wf(),
        final(cache).blocks().same_blocks(&old(cache).blocks()),
        final(cache).next_handle() == old(cache).next_handle(),
        exists|run: BatchRun|
            run.hidden == hidden_state@ && run.fits(b) && (res matches Ok(out) ==> out@
                == node_output(*node_config, run)) && #[trigger] run.ends(
                b,
                input,
                node_end_events(b, *node_config, run),
                old(cache).blocks().exhausted(),
                before,
                final(backend).trace(),
                final(cache).model(),
                error_of(res),
            ),
{
    let ghost exhausted = cache.blocks().exhausted();
    let ghost hidden = hidden_state@;
    let r = run_batch(
        backend,
        weights,
        num_layers,
        &hidden_state,
        positions,
        cache,
        parts,
        total,
        Ghost(b),
        Ghost(input),
        Ghost(before),
    );
    let ghost run = choose|run: BatchRun|
        run.hidden == hidden && run.fits(b) && (r matches Ok(s) ==> s@ == run.scratch)
            && #[trigger] staged_outcome(
            prefixed(
                b.stages(run.hidden, run.scratch, run.slices),
                input + all_allocated(run.scratch.list()),
            ),
            b.caches(run.scratch),
            b.limit(run.scratch),
            exhausted,
            before,
            backend.trace(),
            cache.model(),
            error_of(r),
        );
    let ghost stages = prefixed(
        b.stages(run.hidden, run.scratch, run.slices),
        input + all_allocated(run.scratch.list()),
    );
    proof {
        stage_counts(b, run);
        if let Some(e) = error_of(r) {
            suffix_fails(
                stages,
                b.caches(run.scratch),
                b.limit(run.scratch),
                exhausted,
                node_end_events(b, *node_config, run),
                before,
                backend.trace(),
                cache.model(),
                e,
            );
            assert(run.ends(
                b,
                input,
                node_end_events(b, *node_config, run),
                exhausted,
                before,
                backend.trace(),
                cache.model(),
                Some(e),
            ));
        }
    }
    let s = match r {
        Ok(s) => s,
        Err(e) => {
            return Err(e);
        },
    };
    let ghost middle = backend.trace();
    let r = end_batch_node(
        backend,
        weights,
        node_config,
        hidden_state,
        &s,
        parts,
        Ghost(b),
        Ghost(run),
    );
    proof {
        let rows = choose|rows: Seq<OutputInfo>|
            b.rows_fit(rows) && (r matches Ok(out) ==> out@ == node_output(
                *node_config,
                (BatchRun { rows, ..run }),
            )) && #[trigger] ran(
                middle,
                backend.trace(),
                node_end_events(b, *node_config, (BatchRun { rows, ..run })),
                error_of(r),
            );
        let run2 = BatchRun { rows, ..run };
        suffix_outcome(
            stages,
            b.caches(run.scratch),
            b.limit(run.scratch),
            exhausted,
            node_end_events(b, *node_config, run2),
            before,
            middle,
            backend.trace(),
            cache.model(),
            error_of(r),
        );
        assert(run2.fits(b));
        assert(run2.ends(
            b,
            input,
            node_end_events(b, *node_config, run2),
            exhausted,
            before,
            backend.trace(),
            cache.model(),
            error_of(r),
        ));
    }
    r
}

/// A device failure while the hidden state is made ends the batch.
proof fn node_input_fails(
    weights: WeightStore,
    node: NodeConfig,
    seqs: Seq<SequenceSlice>,
    input: Option<TensorInfo>,
    tensors: Seq<Seq<TensorInfo>>,
    exhausted: FractureError,
    m: CacheModel,
    hidden: TensorInfo,
    before: Seq<DeviceEvent>,
    after: Seq<DeviceEvent>,
    e: FractureError,
)
    requires
        node_accepts(weights, node, seqs, input),
        node_can_hide(
            batch_of(
                weights,
                range_len(node.layer_range),
                seqs,
                position_runs(seqs),
                m,
                tensors,
            ),
            node,
            input,
            hidden,
        ),
        ran(before, after, node_input_events(weights, node, seqs, hidden), Some(e)),
    ensures
        batched_node_end(
            weights,
            node,
            seqs,
            input,
            tensors,
            exhausted,
            m,
            before,
            m,
            after,
            Err(e),
        ),
{
    let b = batch_of(weights, range_len(node.layer_range), seqs, position_runs(seqs), m, tensors);
    let events = node_input_events(weights, node, seqs, hidden);
    let run = blank_run(b, hidden);
    blank_run_fits(b, hidden);
    input_fails(
        b,
        run,
        events,
        node_end_events(b, node, run),
        exhausted,
        before,
        after,
        e,
    );
    let res: Result<NodeOutput> = Err(e);
    assert(ended(before, after, events, res->Err_0, is_unknown(seqs, m, res->Err_0)));
    assert(run.ends(
        b,
        node_input_events(weights, node, seqs, run.hidden),
        node_end_events(b, node, run),
        exhausted,
        before,
        after,
        m,
        error_of(res),
    ));
}

/// An unknown sequence ends the batch after the hidden state was made.
proof fn node_unknown(
    weights: WeightStore,
    node: NodeConfig,
    seqs: Seq<SequenceSlice>,
    input: Option<TensorInfo>,
    tensors: Seq<Seq<TensorInfo>>,
    exhausted: FractureError,
    m: CacheModel,
    hidden: TensorInfo,
    before: Seq<DeviceEvent>,
    after: Seq<DeviceEvent>,
    e: FractureError,
)
    requires
        node_accepts(weights, node, seqs, input),
        !all_known(seqs, m),
        is_unknown(seqs, m, e),
        node_can_hide(
            batch_of(
                weights,
                range_len(node.layer_range),
                seqs,
                position_runs(seqs),
                m,
                tensors,
            ),
            node,
            input,
            hidden,
        ),
        ran(before, after, node_input_events(weights, node, seqs, hidden), None),
    ensures
        batched_node_end(
            weights,
            node,
            seqs,
            input,
            tensors,
            exhausted,
            m,
            before,
            m,
            after,
            Err(e),
        ),
{
    let events = node_input_events(weights, node, seqs, hidden);
    let res: Result<NodeOutput> = Err(e);
    assert(ended(before, after, events, res->Err_0, is_unknown(seqs, m, res->Err_0)));
}

/// A batch that ran ends as its stages do.
proof fn node_ran(
    weights: WeightStore,
    node: NodeConfig,
    seqs: Seq<SequenceSlice>,
    input: Option<TensorInfo>,
    tensors: Seq<Seq<TensorInfo>>,
    exhausted: FractureError,
    m: CacheModel,
    run: BatchRun,
    before: Seq<DeviceEvent>,
    cache: CacheModel,
    after: Seq<DeviceEvent>,
    res: Result<NodeOutput>,
)
    requires
        node_accepts(weights, node, seqs, input),
        all_known(seqs, m),
        ({
            let b = batch_of(
                weights,
                range_len(node.layer_range),
                seqs,
                position_runs(seqs),
                m,
                tensors,
            );
            &&& node_can_hide(b, node, input, run.hidden)
            &&& run.fits(b)
            &&& res matches Ok(out) ==> out@ == node_output(node, run)
            &&& run.ends(
                b,
                node_input_events(weights, node, seqs, run.hidden),
                node_end_events(b, node, run),
                exhausted,
                before,
                after,
                cache,
                error_of(res),
            )
        }),
    ensures
        batched_node_end(
            weights,
            node,
            seqs,
            input,
            tensors,
            exhausted,
            m,
            before,
            cache,
            after,
            res,
        ),
{
}

/// A batched pass of a node can compute and read what it gets to: the sizes fit in
/// `usize`, and there are weights and a cache for each layer.
pub open spec fn node_batch_can_run(
    weights: WeightStore,
    node: NodeConfig,
    seqs: Seq<SequenceSlice>,
    input: Option<TensorInfo>,
    m: CacheModel,
    tensors: Seq<Seq<TensorInfo>>,
    cached_layers: int,
) -> bool {
    let b = batch_of(
        weights,
        range_len(node.layer_range),
        seqs,
        position_runs(seqs),
        m,
        tensors,
    );
    node_accepts(weights, node, seqs, input) && all_known(seqs, m) ==> {
        &&& scratch_fits(weights.config)
        &&& can_count(seqs, m, joined(position_runs(seqs)).len() as int)
        &&& b.can_run(weights.layers@.len() as int, cached_layers)
        &&& b.has_room() && node.tail() ==> logits_fit(weights.config) && seqs[0].positions@.len()
            > 0
    }
}

/// Run a batched forward pass through a pipeline node's layer range.
///
/// - Head nodes: receive token ids, produce activations.
/// - Middle nodes: receive activations, produce activations.
/// - Tail nodes: receive activations, produce the logits of each sequence.
///
/// The `sequences` give each sequence's cache handle and positions. For head nodes
/// the token ids come from them; for the others activations are provided.
#[verifier::rlimit(30)]
pub fn batched_forward_node<B: Backend>(
    backend: &mut B,
    weights: &WeightStore,
    node_config: &NodeConfig,
    cache: &mut PagedKvCacheManager,
    sequences: &[SequenceSlice],
    input_hidden_states: Option<DeviceTensor>,
) -> (res: Result<NodeOutput>)
    requires
        old(cache).wf(),
        sequences@.len() > 0 && !node_config.head() ==> (input_hidden_states matches Some(t)
            ==> t@.shape.len() >= 2),
        node_batch_can_run(
            *weights,
            *node_config,
            sequences@,
            match input_hidden_states {
                Some(t) => Some(t@),
                None => None,
            },
            old(cache).model(),
            old(cache).blocks().tensors(),
            old(cache).blocks().layers() as int,
        ),
    ensures
        final(cache).wf(),
        final(cache).blocks().same_blocks(&old(cache).blocks()),
        final(cache).next_handle() == old(cache).next_handle(),
        batched_node_end(
            *weights,
            *node_config,
            sequences@,
            match input_hidden_states {
                Some(t) => Some(t@),
                None => None,
            },
            old(cache).blocks().tensors(),
            old(cache).blocks().exhausted(),
            old(cache).model(),
            old(backend).trace(),
            final(cache).model(),
            final(backend).trace(),
            res,
        ),
{
    if sequences.len() == 0 {
        return Err(FractureError::Pipeline("batched_forward_node: no sequences".to_owned()));
    }
    let ghost before = backend.trace();
    let ghost m = cache.model();
    let ghost tensors = cache.blocks().tensors();
    let ghost exhausted = cache.blocks().exhausted();
    let ghost runs = position_runs(sequences@);
    let ghost given = if input_hidden_states is Some {
        Some(input_hidden_states->0@)
    } else {
        None
    };
    let num_layers: usize = if node_config.layer_range.start <= node_config.layer_range.end {
        node_config.layer_range.end - node_config.layer_range.start
    } else {
        0
    };
    let positions = concat_positions(sequences);
    let total: usize = positions.len();
    let ghost b = batch_of(*weights, num_layers as int, sequences@, runs, m, tensors);
    let r = node_input(
        backend,
        weights,
        node_config,
        sequences,
        input_hidden_states,
        total,
        Ghost(given),
    );
    let ghost hidden = choose|hidden: TensorInfo|
        (if node_config.head() {
            is_hidden(hidden, weights.config, total)
        } else {
            given == Some(hidden)
        }) && (r matches Ok(t) ==> t@ == hidden) && #[trigger] ran(
            before,
            backend.trace(),
            node_input_events(*weights, *node_config, sequences@, hidden),
            error_of(r),
        );
    let ghost input = node_input_events(*weights, *node_config, sequences@, hidden);
    let hidden_state = match r {
        Ok(t) => t,
        Err(e) => {
            proof {
                if node_accepts(*weights, *node_config, sequences@, given) {
                    node_input_fails(
                        *weights,
                        *node_config,
                        sequences@,
                        given,
                        tensors,
                        exhausted,
                        m,
                        hidden,
                        before,
                        backend.trace(),
                        e,
                    );
                }
            }
            return Err(e);
        },
    };
    let parts = match make_parts(sequences, true, cache, total, Ghost(runs)) {
        Ok(parts) => parts,
        Err(e) => {
            proof {
                node_unknown(
                    *weights,
                    *node_config,
                    sequences@,
                    given,
                    tensors,
                    exhausted,
                    m,
                    hidden,
                    before,
                    backend.trace(),
                    e,
                );
            }
            return Err(e);
        },
    };
    proof {
        batch_is_ready(*weights, num_layers as int, sequences@, runs, m, tensors);
    }
    let first_len: usize = sequences[0].positions.len();
    assert(runs[0].len() == first_len);
    let res = run_batch_node(
        backend,
        weights,
        node_config,
        num_layers,
        hidden_state,
        &positions,
        cache,
        &parts,
        total,
        Ghost(b),
        Ghost(input),
        Ghost(before),
    );
    proof {
        let run = choose|run: BatchRun|
            run.hidden == hidden && run.fits(b) && (res matches Ok(out) ==> out@ == node_output(
                *node_config,
                run,
            )) && #[trigger] run.ends(
                b,
                input,
                node_end_events(b, *node_config, run),
                exhausted,
                before,
                backend.trace(),
                cache.model(),
                error_of(res),
            );
        node_ran(
            *weights,
            *node_config,
            sequences@,
            given,
            tensors,
            exhausted,
            m,
            run,
            before,
            cache.model(),
            backend.trace(),
            res,
        );
    }
    res
}

} // verus!

//! What a finished pass over a batch answers, and what it leaves in the cache.
use crate::base::backend::{done, DeviceCall, DeviceEvent};
use crate::base::dataflow::{
    after_allocations, after_call, after_calls_add, after_done, after_events, after_events_add,
    after_one_call, after_releases, changes_only, first, fresh_first, fresh_parts, fresh_tensors,
    gives_fresh_memory, ids, in_use, in_use_add, normed, operand, reads_are_true, row_shape,
    true_parts, true_read, use_stays, words, Kernels, Memory, Rows,
};
use crate::base::error::{FractureError, Result};
use crate::base::model_config::ModelConfig;
use crate::base::program::{all_allocated, all_done, frees, joined};
use crate::base::tensor::{TensorId, TensorInfo};
use crate::engine::batch_layers::appended;
use crate::engine::batch_model_laws::{
    agree, batch_is_apart, batch_layer, batch_layers_compute, batch_layers_events, layers_agree,
    part_extended, part_hidden, part_positions, stages_are_layers, suffixed_joins,
};
use crate::engine::batch_pass::{part_row_events, Batch, BatchRun};
use crate::engine::batch_rows::{
    batch_is_sound, part_blocks, part_cached, part_is_counted, part_past, parts_are_apart, shifted,
    table_stays, two_releases, used_stay,
};
use crate::engine::batched::{
    are_logits, batch_of, batched_end, batched_node_end, embed_events, is_hidden, node_can_hide,
    node_end_events, node_input_events, node_output, parts_of, position_runs, range_len, token_runs,
    BatchedOutput, SequenceSlice,
};
use crate::engine::block_rows::{pool_memory, table_memory_in_pool};
use crate::engine::logits::halves;
use crate::engine::model::{have_own_memory, own_memory, pass_memory, weights_outside};
use crate::engine::model_laws::{
    after_one, hidden_after, hidden_row, logit_row, pass_layer, use_one, weights_inside,
};
use crate::engine::node::{NodeConfig, NodeOutput, NodeOutputInfo};
use crate::engine::paged_kv_cache::CacheModel;
use crate::engine::paged_model_laws::{growing_keeps_rows, paged_pasts};
use crate::engine::pass::Pass;
use crate::engine::staged::{joined_prefixed, joined_split, prefixed, staged_outcome};
use crate::engine::transformer::{fetch_events, row_events, OutputInfo, ScratchInfo};
use crate::engine::weights::WeightStore;
use vstd::prelude::*;

verus! {

/// The bytes of the logits of one normalised row.
pub open spec fn logit_bytes<R>(k: Kernels<R>, cfg: ModelConfig, row: R) -> Seq<u8> {
    (k.bytes)(seq![row], seq![1usize, cfg.vocab_size], (cfg.vocab_size * 2) as nat)
}

/// The logits of one part are those of its row.
proof fn row_is_answered<R>(
    k: Kernels<R>,
    mem: Memory<R>,
    cfg: ModelConfig,
    normal: TensorInfo,
    lm_head: TensorInfo,
    row: usize,
    o: OutputInfo,
    used: Set<TensorId>,
)
    requires
        o.fits(cfg),
        used.contains(normal.id),
        used.contains(lm_head.id),
        gives_fresh_memory(used, part_row_events(normal, lm_head, row, o)),
        reads_are_true(k, mem, part_row_events(normal, lm_head, row, o)),
    ensures
        o.bytes == logit_bytes(
            k,
            cfg,
            (k.product)(
                mem[normal.id](row as int),
                seq![cfg.hidden_size],
                operand(mem, lm_head),
            ),
        ),
        used_stay(
            mem,
            after_events(k, mem, part_row_events(normal, lm_head, row, o)),
            used,
            Set::empty(),
        ),
        in_use(used, part_row_events(normal, lm_head, row, o)) == used,
{
    let fetch = fetch_events(normal, row, o.last);
    let work = row_events(o.last, lm_head, o.logits, o.bytes);
    let drops = frees(seq![o.last, o.logits]);
    let end = all_done(drops);
    fresh_parts(used, fetch + work, end);
    fresh_parts(used, fetch, work);
    true_parts(k, mem, fetch + work, end);
    true_parts(k, mem, fetch, work);
    after_events_add(k, mem, fetch + work, end);
    after_events_add(k, mem, fetch, work);
    in_use_add(used, fetch + work, end);
    in_use_add(used, fetch, work);
    assert(fetch =~= seq![fetch[0]] + seq![fetch[1]]);
    fresh_first(used, fetch, o.last);
    after_events_add(k, mem, seq![fetch[0]], seq![fetch[1]]);
    after_one(k, mem, fetch[0]);
    after_one(k, mem, fetch[1]);
    let m1 = after_call(k, mem, fetch[1].call);
    in_use_add(used, seq![fetch[0]], seq![fetch[1]]);
    use_one(used, fetch[0]);
    let used1 = used.insert(o.last.id);
    use_stays(used1, seq![fetch[1]]);
    assert(m1[o.last.id](0) == mem[normal.id](row as int));
    fresh_first(used1, work, o.logits);
    let rest = seq![work[1], work[2]];
    assert(work =~= seq![work[0]] + rest);
    in_use_add(used1, seq![work[0]], rest);
    use_one(used1, work[0]);
    let used2 = used1.insert(o.logits.id);
    use_stays(used2, rest);
    let m2 = after_call(k, m1, work[1].call);
    assert(work.take(2) =~= seq![work[0]] + seq![work[1]]);
    after_events_add(k, m1, seq![work[0]], seq![work[1]]);
    after_one(k, m1, work[0]);
    after_one(k, m1, work[1]);
    true_read(k, m1, work, 2);
    assert(work =~= work.take(2) + seq![work[2]]);
    after_events_add(k, m1, work.take(2), seq![work[2]]);
    after_one(k, m2, work[2]);
    after_done(k, m2, drops);
    after_releases(k, m2, seq![o.last, o.logits]);
    two_releases(used2, o.last, o.logits);
    assert(used2.remove(o.last.id).remove(o.logits.id) =~= used);
    assert(row_shape(o.last.shape) =~= seq![cfg.hidden_size]);
    let r = (k.product)(
        mem[normal.id](row as int),
        seq![cfg.hidden_size],
        operand(mem, lm_head),
    );
    assert(operand(m1, lm_head) == operand(mem, lm_head));
    assert(m2[o.logits.id](0) == r);
    assert(first(m2[o.logits.id], 1) =~= seq![r]);
    assert(o.logits.shape =~= seq![1usize, cfg.vocab_size]);
}

/// The logits of the first `j` parts are those of their rows.
proof fn rows_are_answered<R>(
    k: Kernels<R>,
    mem: Memory<R>,
    b: Batch,
    s: ScratchInfo,
    rows: Seq<OutputInfo>,
    j: int,
    used: Set<TensorId>,
)
    requires
        b.rows_fit(rows),
        0 <= j <= b.parts.len(),
        used.contains(s.normed.id),
        used.contains(b.lm_head.id),
        gives_fresh_memory(used, joined(b.output_rows(s, rows).take(j))),
        reads_are_true(k, mem, joined(b.output_rows(s, rows).take(j))),
    ensures
        forall|i: int|
            0 <= i < j ==> (#[trigger] rows[i]).bytes == logit_bytes(
                k,
                b.cfg,
                (k.product)(
                    mem[s.normed.id](b.last_row(i) as int),
                    seq![b.cfg.hidden_size],
                    operand(mem, b.lm_head),
                ),
            ),
        used_stay(
            mem,
            after_events(k, mem, joined(b.output_rows(s, rows).take(j))),
            used,
            Set::empty(),
        ),
        in_use(used, joined(b.output_rows(s, rows).take(j))) == used,
    decreases j,
{
    let all = b.output_rows(s, rows);
    if j > 0 {
        let i = j - 1;
        let before = joined(all.take(i));
        let events = part_row_events(s.normed, b.lm_head, b.last_row(i), rows[i]);
        assert(all.take(j).drop_last() =~= all.take(i));
        assert(all.take(j).last() == events);
        fresh_parts(used, before, events);
        true_parts(k, mem, before, events);
        after_events_add(k, mem, before, events);
        in_use_add(used, before, events);
        rows_are_answered(k, mem, b, s, rows, i, used);
        let m = after_events(k, mem, before);
        assert(rows[i].fits(b.cfg));
        row_is_answered(k, m, b.cfg, s.normed, b.lm_head, b.last_row(i), rows[i], used);
        assert(m[s.normed.id] == mem[s.normed.id]);
        assert(m[b.lm_head.id] == mem[b.lm_head.id]);
    } else {
        assert(all.take(0) =~= Seq::empty());
    }
}

/// What follows the layers: the logits of each part are those that the model says of its last
/// token.
proof fn batch_end_computes<R>(
    k: Kernels<R>,
    mem: Memory<R>,
    b: Batch,
    hidden: TensorInfo,
    owned: bool,
    s: ScratchInfo,
    rows: Seq<OutputInfo>,
    used: Set<TensorId>,
)
    requires
        s.fits(b.cfg, b.total),
        b.rows_fit(rows),
        have_own_memory(hidden, s),
        pass_memory(hidden, s).subset_of(used),
        !pass_memory(hidden, s).contains(b.output_norm.id),
        !pass_memory(hidden, s).contains(b.lm_head.id),
        used.contains(b.output_norm.id),
        used.contains(b.lm_head.id),
        gives_fresh_memory(used, b.output_events(hidden, owned, s, rows)),
        reads_are_true(k, mem, b.output_events(hidden, owned, s, rows)),
    ensures
        forall|j: int|
            0 <= j < b.parts.len() ==> (#[trigger] rows[j]).bytes == logit_bytes(
                k,
                b.cfg,
                logit_row(
                    k,
                    mem,
                    b.cfg,
                    b.output_norm,
                    b.lm_head,
                    row_shape(hidden.shape),
                    mem[hidden.id],
                    b.last_row(j) as int,
                ),
            ),
        used_stay(
            mem,
            after_events(k, mem, b.output_events(hidden, owned, s, rows)),
            used,
            set![s.normed.id],
        ),
{
    let count = b.parts.len() as int;
    let call = DeviceCall::Rmsnorm {
        input: hidden,
        weight: b.output_norm,
        eps: b.cfg.rms_norm_eps,
        out: s.normed,
    };
    let norm = seq![done(call)];
    let work = joined(b.output_rows(s, rows));
    let end = b.release_events(hidden, owned, s);
    assert(b.output_rows(s, rows).take(count) =~= b.output_rows(s, rows));
    own_memory(hidden, s);
    let l = ids(seq![hidden] + s.list());
    assert(pass_memory(hidden, s).contains(l[1]) && pass_memory(hidden, s).contains(l[0]));
    fresh_parts(used, norm + work, end);
    fresh_parts(used, norm, work);
    true_parts(k, mem, norm + work, end);
    true_parts(k, mem, norm, work);
    after_events_add(k, mem, norm + work, end);
    after_events_add(k, mem, norm, work);
    use_stays(used, norm);
    after_one(k, mem, norm[0]);
    let m1 = after_call(k, mem, call);
    rows_are_answered(k, m1, b, s, rows, count, used);
    let m2 = after_events(k, m1, work);
    let shape = row_shape(hidden.shape);
    assert(m1[s.normed.id] == normed(
        k,
        mem[hidden.id],
        shape,
        operand(mem, b.output_norm),
        b.cfg.rms_norm_eps,
    ));
    assert(operand(m1, b.lm_head) == operand(mem, b.lm_head));
    let gone = (if owned {
        seq![hidden]
    } else {
        Seq::empty()
    }) + s.list();
    after_done(k, m2, seq![DeviceCall::Synchronize] + frees(gone));
    after_calls_add(k, m2, seq![DeviceCall::Synchronize], frees(gone));
    after_one_call(k, m2, DeviceCall::Synchronize);
    after_releases(k, m2, gone);
}

/// The hidden states of a part depend on its own tokens alone.
proof fn hidden_agrees<R>(
    k: Kernels<R>,
    mem: Memory<R>,
    b: Batch,
    shape: Seq<usize>,
    j: int,
    x: Rows<R>,
    y: Rows<R>,
    l: int,
)
    requires
        agree(x, y, b.parts[j].n as int),
    ensures
        agree(
            part_hidden(k, mem, b, shape, j, x, l),
            part_hidden(k, mem, b, shape, j, y, l),
            b.parts[j].n as int,
        ),
        part_extended(k, mem, b, shape, j, x, l) == part_extended(k, mem, b, shape, j, y, l),
    decreases l,
{
    let n = b.parts[j].n as int;
    if l > 0 {
        hidden_agrees(k, mem, b, shape, j, x, y, l - 1);
        layers_agree(
            k,
            batch_layer(mem, b, shape, l - 1),
            part_hidden(k, mem, b, shape, j, x, l - 1),
            part_hidden(k, mem, b, shape, j, y, l - 1),
            part_positions(b, j),
            n,
            part_past(mem, b, l - 1, j),
        );
    }
    layers_agree(
        k,
        batch_layer(mem, b, shape, l),
        part_hidden(k, mem, b, shape, j, x, l),
        part_hidden(k, mem, b, shape, j, y, l),
        part_positions(b, j),
        n,
        part_past(mem, b, l, j),
    );
}

/// The hidden states of a part depend on nothing that a batch has not in use.
proof fn hidden_stays<R>(
    k: Kernels<R>,
    x: Memory<R>,
    y: Memory<R>,
    b: Batch,
    shape: Seq<usize>,
    j: int,
    h: Rows<R>,
    l: int,
)
    requires
        l <= b.layers.len(),
        forall|i: int|
            0 <= i < b.layers.len() ==> #[trigger] batch_layer(x, b, shape, i) == batch_layer(
                y,
                b,
                shape,
                i,
            ),
        forall|i: int|
            0 <= i < b.layers.len() ==> #[trigger] part_past(x, b, i, j) == part_past(y, b, i, j),
    ensures
        part_hidden(k, x, b, shape, j, h, l) == part_hidden(k, y, b, shape, j, h, l),
    decreases l,
{
    if l > 0 {
        hidden_stays(k, x, y, b, shape, j, h, l - 1);
        assert(batch_layer(x, b, shape, l - 1) == batch_layer(y, b, shape, l - 1));
        assert(part_past(x, b, l - 1, j) == part_past(y, b, l - 1, j));
    }
}

/// The elements of a row among joined rows.
proof fn joined_row(runs: Seq<Seq<u32>>, j: int, r: int)
    requires
        0 <= j < runs.len(),
        0 <= r < runs[j].len(),
    ensures
        joined(runs.take(j)).len() + r < joined(runs).len(),
        joined(runs)[joined(runs.take(j)).len() + r] == runs[j][r],
{
    joined_split(runs, j + 1);
    assert(runs.take(j + 1).drop_last() =~= runs.take(j));
    assert(runs.take(j + 1).last() == runs[j]);
}

/// The tensors that a pass over a batch is given, the weights and the pool, are in use and
/// lie apart.
pub open spec fn batch_uses(
    b: Batch,
    token_embedding: TensorInfo,
    used: Set<TensorId>,
) -> bool {
    let pool = pool_memory(b.tensors);
    &&& forall|l: int|
        0 <= l < b.layers.len() ==> weights_inside(#[trigger] b.layers[l], used)
            && weights_outside(b.layers[l], pool)
    &&& used.contains(token_embedding.id) && !pool.contains(token_embedding.id)
    &&& used.contains(b.output_norm.id) && !pool.contains(b.output_norm.id)
    &&& used.contains(b.lm_head.id) && !pool.contains(b.lm_head.id)
    &&& pool.subset_of(used)
}

/// What precedes the layers: the tokens are embedded in memory that nothing else uses.
proof fn batch_setup_computes<R>(
    k: Kernels<R>,
    mem: Memory<R>,
    weights: WeightStore,
    tokens: Seq<u32>,
    hidden: TensorInfo,
    s: ScratchInfo,
    used: Set<TensorId>,
)
    requires
        used.contains(weights.token_embedding@.id),
        gives_fresh_memory(
            used,
            embed_events(weights, tokens, hidden) + all_allocated(s.list()),
        ),
    ensures
        ({
            let events = embed_events(weights, tokens, hidden) + all_allocated(s.list());
            let m = after_events(k, mem, events);
            &&& m[hidden.id] == words(k, tokens, operand(mem, weights.token_embedding@))
            &&& changes_only(mem, m, set![hidden.id])
            &&& have_own_memory(hidden, s)
            &&& in_use(used, events) == used.union(pass_memory(hidden, s))
            &&& pass_memory(hidden, s).disjoint(used)
        }),
{
    let input = embed_events(weights, tokens, hidden);
    let scratch = all_allocated(s.list());
    after_events_add(k, mem, input, scratch);
    fresh_parts(used, input, scratch);
    in_use_add(used, input, scratch);
    let m = after_events(k, mem, input);
    after_allocations(k, m, s.list());
    assert(input =~= seq![input[0]] + seq![input[1]]);
    after_events_add(k, mem, seq![input[0]], seq![input[1]]);
    after_one(k, mem, input[0]);
    after_one(k, mem, input[1]);
    in_use_add(used, seq![input[0]], seq![input[1]]);
    use_one(used, input[0]);
    let used1 = used.insert(hidden.id);
    use_stays(used1, seq![input[1]]);
    fresh_first(used, input, hidden);
    fresh_tensors(used1, s.list());
    let l = ids(seq![hidden] + s.list());
    let t = ids(s.list());
    assert forall|i: int, j: int| 0 <= i < l.len() && 0 <= j < l.len() && i != j implies l[i]
        != l[j] by {
        assert(i > 0 ==> l[i] == t[i - 1] && l[i] == s.list()[i - 1].id);
        assert(j > 0 ==> l[j] == t[j - 1] && l[j] == s.list()[j - 1].id);
    }
    assert forall|id: TensorId| pass_memory(hidden, s).contains(id) <==> id == hidden.id
        || t.to_set().contains(id) by {
        if l.contains(id) {
            let i = l.index_of(id);
            if i > 0 {
                assert(t[i - 1] == id);
            }
        }
        if t.contains(id) {
            let i = t.index_of(id);
            assert(l[i + 1] == id);
        }
        assert(l[0] == hidden.id);
    }
    assert forall|id: TensorId| t.to_set().contains(id) implies !used1.contains(id) by {
        let i = t.index_of(id);
        assert(s.list()[i].id == id);
    }
    assert(used1.union(t.to_set()) =~= used.union(pass_memory(hidden, s)));
}

/// What the model answers for part `j` of a batch: the logits of the last of its tokens.
pub open spec fn part_answer<R>(
    k: Kernels<R>,
    mem: Memory<R>,
    b: Batch,
    shape: Seq<usize>,
    j: int,
    h: Rows<R>,
) -> Seq<u8> {
    logit_bytes(
        k,
        b.cfg,
        logit_row(
            k,
            mem,
            b.cfg,
            b.output_norm,
            b.lm_head,
            shape,
            part_hidden(k, mem, b, shape, j, h, b.layers.len() as int),
            b.parts[j].n - 1,
        ),
    )
}

/// What a batch leaves in the cache, as the model says of each part.
pub open spec fn cache_follows_the_parts<R>(
    k: Kernels<R>,
    mem: Memory<R>,
    end: Memory<R>,
    b: Batch,
    shape: Seq<usize>,
    h: spec_fn(int) -> Rows<R>,
) -> bool {
    forall|i: int, j: int|
        0 <= i < b.layers.len() && 0 <= j < b.parts.len() ==> #[trigger] part_cached(end, b, i, j)
            == part_extended(k, mem, b, shape, j, h(j), i)
}

/// The rows of each part of a hidden state.
pub open spec fn by_parts<R>(b: Batch, h: Rows<R>) -> spec_fn(int) -> Rows<R> {
    |j: int| shifted(h, b.parts[j].offset as int)
}

/// The layers of a batch, from a memory that differs from the one before only in the hidden
/// state.
proof fn layers_follow<R>(
    k: Kernels<R>,
    mem: Memory<R>,
    start: Memory<R>,
    b: Batch,
    run: BatchRun,
    used: Set<TensorId>,
)
    requires
        batch_is_sound(b),
        batch_is_apart(b, run.hidden, run.scratch, used),
        run.fits(b),
        changes_only(mem, start, set![run.hidden.id]),
        gives_fresh_memory(
            used,
            batch_layers_events(
                b,
                run.hidden,
                run.scratch,
                run.slices,
                b.layers.len() as int,
            ),
        ),
    ensures
        ({
            let events = batch_layers_events(
                b,
                run.hidden,
                run.scratch,
                run.slices,
                b.layers.len() as int,
            );
            let m = after_events(k, start, events);
            let shape = row_shape(run.hidden.shape);
            let h = by_parts(b, start[run.hidden.id]);
            &&& forall|j: int|
                0 <= j < b.parts.len() ==> agree(
                    #[trigger] shifted(m[run.hidden.id], b.parts[j].offset as int),
                    part_hidden(k, mem, b, shape, j, h(j), b.layers.len() as int),
                    b.parts[j].n as int,
                )
            &&& cache_follows_the_parts(k, mem, m, b, shape, h)
            &&& used_stay(
                start,
                m,
                used,
                pass_memory(run.hidden, run.scratch).union(pool_memory(b.tensors)),
            )
            &&& in_use(used, events) == used
        }),
{
    let hidden = run.hidden;
    let s = run.scratch;
    let layers = b.layers.len() as int;
    let shape = row_shape(hidden.shape);
    let h = by_parts(b, start[hidden.id]);
    own_memory(hidden, s);
    let l = ids(seq![hidden] + s.list());
    assert(pass_memory(hidden, s).contains(l[0]));
    batch_layers_compute(k, start, b, hidden, s, run.slices, layers, used);
    let m = after_events(k, start, batch_layers_events(b, hidden, s, run.slices, layers));
    assert forall|i: int| 0 <= i < layers implies #[trigger] batch_layer(start, b, shape, i)
        == batch_layer(mem, b, shape, i) by {
        assert(weights_outside(b.layers[i], pass_memory(hidden, s)));
    }
    assert forall|i: int, j: int|
        0 <= i < layers && 0 <= j < b.parts.len() implies #[trigger] part_past(start, b, i, j)
        == part_past(mem, b, i, j) by {
        part_is_counted(b, j);
        let t = part_blocks(b, j);
        table_memory_in_pool(b.tensors, layers, t.table, i);
        table_stays(mem, start, b.tensors, layers, t.table, i, t.len - b.parts[j].n);
    }
    assert forall|j: int| 0 <= j < b.parts.len() implies agree(
        #[trigger] shifted(m[hidden.id], b.parts[j].offset as int),
        part_hidden(k, mem, b, shape, j, h(j), layers),
        b.parts[j].n as int,
    ) by {
        hidden_stays(k, start, mem, b, shape, j, h(j), layers);
    }
    assert forall|i: int, j: int|
        0 <= i < layers && 0 <= j < b.parts.len() implies #[trigger] part_cached(m, b, i, j)
        == part_extended(k, mem, b, shape, j, h(j), i) by {
        hidden_stays(k, start, mem, b, shape, j, h(j), i);
        assert(batch_layer(start, b, shape, i) == batch_layer(mem, b, shape, i));
        assert(part_past(start, b, i, j) == part_past(mem, b, i, j));
    }
}

/// The cache stays as it is where nothing in the pool changes.
proof fn parts_stay<R>(
    k: Kernels<R>,
    mem: Memory<R>,
    m: Memory<R>,
    end: Memory<R>,
    b: Batch,
    shape: Seq<usize>,
    h: spec_fn(int) -> Rows<R>,
)
    requires
        batch_is_sound(b),
        cache_follows_the_parts(k, mem, m, b, shape, h),
        forall|id: TensorId| pool_memory(b.tensors).contains(id) ==> #[trigger] end[id] == m[id],
    ensures
        cache_follows_the_parts(k, mem, end, b, shape, h),
{
    assert forall|i: int, j: int|
        0 <= i < b.layers.len() && 0 <= j < b.parts.len() implies #[trigger] part_cached(
        end,
        b,
        i,
        j,
    ) == part_extended(k, mem, b, shape, j, h(j), i) by {
        part_is_counted(b, j);
        let t = part_blocks(b, j);
        let layers = b.layers.len() as int;
        table_memory_in_pool(b.tensors, layers, t.table, i);
        table_stays(m, end, b.tensors, layers, t.table, i, t.len as int);
        assert(part_cached(m, b, i, j) == part_extended(k, mem, b, shape, j, h(j), i));
    }
}

/// The layers of a batch and what follows them answer what the model says of each part.
proof fn parts_are_answered<R>(
    k: Kernels<R>,
    mem: Memory<R>,
    start: Memory<R>,
    b: Batch,
    run: BatchRun,
    owned: bool,
    used: Set<TensorId>,
)
    requires
        batch_is_sound(b),
        batch_is_apart(b, run.hidden, run.scratch, used),
        run.fits(b),
        changes_only(mem, start, set![run.hidden.id]),
        !pass_memory(run.hidden, run.scratch).contains(b.output_norm.id),
        !pass_memory(run.hidden, run.scratch).contains(b.lm_head.id),
        !pool_memory(b.tensors).contains(b.output_norm.id),
        !pool_memory(b.tensors).contains(b.lm_head.id),
        used.contains(b.output_norm.id),
        used.contains(b.lm_head.id),
        gives_fresh_memory(
            used,
            batch_layers_events(
                b,
                run.hidden,
                run.scratch,
                run.slices,
                b.layers.len() as int,
            ) + b.output_events(run.hidden, owned, run.scratch, run.rows),
        ),
        reads_are_true(
            k,
            start,
            batch_layers_events(
                b,
                run.hidden,
                run.scratch,
                run.slices,
                b.layers.len() as int,
            ) + b.output_events(run.hidden, owned, run.scratch, run.rows),
        ),
    ensures
        ({
            let shape = row_shape(run.hidden.shape);
            let h = by_parts(b, start[run.hidden.id]);
            let end = after_events(
                k,
                start,
                batch_layers_events(
                    b,
                    run.hidden,
                    run.scratch,
                    run.slices,
                    b.layers.len() as int,
                ) + b.output_events(run.hidden, owned, run.scratch, run.rows),
            );
            &&& forall|j: int|
                0 <= j < b.parts.len() && b.parts[j].n > 0 ==> (#[trigger] run.rows[j]).bytes
                    == part_answer(k, mem, b, shape, j, h(j))
            &&& cache_follows_the_parts(k, mem, end, b, shape, h)
        }),
{
    let hidden = run.hidden;
    let s = run.scratch;
    let layers = b.layers.len() as int;
    let work = batch_layers_events(b, hidden, s, run.slices, layers);
    let last = b.output_events(hidden, owned, s, run.rows);
    let shape = row_shape(hidden.shape);
    let h = by_parts(b, start[hidden.id]);
    fresh_parts(used, work, last);
    true_parts(k, start, work, last);
    after_events_add(k, start, work, last);
    layers_follow(k, mem, start, b, run, used);
    let m = after_events(k, start, work);
    own_memory(hidden, s);
    let l = ids(seq![hidden] + s.list());
    assert(pass_memory(hidden, s).contains(l[0]) && pass_memory(hidden, s).contains(l[1]));
    batch_end_computes(k, m, b, hidden, owned, s, run.rows, used);
    let end = after_events(k, m, last);
    assert(operand(m, b.output_norm) == operand(mem, b.output_norm));
    assert(operand(m, b.lm_head) == operand(mem, b.lm_head));
    assert forall|j: int| 0 <= j < b.parts.len() && b.parts[j].n > 0 implies (
    #[trigger] run.rows[j]).bytes == part_answer(k, mem, b, shape, j, h(j)) by {
        parts_are_apart(b, j, j);
        let offset = b.parts[j].offset as int;
        let n = b.parts[j].n as int;
        let got = shifted(m[hidden.id], offset);
        assert(got(n - 1) == part_hidden(k, mem, b, shape, j, h(j), layers)(n - 1));
        assert(b.last_row(j) == offset + (n - 1));
    }
    parts_stay(k, mem, m, end, b, shape, h);
}

/// The trace of a finished batch: what comes first, the layers, and what follows them.
proof fn finished_in_parts(
    b: Batch,
    run: BatchRun,
    input: Seq<DeviceEvent>,
    end: Seq<DeviceEvent>,
    exhausted: FractureError,
    before: Seq<DeviceEvent>,
    after: Seq<DeviceEvent>,
    cache: CacheModel,
)
    requires
        run.ends(b, input, end, exhausted, before, after, cache, None),
    ensures
        after.skip(before.len() as int) == input + all_allocated(run.scratch.list()) + (
        batch_layers_events(
            b,
            run.hidden,
            run.scratch,
            run.slices,
            b.layers.len() as int,
        ) + end),
        b.layers.len() > 0 ==> cache == b.grown(),
        b.layers.len() == 0 ==> cache == b.cache,
{
    reveal(staged_outcome);
    let inner = b.stages(run.hidden, run.scratch, run.slices);
    let prefix = input + all_allocated(run.scratch.list());
    stages_are_layers(b, run.hidden, run.scratch, run.slices);
    let all = prefixed(inner, prefix);
    joined_prefixed(inner, prefix, inner.len() as int);
    assert(all.take(all.len() as int) =~= all);
    assert(inner.take(inner.len() as int) =~= inner);
    suffixed_joins(all, end);
    let work = batch_layers_events(
        b,
        run.hidden,
        run.scratch,
        run.slices,
        b.layers.len() as int,
    );
    assert(after == before + (prefix + work + end));
    assert((before + (prefix + work + end)).skip(before.len() as int) =~= prefix + (work + end));
}

/// The tokens of a sequence as a pass begins with them.
pub open spec fn embedded<R>(
    k: Kernels<R>,
    mem: Memory<R>,
    weights: WeightStore,
    tokens: Seq<u32>,
) -> Rows<R> {
    words(k, tokens, operand(mem, weights.token_embedding@))
}

/// The embeddings of the tokens of each sequence.
pub open spec fn embedded_parts<R>(
    k: Kernels<R>,
    mem: Memory<R>,
    weights: WeightStore,
    runs: Seq<Seq<u32>>,
) -> spec_fn(int) -> Rows<R> {
    |j: int| embedded(k, mem, weights, runs[j])
}

/// A finished pass over a batch answers each sequence with what the model says of its own
/// tokens and those that are cached of it, and the cache then holds the keys and values of the
/// new tokens of each sequence behind those that it held. This holds whatever the kernels
/// compute, on a device that gives out fresh memory and hands out what its tensors hold.
pub proof fn batched_passes_compute_the_model<R>(
    k: Kernels<R>,
    mem: Memory<R>,
    weights: WeightStore,
    num_layers: int,
    seqs: Seq<SequenceSlice>,
    tensors: Seq<Seq<TensorInfo>>,
    exhausted: FractureError,
    m: CacheModel,
    before: Seq<DeviceEvent>,
    cache: CacheModel,
    after: Seq<DeviceEvent>,
    res: Result<BatchedOutput>,
    used: Set<TensorId>,
)
    requires
        batched_end(
            weights,
            num_layers,
            seqs,
            tensors,
            exhausted,
            m,
            before,
            cache,
            after,
            res,
        ),
        res is Ok,
        seqs.len() > 0,
        joined(token_runs(seqs)).len() <= usize::MAX,
        ({
            let b = batch_of(weights, num_layers, seqs, token_runs(seqs), m, tensors);
            &&& batch_is_sound(b)
            &&& batch_uses(b, weights.token_embedding@, used)
        }),
        gives_fresh_memory(used, after.skip(before.len() as int)),
        reads_are_true(k, mem, after.skip(before.len() as int)),
    ensures
        ({
            let b = batch_of(weights, num_layers, seqs, token_runs(seqs), m, tensors);
            let shape = seq![weights.config.hidden_size];
            let end = after_events(k, mem, after.skip(before.len() as int));
            let h = embedded_parts(k, mem, weights, token_runs(seqs));
            &&& res->Ok_0.logits@.len() == seqs.len()
            &&& forall|j: int|
                0 <= j < seqs.len() && seqs[j].token_ids@.len() > 0 ==> (
                #[trigger] res->Ok_0.logits@[j])@ == halves(
                    part_answer(k, mem, b, shape, j, h(j)),
                )
            &&& cache_follows_the_parts(k, mem, end, b, shape, h)
        }),
{
    let runs = token_runs(seqs);
    let tokens = joined(runs);
    let b = batch_of(weights, num_layers, seqs, runs, m, tensors);
    let run = choose|run: BatchRun|
        is_hidden(run.hidden, b.cfg, b.total) && run.fits(b) && (res matches Ok(out) ==> are_logits(
            out.logits@,
            run.rows,
        )) && #[trigger] run.ends(
            b,
            embed_events(weights, tokens, run.hidden),
            b.output_events(run.hidden, true, run.scratch, run.rows),
            exhausted,
            before,
            after,
            cache,
            None,
        );
    let hidden = run.hidden;
    let s = run.scratch;
    let input = embed_events(weights, tokens, hidden);
    let last = b.output_events(hidden, true, s, run.rows);
    finished_in_parts(b, run, input, last, exhausted, before, after, cache);
    let setup = input + all_allocated(s.list());
    let work = batch_layers_events(b, hidden, s, run.slices, b.layers.len() as int);
    fresh_parts(used, setup, work + last);
    true_parts(k, mem, setup, work + last);
    after_events_add(k, mem, setup, work + last);
    batch_setup_computes(k, mem, weights, tokens, hidden, s, used);
    let start = after_events(k, mem, setup);
    let used1 = used.union(pass_memory(hidden, s));
    let shape = seq![weights.config.hidden_size];
    assert(row_shape(hidden.shape) =~= shape);
    assert forall|l: int| 0 <= l < b.layers.len() implies weights_inside(
        #[trigger] b.layers[l],
        used1,
    ) && weights_outside(b.layers[l], pass_memory(hidden, s)) && weights_outside(
        b.layers[l],
        pool_memory(b.tensors),
    ) by {
        assert(weights_inside(b.layers[l], used));
    }
    parts_are_answered(k, mem, start, b, run, true, used1);
    let whole = by_parts(b, start[hidden.id]);
    let h = embedded_parts(k, mem, weights, runs);
    let end = after_events(k, mem, after.skip(before.len() as int));
    assert forall|j: int| 0 <= j < seqs.len() implies #[trigger] agree(
        whole(j),
        h(j),
        b.parts[j].n as int,
    ) by {
        token_rows(k, mem, weights, seqs, m, start[hidden.id], j);
    }
    assert forall|j: int| 0 <= j < seqs.len() && seqs[j].token_ids@.len() > 0 implies (
    #[trigger] res->Ok_0.logits@[j])@ == halves(part_answer(k, mem, b, shape, j, h(j))) by {
        assert(agree(whole(j), h(j), b.parts[j].n as int));
        part_fits(seqs, runs, m, j);
        assert(run.rows[j].bytes == part_answer(k, mem, b, shape, j, whole(j)));
        let layers = b.layers.len() as int;
        hidden_agrees(k, mem, b, shape, j, whole(j), h(j), layers);
        let x = part_hidden(k, mem, b, shape, j, whole(j), layers);
        let y = part_hidden(k, mem, b, shape, j, h(j), layers);
        assert(x(b.parts[j].n - 1) == y(b.parts[j].n - 1));
    }
    assert forall|i: int, j: int|
        0 <= i < b.layers.len() && 0 <= j < b.parts.len() implies #[trigger] part_cached(
        end,
        b,
        i,
        j,
    ) == part_extended(k, mem, b, shape, j, h(j), i) by {
        assert(agree(whole(j), h(j), b.parts[j].n as int));
        hidden_agrees(k, mem, b, shape, j, whole(j), h(j), i);
    }
}

/// The size and the place of a part.
proof fn part_fits(seqs: Seq<SequenceSlice>, runs: Seq<Seq<u32>>, m: CacheModel, j: int)
    requires
        runs.len() == seqs.len(),
        joined(runs).len() <= usize::MAX,
        0 <= j < seqs.len(),
    ensures
        parts_of(seqs, runs, m)[j].n == runs[j].len(),
        parts_of(seqs, runs, m)[j].offset == joined(runs.take(j)).len(),
{
    joined_split(runs, j + 1);
    assert(runs.take(j + 1).drop_last() =~= runs.take(j));
    assert(runs.take(j + 1).last() == runs[j]);
}

/// The embeddings of a part are those of its tokens.
proof fn token_rows<R>(
    k: Kernels<R>,
    mem: Memory<R>,
    weights: WeightStore,
    seqs: Seq<SequenceSlice>,
    m: CacheModel,
    h: Rows<R>,
    j: int,
)
    requires
        joined(token_runs(seqs)).len() <= usize::MAX,
        0 <= j < seqs.len(),
        h == embedded(k, mem, weights, joined(token_runs(seqs))),
    ensures
        ({
            let part = parts_of(seqs, token_runs(seqs), m)[j];
            agree(
                shifted(h, part.offset as int),
                embedded(k, mem, weights, token_runs(seqs)[j]),
                part.n as int,
            )
        }),
{
    let runs = token_runs(seqs);
    part_fits(seqs, runs, m, j);
    let part = parts_of(seqs, runs, m)[j];
    let got = shifted(h, part.offset as int);
    let right = embedded(k, mem, weights, runs[j]);
    assert forall|r: int| 0 <= r < part.n implies #[trigger] got(r) == right(r) by {
        joined_row(runs, j, r);
    }
}

/// The tokens of a part stand at the positions of its sequence, if every sequence has as many
/// positions as tokens.
pub proof fn parts_have_own_positions(
    weights: WeightStore,
    num_layers: int,
    seqs: Seq<SequenceSlice>,
    m: CacheModel,
    tensors: Seq<Seq<TensorInfo>>,
    j: int,
)
    requires
        joined(token_runs(seqs)).len() <= usize::MAX,
        0 <= j < seqs.len(),
        forall|i: int|
            0 <= i < seqs.len() ==> (#[trigger] seqs[i]).positions@.len()
                == seqs[i].token_ids@.len(),
    ensures
        part_positions(
            batch_of(weights, num_layers, seqs, token_runs(seqs), m, tensors),
            j,
        ) == seqs[j].positions@,
        parts_of(seqs, token_runs(seqs), m)[j].n == seqs[j].token_ids@.len(),
{
    let b = batch_of(weights, num_layers, seqs, token_runs(seqs), m, tensors);
    let runs = position_runs(seqs);
    part_fits(seqs, token_runs(seqs), m, j);
    same_lengths(seqs, j);
    assert forall|r: int| 0 <= r < seqs[j].positions@.len() implies part_positions(b, j)[r]
        == seqs[j].positions@[r] by {
        joined_row(runs, j, r);
    }
    assert(part_positions(b, j) =~= seqs[j].positions@);
}

/// As many positions as tokens come before each sequence.
proof fn same_lengths(seqs: Seq<SequenceSlice>, j: int)
    requires
        0 <= j <= seqs.len(),
        forall|i: int|
            0 <= i < seqs.len() ==> (#[trigger] seqs[i]).positions@.len()
                == seqs[i].token_ids@.len(),
    ensures
        joined(position_runs(seqs).take(j)).len() == joined(token_runs(seqs).take(j)).len(),
    decreases j,
{
    let p = position_runs(seqs);
    let t = token_runs(seqs);
    if j > 0 {
        same_lengths(seqs, j - 1);
        assert(p.take(j).drop_last() =~= p.take(j - 1));
        assert(t.take(j).drop_last() =~= t.take(j - 1));
        assert(seqs[j - 1].positions@.len() == seqs[j - 1].token_ids@.len());
    } else {
        assert(p.take(0) =~= Seq::empty());
        assert(t.take(0) =~= Seq::empty());
    }
}

/// What the model says of a part of a batch is what it says of a pass over that sequence alone,
/// with the same tokens, positions and cache.
pub proof fn parts_are_passes<R>(
    k: Kernels<R>,
    mem: Memory<R>,
    b: Batch,
    p: Pass,
    j: int,
    h: Rows<R>,
    l: int,
)
    requires
        batch_is_sound(b),
        0 <= j < b.parts.len(),
        b.cache.seqs[b.parts[j].handle.0].wf(),
        p.cfg == b.cfg,
        p.layers == b.layers,
        p.positions() == part_positions(b, j),
        p.n() == b.parts[j].n,
        l <= b.layers.len(),
    ensures
        ({
            let past = paged_pasts(
                mem,
                b.tensors,
                b.cache.seqs[b.parts[j].handle.0],
                b.layers.len(),
            );
            part_hidden(k, mem, b, hidden_row(p), j, h, l) == hidden_after(k, mem, p, past, h, l)
        }),
    decreases l,
{
    if l > 0 {
        parts_are_passes(k, mem, b, p, j, h, l - 1);
        part_is_counted(b, j);
        let part = b.parts[j];
        let s = b.cache.seqs[part.handle.0];
        growing_keeps_rows(
            mem,
            b.tensors,
            s,
            appended(b.cache, b.parts, 0, j).free,
            part.n as int,
            l - 1,
        );
        assert(pass_layer(mem, p, l - 1) == batch_layer(mem, b, hidden_row(p), l - 1));
    }
}

/// The hidden state that a node begins with for each part: the embeddings of its tokens, or its
/// rows of the activations that the node is given.
pub open spec fn node_input<R>(
    k: Kernels<R>,
    mem: Memory<R>,
    weights: WeightStore,
    node: NodeConfig,
    seqs: Seq<SequenceSlice>,
    input: Option<TensorInfo>,
    b: Batch,
) -> spec_fn(int) -> Rows<R> {
    if node.head() {
        embedded_parts(k, mem, weights, token_runs(seqs))
    } else {
        by_parts(b, mem[input->Some_0.id])
    }
}

/// The output of a node, if the model says so: the logits of the last token of each part, one
/// part after the other, or the hidden state of each part in its place.
pub open spec fn gives_the_parts_output<R>(
    k: Kernels<R>,
    mem: Memory<R>,
    end: Memory<R>,
    b: Batch,
    node: NodeConfig,
    shape: Seq<usize>,
    h: spec_fn(int) -> Rows<R>,
    out: NodeOutputInfo,
) -> bool {
    match out {
        NodeOutputInfo::Logits(l) => node.tail() && l == joined(
            Seq::new(b.parts.len(), |j: int| halves(part_answer(k, mem, b, shape, j, h(j)))),
        ),
        NodeOutputInfo::Activations(t) => !node.tail() && forall|j: int|
            0 <= j < b.parts.len() ==> agree(
                #[trigger] shifted(end[t.id], b.parts[j].offset as int),
                part_hidden(k, mem, b, shape, j, h(j), b.layers.len() as int),
                b.parts[j].n as int,
            ),
    }
}

/// What precedes the layers of a node that is given activations.
proof fn given_setup<R>(
    k: Kernels<R>,
    mem: Memory<R>,
    hidden: TensorInfo,
    s: ScratchInfo,
    used: Set<TensorId>,
)
    requires
        used.contains(hidden.id),
        gives_fresh_memory(used, Seq::<DeviceEvent>::empty() + all_allocated(s.list())),
    ensures
        ({
            let events = Seq::<DeviceEvent>::empty() + all_allocated(s.list());
            &&& after_events(k, mem, events) == mem
            &&& have_own_memory(hidden, s)
            &&& in_use(used, events) == used.union(pass_memory(hidden, s))
            &&& forall|id: TensorId|
                #[trigger] pass_memory(hidden, s).contains(id) && used.contains(id) ==> id
                    == hidden.id
        }),
{
    let events = all_allocated(s.list());
    assert(Seq::<DeviceEvent>::empty() + events =~= events);
    after_allocations(k, mem, s.list());
    fresh_tensors(used, s.list());
    let l = ids(seq![hidden] + s.list());
    let t = ids(s.list());
    assert forall|i: int, j: int| 0 <= i < l.len() && 0 <= j < l.len() && i != j implies l[i]
        != l[j] by {
        assert(i > 0 ==> l[i] == t[i - 1] && l[i] == s.list()[i - 1].id);
        assert(j > 0 ==> l[j] == t[j - 1] && l[j] == s.list()[j - 1].id);
    }
    assert forall|id: TensorId| pass_memory(hidden, s).contains(id) <==> id == hidden.id
        || t.to_set().contains(id) by {
        if l.contains(id) {
            let i = l.index_of(id);
            if i > 0 {
                assert(t[i - 1] == id);
            }
        }
        if t.contains(id) {
            let i = t.index_of(id);
            assert(l[i + 1] == id);
        }
        assert(l[0] == hidden.id);
    }
    assert forall|id: TensorId| t.to_set().contains(id) implies !used.contains(id) by {
        let i = t.index_of(id);
        assert(s.list()[i].id == id);
    }
    assert(used.union(t.to_set()) =~= used.union(pass_memory(hidden, s)));
}

/// The layers of a batch, with nothing but the release of tensors after them.
proof fn parts_are_handed_on<R>(
    k: Kernels<R>,
    mem: Memory<R>,
    start: Memory<R>,
    b: Batch,
    run: BatchRun,
    used: Set<TensorId>,
)
    requires
        batch_is_sound(b),
        batch_is_apart(b, run.hidden, run.scratch, used),
        run.fits(b),
        changes_only(mem, start, set![run.hidden.id]),
        gives_fresh_memory(
            used,
            batch_layers_events(
                b,
                run.hidden,
                run.scratch,
                run.slices,
                b.layers.len() as int,
            ) + b.release_events(run.hidden, false, run.scratch),
        ),
    ensures
        ({
            let shape = row_shape(run.hidden.shape);
            let h = by_parts(b, start[run.hidden.id]);
            let end = after_events(
                k,
                start,
                batch_layers_events(
                    b,
                    run.hidden,
                    run.scratch,
                    run.slices,
                    b.layers.len() as int,
                ) + b.release_events(run.hidden, false, run.scratch),
            );
            &&& forall|j: int|
                0 <= j < b.parts.len() ==> agree(
                    #[trigger] shifted(end[run.hidden.id], b.parts[j].offset as int),
                    part_hidden(k, mem, b, shape, j, h(j), b.layers.len() as int),
                    b.parts[j].n as int,
                )
            &&& cache_follows_the_parts(k, mem, end, b, shape, h)
        }),
{
    let work = batch_layers_events(
        b,
        run.hidden,
        run.scratch,
        run.slices,
        b.layers.len() as int,
    );
    let gone = Seq::<TensorInfo>::empty() + run.scratch.list();
    let calls = seq![DeviceCall::Synchronize] + frees(gone);
    fresh_parts(used, work, all_done(calls));
    after_events_add(k, start, work, all_done(calls));
    layers_follow(k, mem, start, b, run, used);
    let m = after_events(k, start, work);
    after_done(k, m, calls);
    after_calls_add(k, m, seq![DeviceCall::Synchronize], frees(gone));
    after_one_call(k, m, DeviceCall::Synchronize);
    after_releases(k, m, gone);
}

/// The rows of each part are the same, whether they are taken from all tokens or from its own.
proof fn same_parts<R>(
    k: Kernels<R>,
    mem: Memory<R>,
    end: Memory<R>,
    b: Batch,
    shape: Seq<usize>,
    x: spec_fn(int) -> Rows<R>,
    y: spec_fn(int) -> Rows<R>,
)
    requires
        forall|j: int|
            0 <= j < b.parts.len() ==> #[trigger] agree(x(j), y(j), b.parts[j].n as int),
        cache_follows_the_parts(k, mem, end, b, shape, x),
    ensures
        cache_follows_the_parts(k, mem, end, b, shape, y),
        forall|j: int|
            0 <= j < b.parts.len() ==> #[trigger] agree(
                part_hidden(k, mem, b, shape, j, x(j), b.layers.len() as int),
                part_hidden(k, mem, b, shape, j, y(j), b.layers.len() as int),
                b.parts[j].n as int,
            ),
{
    assert forall|i: int, j: int|
        0 <= i < b.layers.len() && 0 <= j < b.parts.len() implies #[trigger] part_cached(
        end,
        b,
        i,
        j,
    ) == part_extended(k, mem, b, shape, j, y(j), i) by {
        assert(agree(x(j), y(j), b.parts[j].n as int));
        hidden_agrees(k, mem, b, shape, j, x(j), y(j), i);
    }
    assert forall|j: int| 0 <= j < b.parts.len() implies #[trigger] agree(
        part_hidden(k, mem, b, shape, j, x(j), b.layers.len() as int),
        part_hidden(k, mem, b, shape, j, y(j), b.layers.len() as int),
        b.parts[j].n as int,
    ) by {
        assert(agree(x(j), y(j), b.parts[j].n as int));
        hidden_agrees(k, mem, b, shape, j, x(j), y(j), b.layers.len() as int);
    }
}

/// The part of each sequence by its positions is its part by its tokens.
proof fn same_parts_of(seqs: Seq<SequenceSlice>, m: CacheModel, j: int)
    requires
        0 <= j < seqs.len(),
        forall|i: int|
            0 <= i < seqs.len() ==> (#[trigger] seqs[i]).positions@.len()
                == seqs[i].token_ids@.len(),
    ensures
        parts_of(seqs, position_runs(seqs), m)[j] == parts_of(seqs, token_runs(seqs), m)[j],
{
    same_lengths(seqs, j);
    assert(seqs[j].positions@.len() == seqs[j].token_ids@.len());
}

/// A finished pass of a node over a batch computes for each sequence what the model says of it:
/// from its tokens, or its rows of the activations, on to its logits, or its rows of the
/// activations that are handed on. The cache then holds the keys and values of the new tokens of
/// each sequence behind those that it held.
pub proof fn batched_nodes_compute_the_model<R>(
    k: Kernels<R>,
    mem: Memory<R>,
    weights: WeightStore,
    node: NodeConfig,
    seqs: Seq<SequenceSlice>,
    input: Option<TensorInfo>,
    tensors: Seq<Seq<TensorInfo>>,
    exhausted: FractureError,
    m: CacheModel,
    before: Seq<DeviceEvent>,
    cache: CacheModel,
    after: Seq<DeviceEvent>,
    res: Result<NodeOutput>,
    used: Set<TensorId>,
)
    requires
        batched_node_end(
            weights,
            node,
            seqs,
            input,
            tensors,
            exhausted,
            m,
            before,
            cache,
            after,
            res,
        ),
        res is Ok,
        joined(position_runs(seqs)).len() <= usize::MAX,
        node.head() ==> forall|i: int|
            0 <= i < seqs.len() ==> (#[trigger] seqs[i]).positions@.len()
                == seqs[i].token_ids@.len(),
        node.tail() ==> forall|i: int|
            0 <= i < seqs.len() ==> (#[trigger] seqs[i]).positions@.len() > 0,
        ({
            let b = batch_of(
                weights,
                range_len(node.layer_range),
                seqs,
                position_runs(seqs),
                m,
                tensors,
            );
            &&& batch_is_sound(b)
            &&& batch_uses(b, weights.token_embedding@, used)
            &&& !node.head() ==> {
                let t = input->Some_0;
                &&& used.contains(t.id)
                &&& !pool_memory(tensors).contains(t.id)
                &&& t.id != b.output_norm.id
                &&& t.id != b.lm_head.id
                &&& t.shape.len() == 2
                &&& forall|l: int|
                    0 <= l < b.layers.len() ==> weights_outside(
                        #[trigger] b.layers[l],
                        set![t.id],
                    )
            }
        }),
        gives_fresh_memory(used, after.skip(before.len() as int)),
        reads_are_true(k, mem, after.skip(before.len() as int)),
    ensures
        ({
            let b = batch_of(
                weights,
                range_len(node.layer_range),
                seqs,
                position_runs(seqs),
                m,
                tensors,
            );
            let shape = seq![weights.config.hidden_size];
            let end = after_events(k, mem, after.skip(before.len() as int));
            let h = node_input(k, mem, weights, node, seqs, input, b);
            &&& gives_the_parts_output(k, mem, end, b, node, shape, h, res->Ok_0@)
            &&& cache_follows_the_parts(k, mem, end, b, shape, h)
        }),
{
    let tokens = joined(token_runs(seqs));
    let b = batch_of(
        weights,
        range_len(node.layer_range),
        seqs,
        position_runs(seqs),
        m,
        tensors,
    );
    let run = choose|run: BatchRun|
        node_can_hide(b, node, input, run.hidden) && run.fits(b) && (res matches Ok(out) ==> out@
            == node_output(node, run)) && #[trigger] run.ends(
            b,
            node_input_events(weights, node, seqs, run.hidden),
            node_end_events(b, node, run),
            exhausted,
            before,
            after,
            cache,
            None,
        );
    let hidden = run.hidden;
    let s = run.scratch;
    let given = node_input_events(weights, node, seqs, hidden);
    let last = node_end_events(b, node, run);
    finished_in_parts(b, run, given, last, exhausted, before, after, cache);
    let setup = given + all_allocated(s.list());
    let work = batch_layers_events(b, hidden, s, run.slices, b.layers.len() as int);
    fresh_parts(used, setup, work + last);
    true_parts(k, mem, setup, work + last);
    after_events_add(k, mem, setup, work + last);
    if node.head() {
        batch_setup_computes(k, mem, weights, tokens, hidden, s, used);
    } else {
        given_setup(k, mem, hidden, s, used);
    }
    let start = after_events(k, mem, setup);
    let used1 = used.union(pass_memory(hidden, s));
    let shape = seq![weights.config.hidden_size];
    assert(row_shape(hidden.shape) =~= shape);
    assert forall|l: int| 0 <= l < b.layers.len() implies weights_inside(
        #[trigger] b.layers[l],
        used1,
    ) && weights_outside(b.layers[l], pass_memory(hidden, s)) && weights_outside(
        b.layers[l],
        pool_memory(b.tensors),
    ) by {
        assert(weights_inside(b.layers[l], used));
        if !node.head() {
            assert(weights_outside(b.layers[l], set![hidden.id]));
        }
    }
    let whole = by_parts(b, start[hidden.id]);
    let h = node_input(k, mem, weights, node, seqs, input, b);
    let end = after_events(k, mem, after.skip(before.len() as int));
    assert(pass_memory(hidden, s).disjoint(pool_memory(b.tensors)));
    assert(!pass_memory(hidden, s).contains(b.output_norm.id));
    assert(!pass_memory(hidden, s).contains(b.lm_head.id));
    assert(batch_is_apart(b, hidden, s, used1));
    if node.tail() {
        parts_are_answered(k, mem, start, b, run, node.head(), used1);
    } else {
        parts_are_handed_on(k, mem, start, b, run, used1);
    }
    assert forall|j: int| 0 <= j < b.parts.len() implies #[trigger] agree(
        whole(j),
        h(j),
        b.parts[j].n as int,
    ) by {
        if node.head() {
            same_parts_of(seqs, m, j);
            token_rows(k, mem, weights, seqs, m, start[hidden.id], j);
        }
    }
    same_parts(k, mem, end, b, shape, whole, h);
    node_output_follows(k, mem, end, b, node, run, shape, whole, h, seqs, m);
}

/// The output of a node follows from what its batch computed.
proof fn node_output_follows<R>(
    k: Kernels<R>,
    mem: Memory<R>,
    end: Memory<R>,
    b: Batch,
    node: NodeConfig,
    run: BatchRun,
    shape: Seq<usize>,
    x: spec_fn(int) -> Rows<R>,
    y: spec_fn(int) -> Rows<R>,
    seqs: Seq<SequenceSlice>,
    m: CacheModel,
)
    requires
        b.rows_fit(run.rows),
        b.parts == parts_of(seqs, position_runs(seqs), m),
        joined(position_runs(seqs)).len() <= usize::MAX,
        node.tail() ==> forall|i: int|
            0 <= i < seqs.len() ==> (#[trigger] seqs[i]).positions@.len() > 0,
        forall|j: int|
            0 <= j < b.parts.len() ==> #[trigger] agree(
                part_hidden(k, mem, b, shape, j, x(j), b.layers.len() as int),
                part_hidden(k, mem, b, shape, j, y(j), b.layers.len() as int),
                b.parts[j].n as int,
            ),
        node.tail() ==> forall|j: int|
            0 <= j < b.parts.len() && b.parts[j].n > 0 ==> (#[trigger] run.rows[j]).bytes
                == part_answer(k, mem, b, shape, j, x(j)),
        !node.tail() ==> forall|j: int|
            0 <= j < b.parts.len() ==> agree(
                #[trigger] shifted(end[run.hidden.id], b.parts[j].offset as int),
                part_hidden(k, mem, b, shape, j, x(j), b.layers.len() as int),
                b.parts[j].n as int,
            ),
    ensures
        gives_the_parts_output(k, mem, end, b, node, shape, y, node_output(node, run)),
{
    let layers = b.layers.len() as int;
    if node.tail() {
        let right = Seq::new(
            b.parts.len(),
            |j: int| halves(part_answer(k, mem, b, shape, j, y(j))),
        );
        let got = run.rows.map_values(|o: OutputInfo| halves(o.bytes));
        assert forall|j: int| 0 <= j < b.parts.len() implies got[j] == right[j] by {
            assert(seqs[j].positions@.len() > 0);
            part_fits(seqs, position_runs(seqs), m, j);
            let xs = part_hidden(k, mem, b, shape, j, x(j), layers);
            let ys = part_hidden(k, mem, b, shape, j, y(j), layers);
            assert(agree(xs, ys, b.parts[j].n as int));
            assert(xs(b.parts[j].n - 1) == ys(b.parts[j].n - 1));
            assert(run.rows[j].bytes == part_answer(k, mem, b, shape, j, x(j)));
        }
        assert(got =~= right);
    } else {
        assert forall|j: int| 0 <= j < b.parts.len() implies agree(
            #[trigger] shifted(end[run.hidden.id], b.parts[j].offset as int),
            part_hidden(k, mem, b, shape, j, y(j), layers),
            b.parts[j].n as int,
        ) by {
            let got = shifted(end[run.hidden.id], b.parts[j].offset as int);
            let xs = part_hidden(k, mem, b, shape, j, x(j), layers);
            let ys = part_hidden(k, mem, b, shape, j, y(j), layers);
            assert(agree(xs, ys, b.parts[j].n as int));
            assert forall|r: int| 0 <= r < b.parts[j].n implies #[trigger] got(r) == ys(r) by {
                assert(got(r) == xs(r));
                assert(xs(r) == ys(r));
            }
        }
    }
}

} // verus!

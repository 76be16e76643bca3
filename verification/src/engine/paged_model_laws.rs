//! Forward passes over a paged cache compute what the model says.
use crate::base::backend::{done, DeviceCall, DeviceEvent};
use crate::base::dataflow::{
    after_call, after_calls, after_done, after_events, after_events_add, changes_only, first,
    fresh_parts, gives_fresh_memory, ids, in_use, in_use_add, reads_are_true, rows_of, true_parts,
    use_stays, Kernels, Memory,
};
use crate::base::error::{FractureError, Result};
use crate::base::program::{all_done, joined, joined_one, step_calls};
use crate::base::tensor::{TensorId, TensorInfo};
use crate::engine::block_rows::{
    appends_follow_the_others, attention_gathers, block_tensor, paged, pool_is_apart, pool_memory,
    row_at, table_is_sound, table_memory, table_memory_in_pool,
};
use crate::engine::block_table::{chunks_from, has_slot, partitioned, slot, BlocksInfo, Chunk};
use crate::engine::contiguous::layer_name;
use crate::engine::kv_cache::CacheHandle;
use crate::engine::model::{
    have_own_memory, own_memory, pass_memory, projections_compute, residuals_compute, scratch_rows,
    weights_outside, weights_stay, Past,
};
use crate::engine::model_laws::{
    after_nothing, after_one, calls_keep_use, end_computes, gives_the_models_output, hidden_after,
    hidden_has_rows, keeps_use, keeps_use_add, layer_parts_release_nothing, memory_is_apart,
    model_outside, pass_input, pass_layer, pass_result, same_hidden_states, setup_computes,
    weights_inside,
};
use crate::engine::node::{NodeInputInfo, NodeOutput};
use crate::engine::paged::{attention_call, paged_end, paged_outcome, PagedRun, PagedState};
use crate::engine::paged_kv_cache::{append_calls, write_calls};
use crate::engine::pass::Pass;
use crate::engine::transformer::{finish_steps, head_views, project_steps};
use vstd::prelude::*;

verus! {

/// The pool has memory of its own, apart from what else a pass is given, and block numbers
/// that the attention kernel can take.
pub open spec fn pool_is_for(p: Pass, tensors: Seq<Seq<TensorInfo>>) -> bool {
    &&& pool_is_apart(tensors, p.layers.len() as int)
    &&& tensors.len() <= i32::MAX
    &&& model_outside(p, pool_memory(tensors))
    &&& p.input matches NodeInputInfo::Activations { hidden_states, .. } ==> !pool_memory(
        tensors,
    ).contains(hidden_states.id) && model_outside(p, set![hidden_states.id])
}

/// The tensors that a pass is given: the weights, the pool and the activations.
pub open spec fn paged_pass_uses(
    p: Pass,
    tensors: Seq<Seq<TensorInfo>>,
    used: Set<TensorId>,
) -> bool {
    &&& forall|i: int|
        0 <= i < p.layers.len() ==> weights_inside(#[trigger] p.layers[i], used)
    &&& used.contains(p.token_embedding.id)
    &&& used.contains(p.output_norm.id)
    &&& used.contains(p.lm_head.id)
    &&& pool_memory(tensors).subset_of(used)
    &&& p.input matches NodeInputInfo::Activations { hidden_states, .. } ==> used.contains(
        hidden_states.id,
    )
}

/// The tokens of the sequence lie in its blocks, and `n` of them are new.
pub open spec fn holds_tokens(tensors: Seq<Seq<TensorInfo>>, t: BlocksInfo, n: int) -> bool {
    &&& table_is_sound(tensors, t.table)
    &&& 0 <= n <= t.len <= 16 * t.table.len()
}

/// The cache of another layer is not touched.
proof fn layers_do_not_mix<R>(
    before: Memory<R>,
    after: Memory<R>,
    tensors: Seq<Seq<TensorInfo>>,
    layers: int,
    table: Seq<usize>,
    i: int,
    j: int,
    n: int,
    own: Set<TensorId>,
)
    requires
        pool_is_apart(tensors, layers),
        table_is_sound(tensors, table),
        0 <= i < layers,
        0 <= j < layers,
        i != j,
        0 <= n <= 16 * table.len(),
        own.disjoint(pool_memory(tensors)),
        changes_only(before, after, own.union(table_memory(tensors, table, i))),
    ensures
        paged(after, tensors, table, j, n) == paged(before, tensors, table, j, n),
{
    assert forall|at: int, p: int|
        (at == 2 * j || at == 2 * j + 1) && 0 <= p < n implies #[trigger] row_at(
        after,
        tensors,
        table,
        at,
        p,
    ) == row_at(before, tensors, table, at, p) by {
        let b = table[p / 16] as int;
        assert(0 <= p / 16 < table.len());
        let id = block_tensor(tensors, b, at);
        assert(tensors[b].len() >= 2 * layers);
        assert(pool_memory(tensors).contains(id));
        if table_memory(tensors, table, i).contains(id) {
            let x = choose|x: int|
                #![trigger table[x]]
                0 <= x < table.len() && (block_tensor(tensors, table[x] as int, 2 * i) == id
                    || block_tensor(tensors, table[x] as int, 2 * i + 1) == id);
            assert(table[x] < tensors.len());
            assert(false);
        }
        assert(!own.union(table_memory(tensors, table, i)).contains(id));
    }
    assert(paged(after, tensors, table, j, n).keys =~= paged(before, tensors, table, j, n).keys);
    assert(paged(after, tensors, table, j, n).values =~= paged(
        before,
        tensors,
        table,
        j,
        n,
    ).values);
}

/// The cache does not change where nothing in the pool does.
pub(crate) proof fn pool_stays<R>(
    before: Memory<R>,
    after: Memory<R>,
    tensors: Seq<Seq<TensorInfo>>,
    layers: int,
    table: Seq<usize>,
    j: int,
    n: int,
)
    requires
        pool_is_apart(tensors, layers),
        table_is_sound(tensors, table),
        0 <= j < layers,
        0 <= n <= 16 * table.len(),
        forall|id: TensorId| pool_memory(tensors).contains(id) ==> #[trigger] after[id]
            == before[id],
    ensures
        paged(after, tensors, table, j, n) == paged(before, tensors, table, j, n),
{
    assert forall|at: int, p: int|
        (at == 2 * j || at == 2 * j + 1) && 0 <= p < n implies #[trigger] row_at(
        after,
        tensors,
        table,
        at,
        p,
    ) == row_at(before, tensors, table, at, p) by {
        let b = table[p / 16] as int;
        assert(0 <= p / 16 < table.len());
        assert(tensors[b].len() >= 2 * layers);
        assert(pool_memory(tensors).contains(block_tensor(tensors, b, at)));
    }
    assert(paged(after, tensors, table, j, n).keys =~= paged(before, tensors, table, j, n).keys);
    assert(paged(after, tensors, table, j, n).values =~= paged(
        before,
        tensors,
        table,
        j,
        n,
    ).values);
}

/// A layer of a pass over a paged cache computes what the model says, as one over a contiguous
/// cache does.
pub proof fn paged_layers_compute_the_model<R>(
    k: Kernels<R>,
    mem: Memory<R>,
    p: Pass,
    run: PagedRun,
    tensors: Seq<Seq<TensorInfo>>,
    t: BlocksInfo,
    i: int,
)
    requires
        0 <= i < p.layers.len(),
        run.fits(p),
        have_own_memory(run.hidden, run.scratch),
        pool_is_for(p, tensors),
        holds_tokens(tensors, t, p.n() as int),
        pass_memory(run.hidden, run.scratch).disjoint(pool_memory(tensors)),
        weights_outside(p.layers[i], pass_memory(run.hidden, run.scratch)),
    ensures
        ({
            let m = after_events(k, mem, run.begin(p, i) + run.attend(p, tensors, t, i));
            let layer = pass_layer(mem, p, i);
            let h = mem[run.hidden.id];
            let n = p.n() as int;
            let past = paged(mem, tensors, t.table, i, t.len - n);
            &&& m[run.hidden.id] == layer.output(k, h, p.positions(), n, past)
            &&& paged(m, tensors, t.table, i, t.len as int) == layer.extended(
                k,
                h,
                p.positions(),
                n,
                past,
            )
            &&& changes_only(
                mem,
                m,
                pass_memory(run.hidden, run.scratch).union(table_memory(tensors, t.table, i)),
            )
        }),
{
    let hidden = run.hidden;
    let s = run.scratch;
    let n = p.n();
    let w = p.layers[i];
    let v = head_views(p.cfg, s, n);
    let start = t.len - n;
    let own = pass_memory(hidden, s);
    own_memory(hidden, s);
    hidden_has_rows(p, hidden);
    scratch_rows(p.cfg, s, n);
    table_memory_in_pool(tensors, p.layers.len() as int, t.table, i);
    let push = seq![done(DeviceCall::MarkerPush { name: layer_name(p.first + i) })];
    let project = step_calls(project_steps(p.cfg, w, hidden, s, n, p.positions()));
    let writes = write_calls(tensors, t, i, v.k, v.v, n as int);
    let call = attention_call(
        p.cfg,
        tensors,
        t.table,
        i,
        v.q,
        t.len,
        start as usize,
        v.attn,
    );
    let attend = seq![done(call)];
    let finish = step_calls(finish_steps(p.cfg, w, hidden, s, n));
    let pop = seq![done(DeviceCall::MarkerPop)];
    let m1 = after_calls(k, mem, project);
    let m2 = after_calls(k, m1, writes);
    let m3 = after_call(k, m2, call);
    let m4 = after_calls(k, m3, finish);
    assert(after_events(k, mem, run.begin(p, i) + run.attend(p, tensors, t, i)) == m4) by {
        after_events_add(k, mem, run.begin(p, i), run.attend(p, tensors, t, i));
        after_events_add(k, mem, push, all_done(project));
        after_nothing(k, mem, push[0]);
        after_done(k, mem, project);
        after_events_add(k, m1, all_done(writes) + attend + all_done(finish), pop);
        after_events_add(k, m1, all_done(writes) + attend, all_done(finish));
        after_events_add(k, m1, all_done(writes), attend);
        after_done(k, m1, writes);
        after_one(k, m2, attend[0]);
        after_done(k, m3, finish);
        after_nothing(k, m4, pop[0]);
    }
    projections_compute(k, mem, p.cfg, w, hidden, s, n, p.positions());
    let l = ids(seq![hidden] + s.list());
    assert(own.contains(l[3]) && own.contains(l[4]) && own.contains(l[0]) && own.contains(l[2]));
    appends_follow_the_others(
        k,
        m1,
        tensors,
        p.layers.len() as int,
        t.table,
        i,
        v.k,
        v.v,
        start,
        n as int,
    );
    pool_stays(mem, m1, tensors, p.layers.len() as int, t.table, i, start);
    attention_gathers(m2, tensors, t.table, i, t.len as int);
    assert(m2[hidden.id] == m1[hidden.id]);
    assert(m2[s.q_flat.id] == m1[s.q_flat.id]);
    let layer = pass_layer(mem, p, i);
    let h = mem[hidden.id];
    let past = paged(mem, tensors, t.table, i, start);
    assert(paged(m2, tensors, t.table, i, t.len as int) == layer.extended(
        k,
        h,
        p.positions(),
        n as int,
        past,
    ));
    assert(m3[s.attn_out.id] == rows_of(layer.attended(k, h, p.positions(), n as int, past)));
    let written = own.union(table_memory(tensors, t.table, i));
    assert(own.contains(l[5]));
    assert(changes_only(mem, m3, written));
    assert(weights_outside(w, pool_memory(tensors)));
    assert(weights_outside(w, written));
    weights_stay(mem, m3, w, written);
    residuals_compute(k, m3, p.cfg, w, hidden, s, n);
    assert(m3[hidden.id] == h);
    assert forall|id: TensorId| pool_memory(tensors).contains(id) implies #[trigger] m4[id]
        == m2[id] by {
        assert(!own.contains(id));
    }
    pool_stays(m2, m4, tensors, p.layers.len() as int, t.table, i, t.len as int);
}

/// What is cached of a sequence, layer by layer.
pub open spec fn paged_pasts<R>(
    mem: Memory<R>,
    tensors: Seq<Seq<TensorInfo>>,
    t: BlocksInfo,
    layers: nat,
) -> Seq<Past<R>> {
    Seq::new(layers, |i: int| paged(mem, tensors, t.table, i, t.len as int))
}

/// What the first `l` layers leave of the memory before them. `t` has the new tokens counted
/// in, and `past` is what was cached before.
pub open spec fn paged_layers_left<R>(
    k: Kernels<R>,
    mem: Memory<R>,
    m: Memory<R>,
    p: Pass,
    run: PagedRun,
    tensors: Seq<Seq<TensorInfo>>,
    t: BlocksInfo,
    past: Seq<Past<R>>,
    l: int,
) -> bool {
    let n = p.n() as int;
    let h = mem[run.hidden.id];
    &&& m[run.hidden.id] == hidden_after(k, mem, p, past, h, l)
    &&& changes_only(
        mem,
        m,
        pass_memory(run.hidden, run.scratch).union(pool_memory(tensors)),
    )
    &&& forall|i: int|
        l <= i < p.layers.len() ==> #[trigger] paged(m, tensors, t.table, i, t.len - n) == past[i]
    &&& forall|i: int|
        0 <= i < l ==> #[trigger] paged(m, tensors, t.table, i, t.len as int) == pass_layer(
            mem,
            p,
            i,
        ).extended(k, hidden_after(k, mem, p, past, h, i), p.positions(), n, past[i])
}

proof fn paged_layers_leave<R>(
    k: Kernels<R>,
    mem: Memory<R>,
    p: Pass,
    run: PagedRun,
    tensors: Seq<Seq<TensorInfo>>,
    t: BlocksInfo,
    past: Seq<Past<R>>,
    l: int,
)
    requires
        0 <= l <= p.layers.len(),
        run.fits(p),
        have_own_memory(run.hidden, run.scratch),
        pool_is_for(p, tensors),
        holds_tokens(tensors, t, p.n() as int),
        pass_memory(run.hidden, run.scratch).disjoint(pool_memory(tensors)),
        model_outside(p, pass_memory(run.hidden, run.scratch)),
        past == Seq::new(
            p.layers.len(),
            |i: int| paged(mem, tensors, t.table, i, t.len - p.n()),
        ),
    ensures
        paged_layers_left(
            k,
            mem,
            after_events(k, mem, run.layers(p, tensors, t, 0, l)),
            p,
            run,
            tensors,
            t,
            past,
            l,
        ),
    decreases l,
{
    let own = pass_memory(run.hidden, run.scratch);
    let n = p.n() as int;
    let layers = p.layers.len() as int;
    if l > 0 {
        let i = l - 1;
        paged_layers_leave(k, mem, p, run, tensors, t, past, i);
        let before = run.layers(p, tensors, t, 0, i);
        let events = run.begin(p, i) + run.attend(p, tensors, t, i);
        assert(run.layers(p, tensors, t, 0, l) =~= before + events);
        after_events_add(k, mem, before, events);
        let m = after_events(k, mem, before);
        let m2 = after_events(k, m, events);
        assert(weights_outside(p.layers[i], own));
        assert(weights_outside(p.layers[i], pool_memory(tensors)));
        paged_layers_compute_the_model(k, m, p, run, tensors, t, i);
        let all = own.union(pool_memory(tensors));
        assert(weights_outside(p.layers[i], all));
        weights_stay(mem, m, p.layers[i], all);
        assert(pass_layer(m, p, i) == pass_layer(mem, p, i));
        assert(paged(m, tensors, t.table, i, t.len - n) == past[i]);
        table_memory_in_pool(tensors, layers, t.table, i);
        assert forall|j: int| l <= j < p.layers.len() implies #[trigger] paged(
            m2,
            tensors,
            t.table,
            j,
            t.len - n,
        ) == past[j] by {
            layers_do_not_mix(m, m2, tensors, layers, t.table, i, j, t.len - n, own);
            assert(paged(m, tensors, t.table, j, t.len - n) == past[j]);
        }
        assert forall|j: int| 0 <= j < l implies #[trigger] paged(
            m2,
            tensors,
            t.table,
            j,
            t.len as int,
        ) == pass_layer(mem, p, j).extended(
            k,
            hidden_after(k, mem, p, past, mem[run.hidden.id], j),
            p.positions(),
            n,
            past[j],
        ) by {
            if j < i {
                layers_do_not_mix(m, m2, tensors, layers, t.table, i, j, t.len as int, own);
                assert(paged(m, tensors, t.table, j, t.len as int) == paged(
                    m2,
                    tensors,
                    t.table,
                    j,
                    t.len as int,
                ));
            }
        }
        assert(changes_only(mem, m2, all));
    } else {
        assert(run.layers(p, tensors, t, 0, l) =~= Seq::empty());
        assert forall|i: int| l <= i < p.layers.len() implies #[trigger] paged(
            mem,
            tensors,
            t.table,
            i,
            t.len - n,
        ) == past[i] by {}
    }
}

/// Copies keep the tensors in use.
pub(crate) proof fn writes_keep_use(
    tensors: Seq<Seq<TensorInfo>>,
    table: Seq<usize>,
    layer: int,
    keys: TensorInfo,
    values: TensorInfo,
    chunks: Seq<Chunk>,
)
    ensures
        keeps_use(all_done(append_calls(tensors, table, layer, keys, values, chunks))),
    decreases chunks.len(),
{
    if chunks.len() > 0 {
        writes_keep_use(tensors, table, layer, keys, values, chunks.drop_last());
        let few = append_calls(tensors, table, layer, keys, values, chunks.drop_last());
        let all = append_calls(tensors, table, layer, keys, values, chunks);
        assert forall|i: int| 0 <= i < all.len() implies !((#[trigger] all_done(
            all,
        )[i]).call is Free) && !(all_done(all)[i].outcome is Tensor) by {
            if i < few.len() {
                assert(all_done(all)[i] == all_done(few)[i]);
            }
        }
    }
}

proof fn paged_layers_keep_use(
    p: Pass,
    run: PagedRun,
    tensors: Seq<Seq<TensorInfo>>,
    t: BlocksInfo,
    l: int,
)
    ensures
        keeps_use(run.layers(p, tensors, t, 0, l)),
    decreases l,
{
    if l > 0 {
        let i = l - 1;
        let s = run.scratch;
        let n = p.n();
        paged_layers_keep_use(p, run, tensors, t, i);
        layer_parts_release_nothing(p.cfg, p.layers[i], run.hidden, s, n, p.positions());
        let project = project_steps(p.cfg, p.layers[i], run.hidden, s, n, p.positions());
        let finish = finish_steps(p.cfg, p.layers[i], run.hidden, s, n);
        calls_keep_use(project);
        calls_keep_use(finish);
        let v = head_views(p.cfg, s, n);
        writes_keep_use(tensors, t.table, i, v.k, v.v, chunks_from(t.len - n, n as int, 0));
        let push = seq![done(DeviceCall::MarkerPush { name: layer_name(p.first + i) })];
        keeps_use_add(push, all_done(step_calls(project)));
        let writes = all_done(write_calls(tensors, t, i, v.k, v.v, n as int));
        let call = attention_call(
            p.cfg,
            tensors,
            t.table,
            i,
            v.q,
            t.len,
            (t.len - n) as usize,
            v.attn,
        );
        keeps_use_add(writes, seq![done(call)]);
        keeps_use_add(writes + seq![done(call)], all_done(step_calls(finish)));
        keeps_use_add(
            writes + seq![done(call)] + all_done(step_calls(finish)),
            seq![done(DeviceCall::MarkerPop)],
        );
        keeps_use_add(run.layers(p, tensors, t, 0, i), run.begin(p, i));
        keeps_use_add(
            run.layers(p, tensors, t, 0, i) + run.begin(p, i),
            run.attend(p, tensors, t, i),
        );
    } else {
        assert(run.layers(p, tensors, t, 0, l) =~= Seq::empty());
    }
}

proof fn paged_layers_split(
    p: Pass,
    run: PagedRun,
    tensors: Seq<Seq<TensorInfo>>,
    t: BlocksInfo,
    to: int,
)
    requires
        1 <= to,
    ensures
        run.layers(p, tensors, t, 0, to) == run.begin(p, 0) + run.attend(p, tensors, t, 0)
            + run.layers(p, tensors, t, 1, to),
    decreases to,
{
    let first = run.begin(p, 0) + run.attend(p, tensors, t, 0);
    if to == 1 {
        assert(run.layers(p, tensors, t, 0, 0) =~= Seq::empty());
        assert(run.layers(p, tensors, t, 1, 1) =~= Seq::empty());
        assert(run.layers(p, tensors, t, 0, 1) =~= first + run.layers(p, tensors, t, 1, 1));
    } else {
        paged_layers_split(p, run, tensors, t, to - 1);
        let rest = run.layers(p, tensors, t, 1, to - 1);
        let begin = run.begin(p, to - 1);
        let attend = run.attend(p, tensors, t, to - 1);
        assert(first + rest + begin + attend =~= first + (rest + begin + attend));
    }
}

/// What follows in a trace.
proof fn added_stages(
    before: Seq<DeviceEvent>,
    a: Seq<DeviceEvent>,
    b: Seq<DeviceEvent>,
    c: Seq<DeviceEvent>,
    d: Seq<DeviceEvent>,
    e: Seq<DeviceEvent>,
)
    ensures
        (before + ((a + b) + (c + d + e))).skip(before.len() as int) == a + (b + c + d) + e,
{
    assert((before + ((a + b) + (c + d + e))).skip(before.len() as int) =~= a + (b + c + d) + e);
}

/// The events of a finished pass. `t` is the sequence with the new tokens counted in.
proof fn finished_paged_run(
    p: Pass,
    handle: CacheHandle,
    tensors: Seq<Seq<TensorInfo>>,
    exhausted: FractureError,
    before: PagedState,
    after: PagedState,
    res: Result<NodeOutput>,
) -> (run: PagedRun)
    requires
        paged_end(p, handle, tensors, exhausted, before, after, res),
        res is Ok,
    ensures
        run.fits(p),
        res->Ok_0@ == p.output(run.hidden, run.output),
        before.cache.seqs.contains_key(handle.0),
        p.layers.len() > 0 ==> after.cache == before.cache.append(handle, 0, p.n() as int),
        p.layers.len() == 0 ==> after.cache == before.cache,
        ({
            let t = before.cache.append(handle, 0, p.n() as int).seqs[handle.0];
            after.trace.skip(before.trace.len() as int) == run.setup(p) + run.layers(
                p,
                tensors,
                t,
                0,
                p.layers.len() as int,
            ) + p.end_events(run.hidden, run.scratch, run.output)
        }),
{
    let run = choose|run: PagedRun|
        run.fits(p) && #[trigger] paged_outcome(
            p,
            handle,
            run,
            tensors,
            exhausted,
            before,
            after,
            res,
        );
    let t = before.cache.append(handle, 0, p.n() as int).seqs[handle.0];
    let len = p.layers.len() as int;
    let end = p.end_events(run.hidden, run.scratch, run.output);
    let stages = run.stages(p, tensors, t);
    let none = Seq::<DeviceEvent>::empty();
    if len == 0 {
        joined_one(run.setup(p) + end);
        assert(run.layers(p, tensors, t, 0, 0) =~= none);
        added_stages(before.trace, run.setup(p), none, none, none, end);
        assert((run.setup(p) + none) + (none + none + end) =~= run.setup(p) + end);
        assert(none + none + none =~= none);
    } else {
        assert(stages.drop_last() =~= seq![stages[0]]);
        joined_one(stages[0]);
        assert(joined(stages) == stages[0] + stages[1]);
        paged_layers_split(p, run, tensors, t, len);
        added_stages(
            before.trace,
            run.setup(p),
            run.begin(p, 0),
            run.attend(p, tensors, t, 0),
            run.layers(p, tensors, t, 1, len),
            end,
        );
    }
    run
}

/// What a pass leaves in the blocks of its sequence, if the model says so.
pub open spec fn blocks_follow_the_model<R>(
    k: Kernels<R>,
    mem: Memory<R>,
    end: Memory<R>,
    p: Pass,
    tensors: Seq<Seq<TensorInfo>>,
    t: BlocksInfo,
    past: Seq<Past<R>>,
) -> bool {
    forall|i: int|
        0 <= i < p.layers.len() ==> #[trigger] paged(end, tensors, t.table, i, t.len as int)
            == pass_layer(mem, p, i).extended(
            k,
            hidden_after(k, mem, p, past, pass_input(k, mem, p), i),
            p.positions(),
            p.n() as int,
            past[i],
        )
}

proof fn paged_phases_compute<R>(
    k: Kernels<R>,
    mem: Memory<R>,
    p: Pass,
    run: PagedRun,
    tensors: Seq<Seq<TensorInfo>>,
    t: BlocksInfo,
    past: Seq<Past<R>>,
    used: Set<TensorId>,
    m1: Memory<R>,
    m2: Memory<R>,
    used1: Set<TensorId>,
)
    requires
        run.fits(p),
        pool_is_for(p, tensors),
        p.layers.len() > 0 ==> holds_tokens(tensors, t, p.n() as int),
        past == Seq::new(
            p.layers.len(),
            |i: int| paged(mem, tensors, t.table, i, t.len - p.n()),
        ),
        paged_pass_uses(p, tensors, used),
        have_own_memory(run.hidden, run.scratch),
        memory_is_apart(p, run.hidden, run.scratch, used),
        m1[run.hidden.id] == pass_input(k, mem, p),
        changes_only(mem, m1, set![run.hidden.id]),
        m2 == after_events(k, m1, run.layers(p, tensors, t, 0, p.layers.len() as int)),
        used1 == used.union(pass_memory(run.hidden, run.scratch)),
        gives_fresh_memory(used1, p.end_events(run.hidden, run.scratch, run.output)),
        reads_are_true(k, m2, p.end_events(run.hidden, run.scratch, run.output)),
    ensures
        ({
            let end = after_events(k, m2, p.end_events(run.hidden, run.scratch, run.output));
            &&& gives_the_models_output(
                k,
                mem,
                end,
                p,
                past,
                p.output(run.hidden, run.output),
            )
            &&& blocks_follow_the_model(k, mem, end, p, tensors, t, past)
        }),
{
    let hidden = run.hidden;
    let s = run.scratch;
    let own = pass_memory(hidden, s);
    let layers = p.layers.len() as int;
    let input = pass_input(k, mem, p);
    own_memory(hidden, s);
    let list = ids(seq![hidden] + s.list());
    assert(own.contains(list[0]) && own.contains(list[1]));
    assert(model_outside(p, own)) by {
        assert forall|i: int| 0 <= i < p.layers.len() implies weights_outside(
            #[trigger] p.layers[i],
            own,
        ) by {
            assert(weights_inside(p.layers[i], used));
            if !p.owned() {
                assert(weights_outside(p.layers[i], set![hidden.id]));
            }
        }
    }
    assert(own.disjoint(pool_memory(tensors)));
    assert forall|id: TensorId| pool_memory(tensors).contains(id) implies #[trigger] m1[id]
        == mem[id] by {
        assert(id != hidden.id);
    }
    if layers > 0 {
        assert forall|i: int| 0 <= i < layers implies past[i] == #[trigger] paged(
            m1,
            tensors,
            t.table,
            i,
            t.len - p.n(),
        ) by {
            pool_stays(mem, m1, tensors, layers, t.table, i, t.len - p.n());
        }
        assert(past =~= Seq::new(
            p.layers.len(),
            |i: int| paged(m1, tensors, t.table, i, t.len - p.n()),
        ));
        paged_layers_leave(k, m1, p, run, tensors, t, past, layers);
    } else {
        assert(run.layers(p, tensors, t, 0, layers) =~= Seq::empty());
    }
    assert forall|i: int| 0 <= i < p.layers.len() implies pass_layer(m1, p, i)
        == #[trigger] pass_layer(mem, p, i) by {
        assert(weights_outside(p.layers[i], own));
        assert(weights_outside(p.layers[i], set![hidden.id]));
        weights_stay(mem, m1, p.layers[i], set![hidden.id]);
    }
    same_hidden_states(k, m1, mem, p, past, input, layers);
    assert(m2[hidden.id] == pass_result(k, mem, p, past));
    assert(m1[p.output_norm.id] == mem[p.output_norm.id]);
    assert(m1[p.lm_head.id] == mem[p.lm_head.id]);
    assert(m2[p.output_norm.id] == mem[p.output_norm.id]);
    assert(m2[p.lm_head.id] == mem[p.lm_head.id]);
    end_computes(k, m2, mem, p, hidden, s, run.output, past, used1);
    let m3 = after_events(k, m2, p.end_events(hidden, s, run.output));
    assert forall|i: int| 0 <= i < p.layers.len() implies #[trigger] paged(
        m3,
        tensors,
        t.table,
        i,
        t.len as int,
    ) == pass_layer(mem, p, i).extended(
        k,
        hidden_after(k, mem, p, past, input, i),
        p.positions(),
        p.n() as int,
        past[i],
    ) by {
        assert forall|id: TensorId| pool_memory(tensors).contains(id) implies #[trigger] m3[id]
            == m2[id] by {
            assert(used.contains(id));
            assert(!own.contains(id));
        }
        pool_stays(m2, m3, tensors, layers, t.table, i, t.len as int);
        same_hidden_states(k, m1, mem, p, past, input, i);
        assert(paged(m2, tensors, t.table, i, t.len as int) == paged(
            m3,
            tensors,
            t.table,
            i,
            t.len as int,
        ));
        assert(pass_layer(m1, p, i) == pass_layer(mem, p, i));
    }
}

proof fn paged_events_compute<R>(
    k: Kernels<R>,
    mem: Memory<R>,
    p: Pass,
    run: PagedRun,
    tensors: Seq<Seq<TensorInfo>>,
    t: BlocksInfo,
    past: Seq<Past<R>>,
    used: Set<TensorId>,
    events: Seq<DeviceEvent>,
)
    requires
        run.fits(p),
        pool_is_for(p, tensors),
        p.layers.len() > 0 ==> holds_tokens(tensors, t, p.n() as int),
        past == Seq::new(
            p.layers.len(),
            |i: int| paged(mem, tensors, t.table, i, t.len - p.n()),
        ),
        paged_pass_uses(p, tensors, used),
        events == run.setup(p) + run.layers(p, tensors, t, 0, p.layers.len() as int)
            + p.end_events(run.hidden, run.scratch, run.output),
        gives_fresh_memory(used, events),
        reads_are_true(k, mem, events),
    ensures
        gives_the_models_output(
            k,
            mem,
            after_events(k, mem, events),
            p,
            past,
            p.output(run.hidden, run.output),
        ),
        blocks_follow_the_model(k, mem, after_events(k, mem, events), p, tensors, t, past),
{
    let hidden = run.hidden;
    let s = run.scratch;
    let layers = p.layers.len() as int;
    let setup = run.setup(p);
    let work = run.layers(p, tensors, t, 0, layers);
    let end = p.end_events(hidden, s, run.output);
    let m1 = after_events(k, mem, setup);
    let m2 = after_events(k, m1, work);
    let used1 = used.union(pass_memory(hidden, s));
    fresh_parts(used, setup + work, end);
    fresh_parts(used, setup, work);
    true_parts(k, mem, setup + work, end);
    setup_computes(k, mem, p, hidden, s, used);
    assert(after_events(k, mem, setup + work) == m2) by {
        after_events_add(k, mem, setup, work);
    }
    assert(in_use(used, setup + work) == used1) by {
        in_use_add(used, setup, work);
        paged_layers_keep_use(p, run, tensors, t, layers);
        use_stays(used1, work);
    }
    assert(after_events(k, mem, setup + work + end) == after_events(k, m2, end)) by {
        after_events_add(k, mem, setup + work, end);
    }
    paged_phases_compute(k, mem, p, run, tensors, t, past, used, m1, m2, used1);
}

/// Tokens that were cached before stay where they are when the sequence grows.
pub(crate) proof fn growing_keeps_rows<R>(
    mem: Memory<R>,
    tensors: Seq<Seq<TensorInfo>>,
    s: BlocksInfo,
    free: Seq<usize>,
    n: int,
    layer: int,
)
    requires
        s.wf(),
    ensures
        paged(mem, tensors, s.grown(free, n).table, layer, s.len as int) == paged(
            mem,
            tensors,
            s.table,
            layer,
            s.len as int,
        ),
{
    let table = s.grown(free, n).table;
    assert forall|at: int, p: int| 0 <= p < s.len implies #[trigger] row_at(
        mem,
        tensors,
        table,
        at,
        p,
    ) == row_at(mem, tensors, s.table, at, p) by {
        assert(0 <= p / 16 < s.table.len());
        assert(table[p / 16] == s.table[p / 16]);
    }
    assert(paged(mem, tensors, table, layer, s.len as int).keys =~= paged(
        mem,
        tensors,
        s.table,
        layer,
        s.len as int,
    ).keys);
    assert(paged(mem, tensors, table, layer, s.len as int).values =~= paged(
        mem,
        tensors,
        s.table,
        layer,
        s.len as int,
    ).values);
}

/// A sequence of a cache that is in order has its tokens in its blocks.
pub(crate) proof fn sequences_hold_tokens(
    tensors: Seq<Seq<TensorInfo>>,
    seqs: Map<u64, BlocksInfo>,
    free: Seq<usize>,
    id: u64,
    n: int,
)
    requires
        tensors.len() <= i32::MAX,
        partitioned(seqs, free, tensors.len() as usize),
        seqs.contains_key(id),
        seqs[id].wf(),
        0 <= n <= seqs[id].len,
    ensures
        holds_tokens(tensors, seqs[id], n),
{
    let t = seqs[id].table;
    assert forall|i: int| 0 <= i < t.len() implies #[trigger] t[i] < tensors.len() by {
        assert(has_slot(seqs, id, i));
        assert(slot(seqs, id, i) == t[i]);
    }
    assert forall|i: int, j: int| 0 <= i < t.len() && 0 <= j < t.len() && i != j implies t[i]
        != t[j] by {
        assert(has_slot(seqs, id, i) && has_slot(seqs, id, j));
        assert(slot(seqs, id, i) == t[i] && slot(seqs, id, j) == t[j]);
    }
}

/// A finished pass over a paged cache computes what the model says of its tokens and those that
/// the blocks of the sequence hold, as a pass over a contiguous cache does of those that this
/// holds; and the blocks then hold the keys and values of the new tokens behind the others.
pub proof fn paged_passes_compute_the_model<R>(
    k: Kernels<R>,
    mem: Memory<R>,
    p: Pass,
    handle: CacheHandle,
    tensors: Seq<Seq<TensorInfo>>,
    exhausted: FractureError,
    before: PagedState,
    after: PagedState,
    res: Result<NodeOutput>,
    used: Set<TensorId>,
)
    requires
        paged_end(p, handle, tensors, exhausted, before, after, res),
        res is Ok,
        pool_is_for(p, tensors),
        paged_pass_uses(p, tensors, used),
        before.cache.seqs[handle.0].wf(),
        before.cache.seqs[handle.0].len + p.n() <= usize::MAX,
        partitioned(after.cache.seqs, after.cache.free, tensors.len() as usize),
        after.cache.seqs[handle.0].wf(),
        gives_fresh_memory(used, after.trace.skip(before.trace.len() as int)),
        reads_are_true(k, mem, after.trace.skip(before.trace.len() as int)),
    ensures
        ({
            let past = paged_pasts(mem, tensors, before.cache.seqs[handle.0], p.layers.len());
            let end = after_events(k, mem, after.trace.skip(before.trace.len() as int));
            &&& gives_the_models_output(k, mem, end, p, past, res->Ok_0@)
            &&& blocks_follow_the_model(
                k,
                mem,
                end,
                p,
                tensors,
                after.cache.seqs[handle.0],
                past,
            )
        }),
{
    let run = finished_paged_run(p, handle, tensors, exhausted, before, after, res);
    let n = p.n() as int;
    let s = before.cache.seqs[handle.0];
    let t = before.cache.append(handle, 0, n).seqs[handle.0];
    assert(t == s.grown(before.cache.free, n));
    let past = Seq::new(p.layers.len(), |i: int| paged(mem, tensors, t.table, i, t.len - n));
    let old_past = paged_pasts(mem, tensors, s, p.layers.len());
    assert forall|i: int| 0 <= i < p.layers.len() implies past[i] == old_past[i] by {
        growing_keeps_rows(mem, tensors, s, before.cache.free, n, i);
    }
    assert(past =~= old_past);
    if p.layers.len() > 0 {
        assert(after.cache.seqs[handle.0] == t);
        sequences_hold_tokens(tensors, after.cache.seqs, after.cache.free, handle.0, n);
    }
    paged_events_compute(
        k,
        mem,
        p,
        run,
        tensors,
        t,
        past,
        used,
        after.trace.skip(before.trace.len() as int),
    );
}

} // verus!

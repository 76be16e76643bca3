//! What a transformer computes, over the contents of tensors.
use crate::base::backend::DeviceCall;
use crate::base::dataflow::{
    after_call, after_calls, changes_only, first, gated, ids, normed, operand, products, row_shape,
    rows_of, sums, turned, Kernels, Memory, Operand, Rows,
};
use crate::base::model_config::ModelConfig;
use crate::base::program::{step_calls, StepCalls};
use crate::base::tensor::{TensorId, TensorInfo};
use crate::engine::transformer::{
    finish_steps, head_views, project_steps, scratch_shapes, ScratchInfo,
};
use crate::engine::weights::LayerWeightsInfo;
use vstd::prelude::*;

verus! {

/// The weights of a layer as the kernels take them.
pub struct LayerOperands<R> {
    pub q_proj: Operand<R>,
    pub k_proj: Operand<R>,
    pub v_proj: Operand<R>,
    pub o_proj: Operand<R>,
    pub gate_proj: Operand<R>,
    pub up_proj: Operand<R>,
    pub down_proj: Operand<R>,
    pub attn_norm: Operand<R>,
    pub ffn_norm: Operand<R>,
}

/// The weights of a layer as a device holds them.
pub open spec fn layer_operands<R>(mem: Memory<R>, w: LayerWeightsInfo) -> LayerOperands<R> {
    LayerOperands {
        q_proj: operand(mem, w.q_proj),
        k_proj: operand(mem, w.k_proj),
        v_proj: operand(mem, w.v_proj),
        o_proj: operand(mem, w.o_proj),
        gate_proj: operand(mem, w.gate_proj),
        up_proj: operand(mem, w.up_proj),
        down_proj: operand(mem, w.down_proj),
        attn_norm: operand(mem, w.attn_norm),
        ffn_norm: operand(mem, w.ffn_norm),
    }
}

/// One layer of a model, and the shape of a row of the hidden state that it is given.
pub struct Layer<R> {
    pub cfg: ModelConfig,
    pub w: LayerOperands<R>,
    pub shape: Seq<usize>,
}

/// The keys and values of the tokens before.
#[verifier::ext_equal]
pub struct Past<R> {
    pub keys: Seq<R>,
    pub values: Seq<R>,
}

impl<R> Layer<R> {
    /// The normalised input of attention.
    pub open spec fn attention_input(self, k: Kernels<R>, h: Rows<R>) -> Rows<R> {
        normed(k, h, self.shape, self.w.attn_norm, self.cfg.rms_norm_eps)
    }

    /// The queries of tokens at some positions.
    pub open spec fn queries(self, k: Kernels<R>, h: Rows<R>, positions: Seq<u32>) -> Rows<R> {
        turned(
            k,
            products(
                k,
                self.attention_input(k, h),
                seq![self.cfg.hidden_size],
                self.w.q_proj,
            ),
            seq![self.cfg.num_q_heads, self.cfg.head_dim],
            positions,
            self.cfg.rope_theta,
            self.cfg.head_dim,
        )
    }

    /// The keys of tokens at some positions.
    pub open spec fn keys(self, k: Kernels<R>, h: Rows<R>, positions: Seq<u32>) -> Rows<R> {
        turned(
            k,
            products(
                k,
                self.attention_input(k, h),
                seq![self.cfg.hidden_size],
                self.w.k_proj,
            ),
            seq![self.cfg.num_kv_heads, self.cfg.head_dim],
            positions,
            self.cfg.rope_theta,
            self.cfg.head_dim,
        )
    }

    /// The values of tokens.
    pub open spec fn values(self, k: Kernels<R>, h: Rows<R>) -> Rows<R> {
        products(k, self.attention_input(k, h), seq![self.cfg.hidden_size], self.w.v_proj)
    }

    /// The past with the keys and values of `n` more tokens.
    pub open spec fn extended(
        self,
        k: Kernels<R>,
        h: Rows<R>,
        positions: Seq<u32>,
        n: int,
        past: Past<R>,
    ) -> Past<R> {
        Past {
            keys: past.keys + first(self.keys(k, h, positions), n),
            values: past.values + first(self.values(k, h), n),
        }
    }

    /// Attention of `n` tokens over themselves and the tokens before.
    pub open spec fn attended(
        self,
        k: Kernels<R>,
        h: Rows<R>,
        positions: Seq<u32>,
        n: int,
        past: Past<R>,
    ) -> Seq<R> {
        let all = self.extended(k, h, positions, n, past);
        (k.attention)(
            first(self.queries(k, h, positions), n),
            seq![self.cfg.num_q_heads, self.cfg.head_dim],
            all.keys,
            all.values,
            self.cfg.num_kv_heads,
            past.keys.len() as usize,
        )
    }

    /// The hidden state with the projected result of attention added to it.
    pub open spec fn with_attention(self, k: Kernels<R>, h: Rows<R>, attention: Rows<R>) -> Rows<R> {
        sums(k, h, products(k, attention, seq![self.cfg.hidden_size], self.w.o_proj))
    }

    /// What the feed-forward network makes of a hidden state.
    pub open spec fn fed_forward(self, k: Kernels<R>, h: Rows<R>) -> Rows<R> {
        let input = normed(k, h, self.shape, self.w.ffn_norm, self.cfg.rms_norm_eps);
        products(
            k,
            gated(
                k,
                products(k, input, seq![self.cfg.hidden_size], self.w.gate_proj),
                products(k, input, seq![self.cfg.hidden_size], self.w.up_proj),
            ),
            seq![self.cfg.intermediate_size],
            self.w.down_proj,
        )
    }

    /// The hidden state with the result of the feed-forward network added to it.
    pub open spec fn with_feed_forward(self, k: Kernels<R>, h: Rows<R>) -> Rows<R> {
        sums(k, h, self.fed_forward(k, h))
    }

    /// The hidden state of `n` tokens after the layer: attention and feed-forward network are
    /// added to it, one after the other.
    pub open spec fn output(
        self,
        k: Kernels<R>,
        h: Rows<R>,
        positions: Seq<u32>,
        n: int,
        past: Past<R>,
    ) -> Rows<R> {
        self.with_feed_forward(
            k,
            self.with_attention(k, h, rows_of(self.attended(k, h, positions, n, past))),
        )
    }
}

/// The hidden state and the scratch tensors have memory of their own.
pub open spec fn have_own_memory(hidden: TensorInfo, s: ScratchInfo) -> bool {
    ids(seq![hidden] + s.list()).no_duplicates()
}

/// The memory of the hidden state and the scratch tensors.
pub open spec fn pass_memory(hidden: TensorInfo, s: ScratchInfo) -> Set<TensorId> {
    ids(seq![hidden] + s.list()).to_set()
}

/// None of the weights of a layer lies in some memory.
pub open spec fn weights_outside(w: LayerWeightsInfo, memory: Set<TensorId>) -> bool {
    &&& !memory.contains(w.q_proj.id)
    &&& !memory.contains(w.k_proj.id)
    &&& !memory.contains(w.v_proj.id)
    &&& !memory.contains(w.o_proj.id)
    &&& !memory.contains(w.gate_proj.id)
    &&& !memory.contains(w.up_proj.id)
    &&& !memory.contains(w.down_proj.id)
    &&& !memory.contains(w.attn_norm.id)
    &&& !memory.contains(w.ffn_norm.id)
}

/// Weights outside the memory that changed are what they were.
pub(crate) proof fn weights_stay<R>(
    before: Memory<R>,
    after: Memory<R>,
    w: LayerWeightsInfo,
    written: Set<TensorId>,
)
    requires
        changes_only(before, after, written),
        weights_outside(w, written),
    ensures
        layer_operands(after, w) == layer_operands(before, w),
{
}

/// The scratch tensors and the hidden state are different, each from each.
pub(crate) proof fn own_memory(hidden: TensorInfo, s: ScratchInfo)
    requires
        have_own_memory(hidden, s),
    ensures
        ({
            let l = ids(seq![hidden] + s.list());
            &&& l.len() == 11
            &&& l[0] == hidden.id
            &&& l[1] == s.normed.id
            &&& l[2] == s.q_flat.id
            &&& l[3] == s.k_flat.id
            &&& l[4] == s.v_flat.id
            &&& l[5] == s.attn_out.id
            &&& l[6] == s.projected.id
            &&& l[7] == s.gate.id
            &&& l[8] == s.up.id
            &&& l[9] == s.ffn_mid.id
            &&& l[10] == s.ffn_out.id
            &&& forall|i: int, j: int| 0 <= i < 11 && 0 <= j < 11 && i != j ==> l[i] != l[j]
            &&& forall|i: int|
                0 <= i < 11 ==> pass_memory(hidden, s).contains(#[trigger] l[i])
        }),
{
    let l = ids(seq![hidden] + s.list());
    assert forall|i: int| 0 <= i < 11 implies pass_memory(hidden, s).contains(
        #[trigger] l[i],
    ) by {
        assert(l.contains(l[i]));
    }
}

/// The row shapes of the scratch tensors.
pub(crate) proof fn scratch_rows(cfg: ModelConfig, s: ScratchInfo, n: usize)
    requires
        s.fits(cfg, n),
    ensures
        row_shape(s.normed.shape) == seq![cfg.hidden_size],
        row_shape(s.attn_out.shape) == seq![cfg.hidden_size],
        row_shape(s.ffn_mid.shape) == seq![cfg.intermediate_size],
        row_shape(head_views(cfg, s, n).q.shape) == seq![cfg.num_q_heads, cfg.head_dim],
        row_shape(head_views(cfg, s, n).k.shape) == seq![cfg.num_kv_heads, cfg.head_dim],
        row_shape(head_views(cfg, s, n).v.shape) == seq![cfg.num_kv_heads, cfg.head_dim],
        row_shape(head_views(cfg, s, n).attn_flat.shape) == seq![cfg.hidden_size],
        head_views(cfg, s, n).q.shape[0] == n,
        s.normed.shape[0] == n,
{
    let l = s.list();
    let shapes = scratch_shapes(cfg, n);
    assert(l[0].shape == shapes[0]);
    assert(l[4].shape == shapes[4]);
    assert(l[8].shape == shapes[8]);
    assert(row_shape(seq![n, cfg.hidden_size]) =~= seq![cfg.hidden_size]);
    assert(row_shape(seq![n, cfg.intermediate_size]) =~= seq![cfg.intermediate_size]);
    assert(row_shape(seq![n, cfg.num_q_heads, cfg.head_dim]) =~= seq![
        cfg.num_q_heads,
        cfg.head_dim,
    ]);
    assert(row_shape(seq![n, cfg.num_kv_heads, cfg.head_dim]) =~= seq![
        cfg.num_kv_heads,
        cfg.head_dim,
    ]);
}

pub(crate) proof fn after_push<R>(
    k: Kernels<R>,
    mem: Memory<R>,
    calls: Seq<DeviceCall>,
    c: DeviceCall,
)
    ensures
        after_calls(k, mem, calls.push(c)) == after_call(k, after_calls(k, mem, calls), c),
{
    assert(calls.push(c).drop_last() =~= calls);
}

/// The first part of a layer leaves the queries, the keys and the values of the hidden state.
pub(crate) proof fn projections_compute<R>(
    k: Kernels<R>,
    mem: Memory<R>,
    cfg: ModelConfig,
    w: LayerWeightsInfo,
    hidden: TensorInfo,
    s: ScratchInfo,
    n: usize,
    positions: Seq<u32>,
)
    requires
        s.fits(cfg, n),
        have_own_memory(hidden, s),
        weights_outside(w, pass_memory(hidden, s)),
    ensures
        ({
            let m = after_calls(
                k,
                mem,
                step_calls(project_steps(cfg, w, hidden, s, n, positions)),
            );
            let layer = Layer { cfg, w: layer_operands(mem, w), shape: row_shape(hidden.shape) };
            let h = mem[hidden.id];
            &&& m[s.q_flat.id] == layer.queries(k, h, positions)
            &&& m[s.k_flat.id] == layer.keys(k, h, positions)
            &&& m[s.v_flat.id] == layer.values(k, h)
            &&& m[hidden.id] == h
            &&& changes_only(mem, m, pass_memory(hidden, s))
        }),
{
    let steps = project_steps(cfg, w, hidden, s, n, positions);
    let v = head_views(cfg, s, n);
    scratch_rows(cfg, s, n);
    own_memory(hidden, s);
    let e = Seq::<DeviceCall>::empty();
    let c0 = steps[0].calls[0];
    let c1 = steps[1].calls[0];
    let c2 = steps[1].calls[1];
    let c3 = steps[1].calls[2];
    let c4 = steps[2].calls[0];
    let all = e.push(c0).push(c1).push(c2).push(c3).push(c4);
    assert(step_calls(steps) =~= all) by {
        reveal_with_fuel(step_calls, 4);
        assert(steps.drop_last().drop_last().drop_last() =~= Seq::<StepCalls>::empty());
        assert(steps.drop_last().last() == steps[1]);
        assert(steps.drop_last().drop_last().last() == steps[0]);
    }
    let m0 = after_call(k, mem, c0);
    let m1 = after_call(k, m0, c1);
    let m2 = after_call(k, m1, c2);
    let m3 = after_call(k, m2, c3);
    let m4 = after_call(k, m3, c4);
    after_push(k, mem, e, c0);
    after_push(k, mem, e.push(c0), c1);
    after_push(k, mem, e.push(c0).push(c1), c2);
    after_push(k, mem, e.push(c0).push(c1).push(c2), c3);
    after_push(k, mem, e.push(c0).push(c1).push(c2).push(c3), c4);
    assert(after_calls(k, mem, all) == m4);
    let layer = Layer { cfg, w: layer_operands(mem, w), shape: row_shape(hidden.shape) };
    let h = mem[hidden.id];
    assert(m0[s.normed.id] == layer.attention_input(k, h));
    assert(operand(m0, w.q_proj) == layer.w.q_proj);
    assert(operand(m1, w.k_proj) == layer.w.k_proj);
    assert(operand(m2, w.v_proj) == layer.w.v_proj);
    assert(m4[s.q_flat.id] == layer.queries(k, h, positions));
    assert(m4[s.k_flat.id] == layer.keys(k, h, positions));
    assert(m4[s.v_flat.id] == layer.values(k, h));
}

/// The last part of a layer adds the projected result of attention to the hidden state, and
/// then what the feed-forward network makes of that.
pub(crate) proof fn residuals_compute<R>(
    k: Kernels<R>,
    mem: Memory<R>,
    cfg: ModelConfig,
    w: LayerWeightsInfo,
    hidden: TensorInfo,
    s: ScratchInfo,
    n: usize,
)
    requires
        s.fits(cfg, n),
        have_own_memory(hidden, s),
        weights_outside(w, pass_memory(hidden, s)),
    ensures
        ({
            let m = after_calls(k, mem, step_calls(finish_steps(cfg, w, hidden, s, n)));
            let layer = Layer { cfg, w: layer_operands(mem, w), shape: row_shape(hidden.shape) };
            &&& m[hidden.id] == layer.with_feed_forward(
                k,
                layer.with_attention(k, mem[hidden.id], mem[s.attn_out.id]),
            )
            &&& changes_only(mem, m, pass_memory(hidden, s))
        }),
{
    let steps = finish_steps(cfg, w, hidden, s, n);
    scratch_rows(cfg, s, n);
    own_memory(hidden, s);
    let e = Seq::<DeviceCall>::empty();
    let c0 = steps[0].calls[0];
    let c1 = steps[1].calls[0];
    let c2 = steps[2].calls[0];
    let c3 = steps[3].calls[0];
    let c4 = steps[3].calls[1];
    let c5 = steps[4].calls[0];
    let c6 = steps[5].calls[0];
    let c7 = steps[6].calls[0];
    let some = e.push(c0).push(c1).push(c2).push(c3);
    let all = some.push(c4).push(c5).push(c6).push(c7);
    assert(step_calls(steps) =~= all) by {
        reveal_with_fuel(step_calls, 8);
        let t6 = steps.drop_last();
        let t5 = t6.drop_last();
        let t4 = t5.drop_last();
        let t3 = t4.drop_last();
        let t2 = t3.drop_last();
        let t1 = t2.drop_last();
        assert(t1.drop_last() =~= Seq::<StepCalls>::empty());
        assert(t6.last() == steps[5]);
        assert(t5.last() == steps[4]);
        assert(t4.last() == steps[3]);
        assert(t3.last() == steps[2]);
        assert(t2.last() == steps[1]);
        assert(t1.last() == steps[0]);
    }
    let m0 = after_call(k, mem, c0);
    let m1 = after_call(k, m0, c1);
    let m2 = after_call(k, m1, c2);
    let m3 = after_call(k, m2, c3);
    let m4 = after_call(k, m3, c4);
    let m5 = after_call(k, m4, c5);
    let m6 = after_call(k, m5, c6);
    let m7 = after_call(k, m6, c7);
    after_push(k, mem, e, c0);
    after_push(k, mem, e.push(c0), c1);
    after_push(k, mem, e.push(c0).push(c1), c2);
    after_push(k, mem, e.push(c0).push(c1).push(c2), c3);
    after_push(k, mem, some, c4);
    after_push(k, mem, some.push(c4), c5);
    after_push(k, mem, some.push(c4).push(c5), c6);
    after_push(k, mem, some.push(c4).push(c5).push(c6), c7);
    assert(after_calls(k, mem, all) == m7);
    let layer = Layer { cfg, w: layer_operands(mem, w), shape: row_shape(hidden.shape) };
    let h1 = layer.with_attention(k, mem[hidden.id], mem[s.attn_out.id]);
    assert(m1[hidden.id] == h1);
    assert(operand(m1, w.ffn_norm) == layer.w.ffn_norm);
    assert(operand(m2, w.gate_proj) == layer.w.gate_proj);
    assert(operand(m3, w.up_proj) == layer.w.up_proj);
    assert(operand(m5, w.down_proj) == layer.w.down_proj);
    assert(m6[s.ffn_out.id] == layer.fed_forward(k, h1));
    assert(m6[hidden.id] == h1);
    assert(m7[hidden.id] == layer.with_feed_forward(k, h1));
}

} // verus!

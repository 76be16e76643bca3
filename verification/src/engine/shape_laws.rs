//! Tensors of a pass have the shapes that the work on them asks for.
use crate::base::dtype::DType;
use crate::base::model_config::ModelConfig;
use crate::base::size_laws::dimensions_multiply;
use crate::base::tensor::{elements, TensorInfo};
use crate::engine::logits::halves;
use crate::engine::transformer::{head_views, scratch_shapes, OutputInfo, ScratchInfo};
use vstd::prelude::*;

verus! {

/// A tensor of half-precision rows.
pub open spec fn is_rows(t: TensorInfo, n: usize, width: int) -> bool {
    &&& t.dtype == DType::FP16
    &&& t.shape.len() == 2
    &&& t.shape[0] == n
    &&& t.shape[1] == width
}

/// The scratch tensors have a row for each token: as wide as the hidden state where it is
/// normalised, attended to or added to, as wide as all heads of keys or values where those are
/// projected, and as wide as the feed-forward network inside it.
pub proof fn scratch_tensors_fit_their_work(cfg: ModelConfig, s: ScratchInfo, n: usize)
    requires
        s.fits(cfg, n),
        cfg.num_kv_heads * cfg.head_dim <= usize::MAX,
    ensures
        is_rows(s.normed, n, cfg.hidden_size as int),
        is_rows(s.q_flat, n, cfg.hidden_size as int),
        is_rows(s.k_flat, n, cfg.num_kv_heads * cfg.head_dim),
        is_rows(s.v_flat, n, cfg.num_kv_heads * cfg.head_dim),
        is_rows(s.attn_out, n, cfg.hidden_size as int),
        is_rows(s.projected, n, cfg.hidden_size as int),
        is_rows(s.gate, n, cfg.intermediate_size as int),
        is_rows(s.up, n, cfg.intermediate_size as int),
        is_rows(s.ffn_mid, n, cfg.intermediate_size as int),
        is_rows(s.ffn_out, n, cfg.hidden_size as int),
{
    let l = s.list();
    let shapes = scratch_shapes(cfg, n);
    assert forall|i: int| 0 <= i < 10 implies (#[trigger] l[i]).shape == shapes[i] && l[i].dtype
        == DType::FP16 by {}
    assert(l[0] == s.normed && l[1] == s.q_flat && l[2] == s.k_flat && l[3] == s.v_flat && l[4]
        == s.attn_out);
    assert(l[5] == s.projected && l[6] == s.gate && l[7] == s.up && l[8] == s.ffn_mid && l[9]
        == s.ffn_out);
    assert(0 <= cfg.num_kv_heads * cfg.head_dim) by (nonlinear_arith);
}

proof fn elements_of_rows(n: usize, w: usize)
    ensures
        elements(seq![n, w]) == n * w,
{
    let none = Seq::<usize>::empty();
    assert(seq![n, w] =~= none.push(n).push(w));
    dimensions_multiply(none, none, n);
    dimensions_multiply(none.push(n), none, w);
    assert(1 * (n as nat) == n) by (nonlinear_arith);
}

proof fn elements_of_heads(n: usize, heads: usize, dim: usize)
    ensures
        elements(seq![n, heads, dim]) == n * (heads * dim),
{
    elements_of_rows(n, heads);
    assert(seq![n, heads, dim] =~= seq![n, heads].push(dim));
    dimensions_multiply(seq![n, heads], Seq::empty(), dim);
    assert((n * heads) * dim == n * (heads * dim)) by (nonlinear_arith);
}

/// A view by heads is of the same tensor with the same elements. For queries and their attention
/// that is so where the heads make up the hidden state.
pub proof fn views_show_the_same_elements(cfg: ModelConfig, s: ScratchInfo, n: usize)
    requires
        s.fits(cfg, n),
        cfg.num_kv_heads * cfg.head_dim <= usize::MAX,
        cfg.num_q_heads * cfg.head_dim == cfg.hidden_size,
    ensures
        ({
            let v = head_views(cfg, s, n);
            &&& v.q.id == s.q_flat.id && elements(v.q.shape) == elements(s.q_flat.shape)
            &&& v.k.id == s.k_flat.id && elements(v.k.shape) == elements(s.k_flat.shape)
            &&& v.v.id == s.v_flat.id && elements(v.v.shape) == elements(s.v_flat.shape)
            &&& v.attn.id == s.attn_out.id && elements(v.attn.shape) == elements(s.attn_out.shape)
            &&& v.attn_flat.id == s.attn_out.id && v.attn_flat.shape == s.attn_out.shape
        }),
{
    scratch_tensors_fit_their_work(cfg, s, n);
    let kv = s.k_flat.shape[1];
    assert(s.q_flat.shape =~= seq![n, cfg.hidden_size]);
    assert(s.attn_out.shape =~= seq![n, cfg.hidden_size]);
    assert(s.k_flat.shape =~= seq![n, kv]);
    assert(s.v_flat.shape =~= seq![n, kv]);
    elements_of_rows(n, cfg.hidden_size);
    elements_of_rows(n, kv);
    elements_of_heads(n, cfg.num_q_heads, cfg.head_dim);
    elements_of_heads(n, cfg.num_kv_heads, cfg.head_dim);
}

/// The logits of a pass have a number for each word, two bytes each.
pub proof fn logits_have_every_word(cfg: ModelConfig, o: OutputInfo)
    requires
        o.fits(cfg),
    ensures
        is_rows(o.last, 1, cfg.hidden_size as int),
        is_rows(o.logits, 1, cfg.vocab_size as int),
        halves(o.bytes).len() == cfg.vocab_size,
{
}

/// A number in half precision is read with its low byte first.
pub proof fn logits_begin_with_their_low_byte(bytes: Seq<u8>, i: int)
    requires
        0 <= i < bytes.len() as int / 2,
    ensures
        halves(bytes).len() == bytes.len() / 2,
        halves(bytes)[i].bits % 256 == bytes[2 * i],
        halves(bytes)[i].bits / 256 == bytes[2 * i + 1],
{
    let (a, b) = (bytes[2 * i], bytes[2 * i + 1]);
    assert(halves(bytes)[i].bits == a + 256 * b);
}

} // verus!

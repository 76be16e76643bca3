//! The memory of block pools: what is reckoned is what their tensors take.
use crate::base::dtype::DType;
use crate::base::error::FractureError;
use crate::base::program::Layout;
use crate::base::size_laws::dimensions_multiply;
use crate::base::tensor::{elements, storage_bytes};
use crate::base::turboquant::{layer_bytes, packed_dim, TurboQuantConfig};
use crate::engine::block_table::BLOCK_SIZE;
use crate::engine::paged_kv_cache::{block_bytes, BlockPool};
use crate::engine::quantized_paged_kv_cache::widest;
use crate::engine::quantized_pool::{block_layouts, packed_width, widths_bytes, QuantizedBlockPool};
use vstd::prelude::*;

verus! {

/// The bytes of tensors of these layouts.
pub open spec fn stored_bytes(ls: Seq<Layout>) -> int
    decreases ls.len(),
{
    if ls.len() == 0 {
        0
    } else {
        stored_bytes(ls.drop_last()) + storage_bytes(elements(ls.last().shape), ls.last().dtype)
    }
}

proof fn elements_of_two(a: usize, b: usize)
    ensures
        elements(seq![a, b]) == a * b,
{
    let none = Seq::<usize>::empty();
    assert(seq![a, b] =~= none.push(a).push(b));
    dimensions_multiply(none, none, a);
    dimensions_multiply(none.push(a), none, b);
    assert(1 * (a as nat) == a) by (nonlinear_arith);
}

proof fn elements_of_three(a: usize, b: usize, c: usize)
    ensures
        elements(seq![a, b, c]) == a * b * c,
{
    elements_of_two(a, b);
    assert(seq![a, b, c] =~= seq![a, b].push(c));
    dimensions_multiply(seq![a, b], Seq::empty(), c);
}

/// The layouts of the tensors of a block of half-precision keys and values.
pub open spec fn half_layouts(num_layers: usize, num_kv_heads: usize, head_dim: usize) -> Seq<
    Layout,
> {
    BlockPool::shapes(num_layers, num_kv_heads, head_dim).map_values(
        |shape: Seq<usize>| Layout { shape, dtype: DType::FP16 },
    )
}

proof fn equal_layouts(l: Layout, n: nat)
    ensures
        stored_bytes(Seq::new(n, |i: int| l)) == n * storage_bytes(elements(l.shape), l.dtype),
    decreases n,
{
    let all = Seq::new(n, |i: int| l);
    let each = storage_bytes(elements(l.shape), l.dtype);
    if n > 0 {
        let m = (n - 1) as nat;
        equal_layouts(l, m);
        assert(all.drop_last() =~= Seq::new(m, |i: int| l));
        assert(m * each + each == n * each) by (nonlinear_arith)
            requires
                m + 1 == n,
        ;
    } else {
        assert(n * each == 0) by (nonlinear_arith)
            requires
                n == 0,
        ;
    }
}

/// A block of keys and values takes what is reckoned for it.
pub proof fn blocks_take_what_is_reckoned(
    num_layers: usize,
    num_kv_heads: usize,
    head_dim: usize,
)
    ensures
        stored_bytes(half_layouts(num_layers, num_kv_heads, head_dim)) == block_bytes(
            num_layers,
            num_kv_heads,
            head_dim,
        ),
{
    let l = Layout { shape: seq![BLOCK_SIZE, num_kv_heads, head_dim], dtype: DType::FP16 };
    let n = 2 * num_layers as nat;
    assert(half_layouts(num_layers, num_kv_heads, head_dim) =~= Seq::new(n, |i: int| l));
    equal_layouts(l, n);
    elements_of_three(BLOCK_SIZE, num_kv_heads, head_dim);
    let e = BLOCK_SIZE * num_kv_heads * head_dim;
    assert(n * (e * 2) == e * 2 * 2 * num_layers) by (nonlinear_arith)
        requires
            n == 2 * num_layers,
    ;
    assert(storage_bytes(elements(l.shape), DType::FP16) == e * 2);
}

/// The four tensors of a layer of a quantized block take what is reckoned for them.
proof fn layer_takes_what_is_reckoned(
    key_bits: Seq<u8>,
    value_bits: Seq<u8>,
    num_kv_heads: usize,
    head_dim: usize,
    k: int,
)
    requires
        0 <= k < key_bits.len(),
        key_bits.len() == value_bits.len(),
        num_kv_heads * packed_dim(head_dim, key_bits[k]) <= usize::MAX,
        num_kv_heads * packed_dim(head_dim, value_bits[k]) <= usize::MAX,
    ensures
        ({
            let ls = block_layouts(key_bits, value_bits, num_kv_heads, head_dim);
            stored_bytes(ls.take(4 * k + 4)) == stored_bytes(ls.take(4 * k)) + layer_bytes(
                num_kv_heads,
                head_dim,
                key_bits[k],
                value_bits[k],
            )
        }),
{
    let ls = block_layouts(key_bits, value_bits, num_kv_heads, head_dim);
    let h = num_kv_heads;
    let kp = packed_width(h, head_dim, key_bits[k]);
    let vp = packed_width(h, head_dim, value_bits[k]);
    let kd = packed_dim(head_dim, key_bits[k]);
    let vd = packed_dim(head_dim, value_bits[k]);
    assert(0 <= kd && 0 <= vd) by (nonlinear_arith)
        requires
            kd == (head_dim * key_bits[k] + 7) / 8,
            vd == (head_dim * value_bits[k] + 7) / 8,
    ;
    assert(0 <= h * kd && 0 <= h * vd) by (nonlinear_arith)
        requires
            0 <= kd,
            0 <= vd,
    ;
    assert(ls.take(4 * k + 4).drop_last() =~= ls.take(4 * k + 3));
    assert(ls.take(4 * k + 3).drop_last() =~= ls.take(4 * k + 2));
    assert(ls.take(4 * k + 2).drop_last() =~= ls.take(4 * k + 1));
    assert(ls.take(4 * k + 1).drop_last() =~= ls.take(4 * k));
    assert(ls[4 * k].shape == seq![BLOCK_SIZE, kp]);
    assert(ls[4 * k + 1].shape == seq![BLOCK_SIZE, h]);
    assert(ls[4 * k + 2].shape == seq![BLOCK_SIZE, vp]);
    assert(ls[4 * k + 3].shape == seq![BLOCK_SIZE, h]);
    elements_of_two(BLOCK_SIZE, kp);
    elements_of_two(BLOCK_SIZE, vp);
    elements_of_two(BLOCK_SIZE, h);
    assert(16 * (h * kd) == 16 * h * kd && 16 * (h * vd) == 16 * h * vd) by (nonlinear_arith);
    assert(storage_bytes(elements(ls[4 * k].shape), DType::INT8) == 16 * kp);
    assert(storage_bytes(elements(ls[4 * k + 2].shape), DType::INT8) == 16 * vp);
    assert(storage_bytes(elements(ls[4 * k + 1].shape), DType::FP16) == 16 * h * 2);
    assert(storage_bytes(elements(ls[4 * k + 3].shape), DType::FP16) == 16 * h * 2);
    assert(ls[4 * k].dtype == DType::INT8 && ls[4 * k + 2].dtype == DType::INT8);
    assert(ls[4 * k + 1].dtype == DType::FP16 && ls[4 * k + 3].dtype == DType::FP16);
    let e = stored_bytes(ls.take(4 * k));
    assert(stored_bytes(ls.take(4 * k + 1)) == e + 16 * kp);
    assert(stored_bytes(ls.take(4 * k + 2)) == e + 16 * kp + 16 * h * 2);
    assert(stored_bytes(ls.take(4 * k + 3)) == e + 16 * kp + 16 * h * 2 + 16 * vp);
    assert(16 * kp == 16 * h * kd && 16 * vp == 16 * h * vd);
}

proof fn layers_take_what_is_reckoned(
    key_bits: Seq<u8>,
    value_bits: Seq<u8>,
    num_kv_heads: usize,
    head_dim: usize,
    k: int,
)
    requires
        0 <= k <= key_bits.len(),
        key_bits.len() == value_bits.len(),
        forall|l: int|
            0 <= l < key_bits.len() ==> num_kv_heads * packed_dim(
                head_dim,
                #[trigger] key_bits[l],
            ) <= usize::MAX && num_kv_heads * packed_dim(head_dim, value_bits[l]) <= usize::MAX,
    ensures
        stored_bytes(
            block_layouts(key_bits, value_bits, num_kv_heads, head_dim).take(4 * k),
        ) == widths_bytes(key_bits, value_bits, num_kv_heads, head_dim, k),
    decreases k,
{
    let ls = block_layouts(key_bits, value_bits, num_kv_heads, head_dim);
    if k > 0 {
        layers_take_what_is_reckoned(key_bits, value_bits, num_kv_heads, head_dim, k - 1);
        assert(num_kv_heads * packed_dim(head_dim, key_bits[k - 1]) <= usize::MAX);
        layer_takes_what_is_reckoned(key_bits, value_bits, num_kv_heads, head_dim, k - 1);
    } else {
        assert(ls.take(0) =~= Seq::empty());
    }
}

/// A quantized block takes what is reckoned for it, and what the configuration reckons for it.
pub proof fn quantized_blocks_take_what_is_reckoned(
    config: TurboQuantConfig,
    num_layers: usize,
    num_kv_heads: usize,
    head_dim: usize,
)
    requires
        forall|l: int|
            0 <= l < num_layers ==> num_kv_heads * packed_dim(
                head_dim,
                #[trigger] config.key_width(l as usize, num_layers),
            ) <= usize::MAX && num_kv_heads * packed_dim(
                head_dim,
                config.value_width(l as usize, num_layers),
            ) <= usize::MAX,
    ensures
        stored_bytes(
            QuantizedBlockPool::config_layouts(config, num_layers, num_kv_heads, head_dim),
        ) == config.block_bytes(num_layers as int, num_layers, num_kv_heads, head_dim),
{
    let kb = QuantizedBlockPool::config_key_widths(config, num_layers);
    let vb = QuantizedBlockPool::config_value_widths(config, num_layers);
    let ls = block_layouts(kb, vb, num_kv_heads, head_dim);
    assert forall|l: int| 0 <= l < kb.len() implies num_kv_heads * packed_dim(
        head_dim,
        #[trigger] kb[l],
    ) <= usize::MAX && num_kv_heads * packed_dim(head_dim, vb[l]) <= usize::MAX by {
        assert(kb[l] == config.key_width(l as usize, num_layers));
    }
    layers_take_what_is_reckoned(kb, vb, num_kv_heads, head_dim, num_layers as int);
    assert(ls.take(4 * num_layers) =~= ls);
    same_widths(config, num_layers, num_kv_heads, head_dim, num_layers as int);
}

proof fn same_widths(
    config: TurboQuantConfig,
    num_layers: usize,
    num_kv_heads: usize,
    head_dim: usize,
    k: int,
)
    requires
        0 <= k <= num_layers,
    ensures
        widths_bytes(
            QuantizedBlockPool::config_key_widths(config, num_layers),
            QuantizedBlockPool::config_value_widths(config, num_layers),
            num_kv_heads,
            head_dim,
            k,
        ) == config.block_bytes(k, num_layers, num_kv_heads, head_dim),
    decreases k,
{
    if k > 0 {
        same_widths(config, num_layers, num_kv_heads, head_dim, k - 1);
    }
}

/// The scratch tensors of compression have room for the packed rows of every layer, and for no
/// more than the widest layer needs.
pub proof fn scratch_holds_every_layer(
    bits: Seq<u8>,
    num_kv_heads: usize,
    head_dim: usize,
    n: int,
    l: int,
)
    requires
        0 <= l < n <= bits.len(),
    ensures
        packed_width(num_kv_heads, head_dim, bits[l]) <= widest(bits, num_kv_heads, head_dim, n),
        exists|x: int|
            0 <= x < n && packed_width(num_kv_heads, head_dim, #[trigger] bits[x]) == widest(
                bits,
                num_kv_heads,
                head_dim,
                n,
            ),
    decreases n,
{
    let w = widest(bits, num_kv_heads, head_dim, n);
    if n > 1 {
        if l < n - 1 {
            scratch_holds_every_layer(bits, num_kv_heads, head_dim, n - 1, l);
        } else {
            scratch_holds_every_layer(bits, num_kv_heads, head_dim, n - 1, 0);
        }
        let rest = widest(bits, num_kv_heads, head_dim, n - 1);
        if w == rest {
            let x = choose|x: int|
                0 <= x < n - 1 && packed_width(num_kv_heads, head_dim, #[trigger] bits[x]) == rest;
            assert(packed_width(num_kv_heads, head_dim, bits[x]) == w);
        } else {
            assert(packed_width(num_kv_heads, head_dim, bits[n - 1]) == w);
        }
    } else {
        assert(widest(bits, num_kv_heads, head_dim, 0) == 0);
        assert(packed_width(num_kv_heads, head_dim, bits[0]) == w);
    }
}

/// A pool without a free block says how much memory it lacks: that of the tensors of a block.
pub proof fn exhausted_pools_say_what_they_lack(p: BlockPool)
    requires
        p.stored(),
    ensures
        p.exhausted() matches FractureError::OutOfMemory { requested, available } && available == 0
            && requested == stored_bytes(half_layouts(p.layers(), p.kv_heads(), p.dim())),
{
    blocks_take_what_is_reckoned(p.layers(), p.kv_heads(), p.dim());
    let (l, h, d) = (p.layers(), p.kv_heads(), p.dim());
    assert(0 <= 16 * h * d * 2 * 2 * l) by (nonlinear_arith);
}

} // verus!

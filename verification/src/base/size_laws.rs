//! What sizes and encodings are, whatever way they are computed.
use crate::base::dtype::DType;
use crate::base::model_config::ModelConfig;
use crate::base::numeric::{encoded, singles, Double, Single};
use crate::base::tensor::{elements, storage_bytes};
use crate::base::turboquant::{packed_dim, TurboQuantConfig};
use vstd::prelude::*;

verus! {

/// The bits of an element.
pub open spec fn element_bits(dtype: DType) -> nat {
    match dtype {
        DType::FP32 => 32,
        DType::FP16 => 16,
        DType::BF16 => 16,
        DType::INT8 => 8,
        DType::INT4 => 4,
    }
}

/// Storage is the least number of bytes that holds the bits of all elements.
pub proof fn storage_holds_all_bits(n: nat, dtype: DType)
    ensures
        n * element_bits(dtype) <= 8 * storage_bytes(n, dtype),
        8 * storage_bytes(n, dtype) < n * element_bits(dtype) + 8,
{
    let bits = element_bits(dtype);
    let bytes = dtype.element_bytes();
    assert(bits == 8 * bytes || dtype is INT4);
    assert(bits == 8 * bytes ==> n * bits == 8 * (n * bytes)) by (nonlinear_arith);
    assert(bits == 4 ==> n * bits == 4 * n) by (nonlinear_arith);
}

/// The elements of a tensor: one more dimension multiplies them, and a tensor of no dimension
/// has one.
pub proof fn dimensions_multiply(a: Seq<usize>, b: Seq<usize>, d: usize)
    ensures
        elements(Seq::empty()) == 1,
        elements(a.push(d)) == elements(a) * (d as nat),
        elements(a + b) == elements(a) * elements(b),
    decreases b.len(),
{
    assert(a.push(d).drop_last() =~= a);
    if b.len() == 0 {
        assert(a + b =~= a);
        assert(elements(a) * 1 == elements(a)) by (nonlinear_arith);
    } else {
        dimensions_multiply(a, b.drop_last(), d);
        assert((a + b).drop_last() =~= a + b.drop_last());
        let x = elements(a);
        let y = elements(b.drop_last());
        let z = b.last() as nat;
        assert((x * y) * z == x * (y * z)) by (nonlinear_arith);
    }
}

/// A config is taken just where all its sizes and constants are positive, the heads divide the
/// hidden state, and the query heads make full groups.
pub proof fn configs_are_taken_when_they_fit(c: ModelConfig)
    ensures
        c.complaint() is None <==> {
            &&& 0 < c.hidden_size
            &&& 0 < c.num_layers
            &&& 0 < c.num_q_heads
            &&& 0 < c.num_kv_heads
            &&& 0 < c.vocab_size
            &&& 0 < c.intermediate_size
            &&& 0 < c.max_seq_len
            &&& c.head_dim * c.num_q_heads <= c.hidden_size
            &&& c.hidden_size < (c.head_dim + 1) * c.num_q_heads
            &&& !c.rope_theta.at_most_zero()
            &&& !c.rms_norm_eps.at_most_zero()
            &&& exists|g: int| #[trigger] (g * c.num_kv_heads) == c.num_q_heads
        },
{
    let h = c.hidden_size as int;
    let q = c.num_q_heads as int;
    let d = c.head_dim as int;
    let kv = c.num_kv_heads as int;
    if q > 0 {
        assert(d == h / q <==> d * q <= h && h < (d + 1) * q) by (nonlinear_arith)
            requires
                0 < q,
                0 <= h,
                0 <= d,
        ;
    }
    if kv > 0 {
        if q % kv == 0 {
            let g = q / kv;
            assert(g * kv == q) by (nonlinear_arith)
                requires
                    q % kv == 0,
                    0 < kv,
                    g == q / kv,
            ;
            assert(g * c.num_kv_heads == c.num_q_heads);
        }
        if exists|g: int| #[trigger] (g * c.num_kv_heads) == c.num_q_heads {
            let g = choose|g: int| #[trigger] (g * c.num_kv_heads) == c.num_q_heads;
            assert(q % kv == 0) by (nonlinear_arith)
                requires
                    g * kv == q,
                    0 < kv,
            ;
        }
    }
}

/// A number in double precision is above zero, or not a number, where its sign is clear and it
/// is not zero. Changing the sign of a number that is not zero changes the answer.
pub proof fn signs_tell_from_zero(x: Double, negated: Double)
    requires
        x.bits < 0x8000_0000_0000_0000,
        negated.bits == x.bits + 0x8000_0000_0000_0000,
    ensures
        x.at_most_zero() <==> x.bits == 0,
        x.bits <= 0x7ff0_0000_0000_0000 ==> negated.at_most_zero(),
        0x7ff0_0000_0000_0000 < x.bits ==> !negated.at_most_zero(),
{
}

/// A number in single precision is written with its low byte first.
pub proof fn numbers_begin_with_their_low_byte(s: Seq<Single>, bytes: Seq<u8>, i: int)
    ensures
        0 <= i < s.len() ==> encoded(s).len() == 4 * s.len() && encoded(s)[4 * i] == s[i].bits
            % 256 && encoded(s)[4 * i + 3] == s[i].bits / 16777216,
        0 <= i < bytes.len() as int / 4 ==> singles(bytes)[i].bits % 256 == bytes[4 * i]
            && singles(bytes)[i].bits / 16777216 == bytes[4 * i + 3],
{
    if 0 <= i < bytes.len() as int / 4 {
        let (a, b, c, d) = (bytes[4 * i], bytes[4 * i + 1], bytes[4 * i + 2], bytes[4 * i + 3]);
        assert(singles(bytes)[i].bits == a + 256 * b + 65536 * c + 16777216 * d);
    }
}

/// A bit width packs a head into the least number of bytes that holds it.
pub proof fn packing_wastes_no_byte(head_dim: usize, bits: u8)
    ensures
        head_dim * bits <= 8 * packed_dim(head_dim, bits) < head_dim * bits + 8,
{
}

/// Protection is of as many layers at the end of the model as at its beginning, and of no layer
/// between them.
pub proof fn outer_layers_are_protected(c: TurboQuantConfig, layer: usize, num_layers: usize)
    requires
        layer < num_layers,
    ensures
        c.protects(layer, num_layers) == c.protects((num_layers - 1 - layer) as usize, num_layers),
        layer < c.protected_layers ==> c.protects(layer, num_layers),
        c.protected_layers <= layer && layer + c.protected_layers < num_layers ==> !c.protects(
            layer,
            num_layers,
        ),
        c.protects(layer, num_layers) ==> c.key_width(layer, num_layers) == c.protected_bits
            && c.value_width(layer, num_layers) == c.protected_bits,
        !c.protects(layer, num_layers) ==> c.key_width(layer, num_layers) == c.key_bits
            && c.value_width(layer, num_layers) == c.value_bits,
{
}

/// A configuration is taken just where each of its bit widths divides a byte into more than one
/// part, or is a byte.
pub proof fn settings_are_taken_when_they_pack(c: TurboQuantConfig)
    ensures
        c.complaint() is None <==> (c.key_bits == 2 || c.key_bits == 4 || c.key_bits == 8) && (
        c.value_bits == 2 || c.value_bits == 4 || c.value_bits == 8) && (c.protected_bits == 2
            || c.protected_bits == 4 || c.protected_bits == 8),
{
}

} // verus!

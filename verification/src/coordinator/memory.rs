//! Device memory that layers take.
use crate::base::model_config::ModelConfig;
use vstd::prelude::*;

verus! {

/// The width of the keys, or of the values, of a token.
pub open spec fn kv_width(c: ModelConfig) -> int {
    c.num_kv_heads * c.head_dim
}

/// Bytes of the weights of a layer: seven projections and two norms, two bytes each.
pub open spec fn layer_weight_bytes(c: ModelConfig) -> int {
    let h = c.hidden_size as int;
    let q_and_o = h * h + h * h;
    let k_and_v = h * kv_width(c) + h * kv_width(c);
    let gate_up_down = h * c.intermediate_size + h * c.intermediate_size + h * c.intermediate_size;
    (q_and_o + k_and_v + gate_up_down) * 2 + h * 2 * 2
}

/// Bytes of the cache of a layer: keys and values, two bytes each.
pub open spec fn layer_cache_bytes(c: ModelConfig, max_seq_len: usize) -> int {
    max_seq_len * kv_width(c) * 2 * 2
}

/// Bytes of a layer, with its cache.
pub open spec fn layer_bytes(c: ModelConfig, max_seq_len: usize) -> int {
    layer_weight_bytes(c) + layer_cache_bytes(c, max_seq_len)
}

/// Bytes of the embedding table.
pub open spec fn embedding_bytes(c: ModelConfig) -> int {
    c.vocab_size * c.hidden_size * 2
}

/// Bytes of the output norm and of the head of the model.
pub open spec fn output_bytes(c: ModelConfig) -> int {
    c.hidden_size * 2 + c.vocab_size * c.hidden_size * 2
}

/// What node `i` of `n` holds beside its layers: the first one the embedding table, the
/// last one the output.
pub open spec fn overhead_bytes(i: int, n: int, c: ModelConfig) -> int {
    (if i == 0 {
        embedding_bytes(c)
    } else {
        0
    }) + (if i == n - 1 {
        output_bytes(c)
    } else {
        0
    })
}

/// What remains of `a` after taking away `b`.
pub open spec fn rest_of(a: int, b: int) -> int {
    if a > b {
        a - b
    } else {
        0
    }
}

/// How many layers fit into `available` bytes beside `overhead`.
pub open spec fn layers_that_fit(available: int, per_layer: int, overhead: int) -> int {
    if per_layer == 0 {
        0
    } else {
        rest_of(available, overhead) / per_layer
    }
}

/// The size of a layer, and what the place of a node asks for, can be computed in `usize`.
pub open spec fn node_sizes_fit(c: ModelConfig, max_seq_len: usize) -> bool {
    &&& kv_width(c) <= usize::MAX
    &&& layer_bytes(c, max_seq_len) <= usize::MAX
    &&& embedding_bytes(c) + output_bytes(c) <= usize::MAX
}

/// The size of all layers of a model can be computed in `usize` too.
pub open spec fn model_sizes_fit(c: ModelConfig, max_seq_len: usize) -> bool {
    &&& node_sizes_fit(c, max_seq_len)
    &&& c.num_layers * layer_bytes(c, max_seq_len) <= usize::MAX
}

/// No size is negative.
pub(crate) proof fn sizes_are_not_negative(c: ModelConfig, max_seq_len: usize)
    ensures
        0 <= kv_width(c),
        0 <= layer_weight_bytes(c),
        0 <= layer_cache_bytes(c, max_seq_len),
        0 <= embedding_bytes(c),
        0 <= output_bytes(c),
        0 <= c.num_layers * layer_bytes(c, max_seq_len),
{
    let h = c.hidden_size as int;
    let kv = kv_width(c);
    let inter = c.intermediate_size as int;
    assert(0 <= kv) by (nonlinear_arith)
        requires
            kv == c.num_kv_heads * c.head_dim,
    ;
    assert(0 <= h * h && 0 <= h * kv && 0 <= h * inter) by (nonlinear_arith)
        requires
            0 <= h,
            0 <= kv,
            0 <= inter,
    ;
    assert(0 <= max_seq_len * kv) by (nonlinear_arith)
        requires
            0 <= kv,
    ;
    assert(0 <= c.vocab_size * c.hidden_size) by (nonlinear_arith);
    let l = layer_bytes(c, max_seq_len);
    assert(0 <= c.num_layers * l) by (nonlinear_arith)
        requires
            0 <= l,
    ;
}

/// Estimate per-layer weight memory in bytes (FP16).
pub fn weight_memory_per_layer(config: &ModelConfig) -> (res: usize)
    requires
        kv_width(*config) <= usize::MAX,
        layer_weight_bytes(*config) <= usize::MAX,
    ensures
        res == layer_weight_bytes(*config),
{
    let h: usize = config.hidden_size;
    let inter: usize = config.intermediate_size;
    proof {
        sizes_are_not_negative(*config, 0);
        let kv = kv_width(*config);
        assert(0 <= h * h && 0 <= h * kv && 0 <= h * inter && inter * h == h * inter)
            by (nonlinear_arith)
            requires
                0 <= h,
                0 <= kv,
                0 <= inter,
        ;
    }
    let kv_dim: usize = config.num_kv_heads * config.head_dim;
    let proj_bytes: usize = (h * h + h * kv_dim + h * kv_dim + h * h + h * inter + h * inter + inter
        * h) * 2;
    let norm_bytes: usize = h * 2 * 2;
    proj_bytes + norm_bytes
}

/// Estimate per-layer KV cache memory in bytes (FP16) at a given max_seq_len.
pub fn cache_memory_per_layer(config: &ModelConfig, max_seq_len: usize) -> (res: usize)
    requires
        kv_width(*config) <= usize::MAX,
        layer_cache_bytes(*config, max_seq_len) <= usize::MAX,
    ensures
        res == layer_cache_bytes(*config, max_seq_len),
{
    proof {
        sizes_are_not_negative(*config, max_seq_len);
    }
    let kv_dim: usize = config.num_kv_heads * config.head_dim;
    max_seq_len * kv_dim * 2 * 2
}

/// Head node overhead: token embedding table.
pub fn head_overhead(config: &ModelConfig) -> (res: usize)
    requires
        embedding_bytes(*config) <= usize::MAX,
    ensures
        res == embedding_bytes(*config),
{
    proof {
        sizes_are_not_negative(*config, 0);
    }
    config.vocab_size * config.hidden_size * 2
}

/// Tail node overhead: output norm + LM head.
pub fn tail_overhead(config: &ModelConfig) -> (res: usize)
    requires
        output_bytes(*config) <= usize::MAX,
    ensures
        res == output_bytes(*config),
{
    proof {
        sizes_are_not_negative(*config, 0);
    }
    config.hidden_size * 2 + config.vocab_size * config.hidden_size * 2
}

/// Maximum number of layers a node can hold given its available memory and role.
pub fn max_layers_for_node(
    available_memory: usize,
    per_layer_total: usize,
    role_overhead: usize,
) -> (res: usize)
    ensures
        res == layers_that_fit(
            available_memory as int,
            per_layer_total as int,
            role_overhead as int,
        ),
{
    if per_layer_total == 0 {
        return 0;
    }
    let rest: usize = if available_memory > role_overhead {
        available_memory - role_overhead
    } else {
        0
    };
    rest / per_layer_total
}

/// Role overhead for the i-th node in a pipeline of n nodes.
pub fn role_overhead(i: usize, n: usize, config: &ModelConfig) -> (res: usize)
    requires
        i < n,
        embedding_bytes(*config) + output_bytes(*config) <= usize::MAX,
    ensures
        res == overhead_bytes(i as int, n as int, *config),
{
    proof {
        sizes_are_not_negative(*config, 0);
    }
    let head: usize = if i == 0 {
        head_overhead(config)
    } else {
        0
    };
    let tail: usize = if i == n - 1 {
        tail_overhead(config)
    } else {
        0
    };
    head + tail
}

/// As many layers as [`layers_that_fit`] says do fit, and one more does not.
pub proof fn fitting_is_exact(available: int, per_layer: int, overhead: int, n: int)
    requires
        0 < per_layer,
        0 <= overhead <= available,
        0 <= n,
    ensures
        n <= layers_that_fit(available, per_layer, overhead) <==> n * per_layer + overhead
            <= available,
{
    let r = available - overhead;
    let q = r / per_layer;
    assert(n <= q <==> n * per_layer <= r) by (nonlinear_arith)
        requires
            0 < per_layer,
            0 <= r,
            0 <= n,
            q == r / per_layer,
    ;
}

} // verus!

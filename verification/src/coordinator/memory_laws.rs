//! The memory that scheduling reckons with is that of the tensors that a node holds.
use crate::base::dtype::DType;
use crate::base::model_config::ModelConfig;
use crate::base::tensor::{elements, storage_bytes};
use crate::coordinator::counts::sum;
use crate::coordinator::memory::{
    embedding_bytes, fitting_is_exact, layer_bytes, layer_cache_bytes, layer_weight_bytes,
    output_bytes, overhead_bytes, sizes_are_not_negative,
};
use crate::coordinator::scheduler::{
    fits, free_memory, room_of, rooms_of, scheduled, Estimate, LayerPlan, SchedulerInput,
};
use crate::coordinator::scheduler_laws::plans_keep_memory;
use crate::coordinator::worker::WorkerCapabilities;
use crate::engine::kv_cache::KvCacheManager;
use vstd::prelude::*;

verus! {

/// The bytes of half-precision tensors of these shapes.
pub open spec fn bytes_of(shapes: Seq<Seq<usize>>) -> int
    decreases shapes.len(),
{
    if shapes.len() == 0 {
        0
    } else {
        bytes_of(shapes.drop_last()) + storage_bytes(elements(shapes.last()), DType::FP16)
    }
}

/// The weights of a layer: the projections to queries, keys, values and back, the three of
/// the feed-forward network, and the two norms.
pub open spec fn layer_tensors(c: ModelConfig) -> Seq<Seq<usize>> {
    seq![
        seq![c.hidden_size, c.hidden_size],
        seq![c.hidden_size, c.num_kv_heads, c.head_dim],
        seq![c.hidden_size, c.num_kv_heads, c.head_dim],
        seq![c.hidden_size, c.hidden_size],
        seq![c.hidden_size, c.intermediate_size],
        seq![c.hidden_size, c.intermediate_size],
        seq![c.intermediate_size, c.hidden_size],
        seq![c.hidden_size],
        seq![c.hidden_size],
    ]
}

/// The cache of a layer: its keys and its values.
pub open spec fn cache_tensors(c: ModelConfig, max_seq_len: usize) -> Seq<Seq<usize>> {
    seq![
        seq![max_seq_len, c.num_kv_heads, c.head_dim],
        seq![max_seq_len, c.num_kv_heads, c.head_dim],
    ]
}

/// The weights and caches of `count` layers.
pub open spec fn layers_tensors(c: ModelConfig, max_seq_len: usize, count: nat) -> Seq<Seq<usize>>
    decreases count,
{
    if count == 0 {
        Seq::empty()
    } else {
        layers_tensors(c, max_seq_len, (count - 1) as nat) + layer_tensors(c) + cache_tensors(
            c,
            max_seq_len,
        )
    }
}

/// What node `i` of `n` holds with `count` layers: those, on the first node the embedding
/// table, and on the last one the output norm and the head of the model.
pub open spec fn node_tensors(
    c: ModelConfig,
    max_seq_len: usize,
    i: int,
    n: int,
    count: nat,
) -> Seq<Seq<usize>> {
    layers_tensors(c, max_seq_len, count) + (if i == 0 {
        seq![seq![c.vocab_size, c.hidden_size]]
    } else {
        Seq::empty()
    }) + (if i == n - 1 {
        seq![seq![c.hidden_size], seq![c.vocab_size, c.hidden_size]]
    } else {
        Seq::empty()
    })
}

proof fn bytes_add(a: Seq<Seq<usize>>, b: Seq<Seq<usize>>)
    ensures
        bytes_of(a + b) == bytes_of(a) + bytes_of(b),
    decreases b.len(),
{
    if b.len() == 0 {
        assert(a + b =~= a);
    } else {
        bytes_add(a, b.drop_last());
        assert((a + b).drop_last() =~= a + b.drop_last());
    }
}

proof fn bytes_push(a: Seq<Seq<usize>>, shape: Seq<usize>)
    ensures
        bytes_of(a.push(shape)) == bytes_of(a) + 2 * elements(shape),
{
    assert(a.push(shape).drop_last() =~= a);
}

proof fn elements_of_row(a: usize)
    ensures
        elements(seq![a]) == a,
{
    let none = Seq::<usize>::empty();
    assert(seq![a].drop_last() =~= none);
    assert(elements(none) == 1);
    assert(1 * (a as nat) == a) by (nonlinear_arith);
}

proof fn elements_of_matrix(a: usize, b: usize)
    ensures
        elements(seq![a, b]) == a * b,
{
    elements_of_row(a);
    assert(seq![a, b].drop_last() =~= seq![a]);
}

proof fn elements_of_cube(a: usize, b: usize, c: usize)
    ensures
        elements(seq![a, b, c]) == a * (b * c),
{
    elements_of_matrix(a, b);
    assert(seq![a, b, c].drop_last() =~= seq![a, b]);
    assert((a * b) * c == a * (b * c)) by (nonlinear_arith);
}

/// The bytes that scheduling reckons for the weights of a layer are those of its tensors.
pub proof fn layer_weights_are_their_tensors(c: ModelConfig)
    ensures
        layer_weight_bytes(c) == bytes_of(layer_tensors(c)),
{
    let h = c.hidden_size;
    let inter = c.intermediate_size;
    let t = layer_tensors(c);
    elements_of_matrix(h, h);
    elements_of_cube(h, c.num_kv_heads, c.head_dim);
    elements_of_matrix(h, inter);
    elements_of_matrix(inter, h);
    elements_of_row(h);
    assert(inter * h == h * inter) by (nonlinear_arith);
    let e = Seq::<Seq<usize>>::empty();
    bytes_push(e, t[0]);
    bytes_push(e.push(t[0]), t[1]);
    bytes_push(e.push(t[0]).push(t[1]), t[2]);
    bytes_push(e.push(t[0]).push(t[1]).push(t[2]), t[3]);
    let four = e.push(t[0]).push(t[1]).push(t[2]).push(t[3]);
    bytes_push(four, t[4]);
    bytes_push(four.push(t[4]), t[5]);
    bytes_push(four.push(t[4]).push(t[5]), t[6]);
    bytes_push(four.push(t[4]).push(t[5]).push(t[6]), t[7]);
    bytes_push(four.push(t[4]).push(t[5]).push(t[6]).push(t[7]), t[8]);
    assert(four.push(t[4]).push(t[5]).push(t[6]).push(t[7]).push(t[8]) =~= t);
}

/// The bytes that scheduling reckons for the cache of a layer are those of its tensors: keys
/// and values of `max_seq_len` tokens, by heads, in half precision.
pub proof fn layer_caches_are_their_tensors(c: ModelConfig, max_seq_len: usize)
    ensures
        layer_cache_bytes(c, max_seq_len) == bytes_of(cache_tensors(c, max_seq_len)),
        layer_cache_bytes(c, max_seq_len) == 4 * (max_seq_len * (c.num_kv_heads * c.head_dim)),
{
    let t = cache_tensors(c, max_seq_len);
    elements_of_cube(max_seq_len, c.num_kv_heads, c.head_dim);
    let e = Seq::<Seq<usize>>::empty();
    bytes_push(e, t[0]);
    bytes_push(e.push(t[0]), t[1]);
    assert(e.push(t[0]).push(t[1]) =~= t);
}

/// The size of a layer's cache follows the number of key/value heads and the size of a head,
/// and depends on nothing else of the model: `k` times as many elements of keys per token take
/// `k` times as many bytes, whatever the models are otherwise.
pub proof fn cache_size_follows_its_heads(a: ModelConfig, b: ModelConfig, max_seq_len: usize, k: int)
    requires
        b.num_kv_heads * b.head_dim == k * (a.num_kv_heads * a.head_dim),
    ensures
        layer_cache_bytes(b, max_seq_len) == k * layer_cache_bytes(a, max_seq_len),
{
    let m = max_seq_len as int;
    let width = a.num_kv_heads * a.head_dim;
    layer_caches_are_their_tensors(a, max_seq_len);
    layer_caches_are_their_tensors(b, max_seq_len);
    assert(4 * (m * (k * width)) == k * (4 * (m * width))) by (nonlinear_arith);
}

/// A contiguous cache takes as many bytes for a sequence as scheduling reckons for its layers:
/// the tensors that it allocates are two for each layer, of its own shape.
pub proof fn caches_take_what_is_reckoned(cache: KvCacheManager, c: ModelConfig, max_seq_len: usize)
    requires
        cache.tensor_shape() == seq![max_seq_len, c.num_kv_heads, c.head_dim],
    ensures
        bytes_of(Seq::new(2 * cache.layers() as nat, |i: int| cache.tensor_shape()))
            == cache.layers() * layer_cache_bytes(c, max_seq_len),
{
    let shape = cache.tensor_shape();
    equal_tensors(shape, 2 * cache.layers() as nat);
    layer_caches_are_their_tensors(c, max_seq_len);
    elements_of_cube(max_seq_len, c.num_kv_heads, c.head_dim);
    let l = cache.layers() as int;
    let e = elements(shape) as int;
    assert((2 * l) * (2 * e) == l * (4 * e)) by (nonlinear_arith);
    assert(Seq::new(2 * cache.layers() as nat, |i: int| cache.tensor_shape()) =~= Seq::new(
        2 * cache.layers() as nat,
        |i: int| shape,
    ));
}

proof fn equal_tensors(shape: Seq<usize>, n: nat)
    ensures
        bytes_of(Seq::new(n, |i: int| shape)) == n * (2 * elements(shape)),
    decreases n,
{
    let all = Seq::new(n, |i: int| shape);
    let e = 2 * elements(shape);
    if n > 0 {
        equal_tensors(shape, (n - 1) as nat);
        assert(all.drop_last() =~= Seq::new((n - 1) as nat, |i: int| shape));
        assert(all.last() == shape);
        assert(storage_bytes(elements(shape), DType::FP16) == e);
        assert((n - 1) * e + e == n * e) by (nonlinear_arith);
    } else {
        assert(all =~= Seq::empty());
        assert(0 * e == 0) by (nonlinear_arith);
    }
}

proof fn layers_bytes(c: ModelConfig, max_seq_len: usize, count: nat)
    ensures
        bytes_of(layers_tensors(c, max_seq_len, count)) == count * layer_bytes(c, max_seq_len),
    decreases count,
{
    let l = layer_bytes(c, max_seq_len);
    if count > 0 {
        let rest = layers_tensors(c, max_seq_len, (count - 1) as nat);
        layers_bytes(c, max_seq_len, (count - 1) as nat);
        bytes_add(rest, layer_tensors(c));
        bytes_add(rest + layer_tensors(c), cache_tensors(c, max_seq_len));
        layer_weights_are_their_tensors(c);
        layer_caches_are_their_tensors(c, max_seq_len);
        assert((count - 1) * l + l == count * l) by (nonlinear_arith);
    } else {
        assert(0 * l == 0) by (nonlinear_arith);
    }
}

/// What scheduling reckons for a node with some layers are the bytes of the tensors that the
/// node holds.
pub proof fn nodes_take_what_is_reckoned(
    c: ModelConfig,
    max_seq_len: usize,
    i: int,
    n: int,
    count: nat,
)
    ensures
        bytes_of(node_tensors(c, max_seq_len, i, n, count)) == count * layer_bytes(c, max_seq_len)
            + overhead_bytes(i, n, c),
{
    let layers = layers_tensors(c, max_seq_len, count);
    let e = Seq::<Seq<usize>>::empty();
    let table = seq![c.vocab_size, c.hidden_size];
    let norm = seq![c.hidden_size];
    layers_bytes(c, max_seq_len, count);
    elements_of_matrix(c.vocab_size, c.hidden_size);
    elements_of_row(c.hidden_size);
    bytes_push(e, table);
    assert(e.push(table) =~= seq![table]);
    bytes_push(e, norm);
    bytes_push(e.push(norm), table);
    assert(e.push(norm).push(table) =~= seq![norm, table]);
    let first = if i == 0 {
        seq![table]
    } else {
        e
    };
    let last = if i == n - 1 {
        seq![norm, table]
    } else {
        e
    };
    bytes_add(layers, first);
    bytes_add(layers + first, last);
    assert(embedding_bytes(c) == bytes_of(seq![table]));
    assert(output_bytes(c) == bytes_of(seq![norm, table]));
}

/// The number of layers that a node has room for is exact: a node can hold some layers if and
/// only if the tensors that it then holds fit into its memory.
pub proof fn rooms_are_exact(
    nodes: Seq<WorkerCapabilities>,
    c: ModelConfig,
    max_seq_len: usize,
    i: int,
    count: nat,
)
    requires
        0 <= i < nodes.len(),
        0 < count,
        0 < layer_bytes(c, max_seq_len),
    ensures
        count <= room_of(nodes, c, max_seq_len, i) <==> bytes_of(
            node_tensors(c, max_seq_len, i, nodes.len() as int, count),
        ) <= nodes[i].gpu_memory_available,
{
    let n = nodes.len() as int;
    let available = nodes[i].gpu_memory_available as int;
    let per_layer = layer_bytes(c, max_seq_len);
    let overhead = overhead_bytes(i, n, c);
    nodes_take_what_is_reckoned(c, max_seq_len, i, n, count);
    sizes_are_not_negative(c, max_seq_len);
    if overhead <= available {
        fitting_is_exact(available, per_layer, overhead, count as int);
        let r = available - overhead;
        assert(0 <= r / per_layer <= r) by (nonlinear_arith)
            requires
                0 <= r,
                0 < per_layer,
        ;
        assert(r == 0 ==> r / per_layer == 0);
    } else {
        assert(0int / per_layer == 0) by (nonlinear_arith)
            requires
                0 < per_layer,
        ;
        assert(count * per_layer >= 0) by (nonlinear_arith)
            requires
                0 < per_layer,
                0 < count,
        ;
    }
}

/// In every plan, the tensors of a node that has layers fit into its memory: the weights and
/// the caches of its layers, and the embedding table or the output where the node holds them.
/// (A node without a layer is not asked to hold anything, and may be too small for its place.)
pub proof fn plans_fit_into_memory(
    input: SchedulerInput,
    estimates: Seq<Estimate>,
    p: LayerPlan,
    i: int,
)
    requires
        scheduled(input, estimates, Ok(p)),
        0 <= i < p.workers@.len(),
        p.layer_counts@[i] > 0,
    ensures
        bytes_of(
            node_tensors(
                input.model_config,
                input.max_seq_len,
                i,
                p.workers@.len() as int,
                p.layer_counts@[i] as nat,
            ),
        ) <= p.workers@[i].gpu_memory_available,
{
    let c = input.model_config;
    plans_keep_memory(input, estimates, p, i);
    sizes_are_not_negative(c, input.max_seq_len);
    assert(rooms_of(p.workers@, c, input.max_seq_len)[i] == room_of(
        p.workers@,
        c,
        input.max_seq_len,
        i,
    ));
    rooms_are_exact(p.workers@, c, input.max_seq_len, i, p.layer_counts@[i] as nat);
}

/// The layers of the first `k` nodes take no more than the memory that these have beside what
/// their places ask for.
proof fn shares_fit(
    nodes: Seq<WorkerCapabilities>,
    c: ModelConfig,
    max_seq_len: usize,
    counts: Seq<usize>,
    k: int,
)
    requires
        counts.len() == nodes.len(),
        0 <= k <= nodes.len(),
        forall|i: int|
            0 <= i < counts.len() && #[trigger] counts[i] > 0 ==> bytes_of(
                node_tensors(c, max_seq_len, i, nodes.len() as int, counts[i] as nat),
            ) <= nodes[i].gpu_memory_available,
    ensures
        sum(counts.take(k)) * layer_bytes(c, max_seq_len) <= free_memory(nodes, c, k),
    decreases k,
{
    let l = layer_bytes(c, max_seq_len);
    if k > 0 {
        shares_fit(nodes, c, max_seq_len, counts, k - 1);
        let i = k - 1;
        assert(counts.take(k).drop_last() =~= counts.take(k - 1));
        nodes_take_what_is_reckoned(
            c,
            max_seq_len,
            i,
            nodes.len() as int,
            counts[i] as nat,
        );
        let before = sum(counts.take(k - 1));
        let more = counts[i] as int;
        assert((before + more) * l == before * l + more * l) by (nonlinear_arith);
        assert(more == 0 ==> more * l == 0) by (nonlinear_arith);
    } else {
        assert(counts.take(0) =~= Seq::empty());
        assert(0 * l == 0) by (nonlinear_arith);
    }
}

/// A model that can be laid out over some nodes, each holding its share in its memory, counts
/// as fitting them.
pub proof fn models_that_can_be_laid_out_fit(
    nodes: Seq<WorkerCapabilities>,
    c: ModelConfig,
    max_seq_len: usize,
    counts: Seq<usize>,
)
    requires
        counts.len() == nodes.len(),
        sum(counts) == c.num_layers,
        forall|i: int|
            0 <= i < counts.len() && #[trigger] counts[i] > 0 ==> bytes_of(
                node_tensors(c, max_seq_len, i, nodes.len() as int, counts[i] as nat),
            ) <= nodes[i].gpu_memory_available,
    ensures
        fits(nodes, c, max_seq_len),
{
    shares_fit(nodes, c, max_seq_len, counts, nodes.len() as int);
    assert(counts.take(nodes.len() as int) =~= counts);
}

/// The memory of the first `k` nodes.
pub open spec fn all_memory(nodes: Seq<WorkerCapabilities>, k: int) -> int
    decreases k,
{
    if k <= 0 {
        0
    } else {
        all_memory(nodes, k - 1) + nodes[k - 1].gpu_memory_available
    }
}

proof fn free_memory_is_memory(nodes: Seq<WorkerCapabilities>, c: ModelConfig, k: int)
    requires
        0 <= k <= nodes.len(),
    ensures
        free_memory(nodes, c, k) <= all_memory(nodes, k),
    decreases k,
{
    sizes_are_not_negative(c, 0);
    if k > 0 {
        free_memory_is_memory(nodes, c, k - 1);
    }
}

/// A model fits no nodes that have less memory, all together, than its layers take.
pub proof fn models_need_memory(nodes: Seq<WorkerCapabilities>, c: ModelConfig, max_seq_len: usize)
    requires
        fits(nodes, c, max_seq_len),
    ensures
        bytes_of(layers_tensors(c, max_seq_len, c.num_layers as nat)) <= all_memory(
            nodes,
            nodes.len() as int,
        ),
{
    layers_bytes(c, max_seq_len, c.num_layers as nat);
    free_memory_is_memory(nodes, c, nodes.len() as int);
}

} // verus!

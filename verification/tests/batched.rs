//! Forward passes of batches.
use fracture::base::backend::{no_compression, Backend, DeviceTimer};
use fracture::base::dtype::DType;
use fracture::base::error::{FractureError, Result};
use fracture::base::model_config::ModelConfig;
use fracture::base::numeric::{Double, Single};
use fracture::base::tensor::{DeviceTensor, TensorId};
use fracture::engine::batched::{batched_forward, batched_forward_node, SequenceSlice};
use fracture::engine::block_table::BLOCK_SIZE;
use fracture::engine::node::{NodeConfig, NodeOutput};
use fracture::engine::paged_kv_cache::PagedKvCacheManager;
use fracture::engine::weights::{LayerWeights, WeightStore};

fn d(x: f64) -> Double {
    Double::from_bits(x.to_bits())
}

/// A device that does nothing.
struct MockBackend {
    next_id: u64,
    fails: bool,
    log: Vec<String>,
    /// The tensors that were allocated and not freed.
    held: Vec<u64>,
}

impl MockBackend {
    fn new() -> Self {
        Self { next_id: 1, fails: false, log: Vec::new(), held: Vec::new() }
    }

    fn failing() -> Self {
        Self { next_id: 1, fails: true, log: Vec::new(), held: Vec::new() }
    }
}

impl Backend for MockBackend {
    fn allocate(&mut self, shape: &[usize], dtype: DType) -> Result<DeviceTensor> {
        self.next_id += 1;
        self.held.push(self.next_id - 1);
        Ok(DeviceTensor::new(TensorId(self.next_id - 1), shape.to_vec(), dtype))
    }
    fn free(&mut self, tensor: &DeviceTensor) -> Result<()> {
        self.held.retain(|id| *id != tensor.id.0);
        Ok(())
    }
    fn copy_to_device(&mut self, _dst: &DeviceTensor, _src: &[u8]) -> Result<()> {
        Ok(())
    }
    fn copy_to_host(&mut self, _src: &DeviceTensor, dst: &mut [u8]) -> Result<()> {
        dst.fill(0);
        Ok(())
    }
    fn matmul(&mut self, _a: &DeviceTensor, _b: &DeviceTensor, _out: &DeviceTensor) -> Result<()> {
        if self.fails {
            return Err(FractureError::Backend("induced matmul failure".into()));
        }
        Ok(())
    }
    fn rmsnorm(&mut self, _input: &DeviceTensor, _weight: &DeviceTensor, _eps: Double, _out: &DeviceTensor) -> Result<()> {
        Ok(())
    }
    fn rope(&mut self, _q: &DeviceTensor, _k: &DeviceTensor, _positions: &[u32], _theta: Double, _head_dim: usize) -> Result<()> {
        Ok(())
    }
    fn attention(&mut self, _q: &DeviceTensor, _k_cache: &DeviceTensor, _v_cache: &DeviceTensor, _num_kv_heads: usize, _start_pos: usize, _out: &DeviceTensor) -> Result<()> {
        Ok(())
    }
    fn attention_paged(&mut self, _q: &DeviceTensor, block_table: &[i32], _k_blocks: &[&DeviceTensor], _v_blocks: &[&DeviceTensor], _num_kv_heads: usize, kv_len: usize, start_pos: usize, _out: &DeviceTensor) -> Result<()> {
        self.log.push(format!("attend {} from {} to {}", block_table.len(), start_pos, kv_len));
        Ok(())
    }
    fn turboquant_compress(&mut self, _input: &DeviceTensor, _rotation: &DeviceTensor, _centroids: &DeviceTensor, _bits: u8, _packed_out: &DeviceTensor, _norms_out: &DeviceTensor) -> Result<()> {
        Err(no_compression())
    }
    fn silu_mul(&mut self, _gate: &DeviceTensor, _up: &DeviceTensor, _out: &DeviceTensor) -> Result<()> {
        Ok(())
    }
    fn embedding(&mut self, _token_ids: &[u32], _table: &DeviceTensor, _out: &DeviceTensor) -> Result<()> {
        Ok(())
    }
    fn add(&mut self, _a: &DeviceTensor, _b: &DeviceTensor, _out: &DeviceTensor) -> Result<()> {
        Ok(())
    }
    fn copy_rows(&mut self, _src: &DeviceTensor, _dst: &DeviceTensor, src_offset: usize, dst_offset: usize, count: usize) -> Result<()> {
        self.log.push(format!("copy x{} from {} to {}", count, src_offset, dst_offset));
        Ok(())
    }
    fn device_name(&self) -> &str {
        "mock"
    }
    fn total_memory(&self) -> usize {
        1 << 30
    }
    fn available_memory(&self) -> usize {
        1 << 30
    }
    fn synchronize(&mut self) -> Result<()> {
        Ok(())
    }
    fn create_timer(&mut self) -> Result<DeviceTimer> {
        Ok(DeviceTimer(0))
    }
    fn start_timer(&mut self, _timer: &DeviceTimer) -> Result<()> {
        Ok(())
    }
    fn stop_timer(&mut self, _timer: &DeviceTimer) -> Result<Single> {
        Ok(Single::from_bits(0))
    }
    fn destroy_timer(&mut self, _timer: &DeviceTimer) -> Result<()> {
        Ok(())
    }
    fn marker_push(&mut self, _name: &str) {}
    fn marker_pop(&mut self) {}
}

fn tiny_config() -> ModelConfig {
    ModelConfig {
        hidden_size: 8,
        num_layers: 2,
        num_q_heads: 2,
        num_kv_heads: 1,
        head_dim: 4,
        intermediate_size: 16,
        vocab_size: 32,
        rope_theta: d(10000.0),
        rms_norm_eps: d(1e-5),
        max_seq_len: 64,
    }
}

fn fake_weights(backend: &mut MockBackend) -> WeightStore {
    let cfg = tiny_config();
    let h = cfg.hidden_size;
    let kv = cfg.num_kv_heads * cfg.head_dim;
    let inter = cfg.intermediate_size;
    let v = cfg.vocab_size;

    let mut layers = Vec::new();
    for _ in 0..cfg.num_layers {
        layers.push(LayerWeights {
            q_proj: backend.allocate(&[h, h], DType::FP16).unwrap(),
            k_proj: backend.allocate(&[kv, h], DType::FP16).unwrap(),
            v_proj: backend.allocate(&[kv, h], DType::FP16).unwrap(),
            o_proj: backend.allocate(&[h, h], DType::FP16).unwrap(),
            gate_proj: backend.allocate(&[inter, h], DType::FP16).unwrap(),
            up_proj: backend.allocate(&[inter, h], DType::FP16).unwrap(),
            down_proj: backend.allocate(&[h, inter], DType::FP16).unwrap(),
            attn_norm: backend.allocate(&[h], DType::FP16).unwrap(),
            ffn_norm: backend.allocate(&[h], DType::FP16).unwrap(),
        });
    }

    WeightStore {
        config: cfg,
        token_embedding: backend.allocate(&[v, h], DType::FP16).unwrap(),
        layers,
        output_norm: backend.allocate(&[h], DType::FP16).unwrap(),
        lm_head: backend.allocate(&[v, h], DType::FP16).unwrap(),
    }
}

#[test]
fn test_batched_forward_empty() {
    let mut backend = MockBackend::new();
    let weights = fake_weights(&mut backend);
    let mut cache = PagedKvCacheManager::new(
        10, weights.config.num_layers, weights.config.num_kv_heads,
        weights.config.head_dim, &mut backend,
    ).unwrap();

    let result = batched_forward(
        &mut backend, &weights, &(0..weights.config.num_layers), &mut cache, &[],
    ).unwrap();
    assert!(result.logits.is_empty());
}

#[test]
fn batched_test_batched_forward_single_sequence() {
    let mut backend = MockBackend::new();
    let weights = fake_weights(&mut backend);
    let cfg = &weights.config;
    let mut cache = PagedKvCacheManager::new(
        20, cfg.num_layers, cfg.num_kv_heads, cfg.head_dim, &mut backend,
    ).unwrap();

    let h = cache.allocate().unwrap();
    let seqs = vec![SequenceSlice {
        handle: h,
        token_ids: vec![1, 2, 3],
        positions: vec![0, 1, 2],
    }];

    let result = batched_forward(
        &mut backend, &weights, &(0..cfg.num_layers), &mut cache, &seqs,
    ).unwrap();
    assert_eq!(result.logits.len(), 1);
    assert_eq!(result.logits[0].len(), cfg.vocab_size);

    cache.free(h).unwrap();
}

#[test]
fn test_batched_forward_multiple_sequences() {
    let mut backend = MockBackend::new();
    let weights = fake_weights(&mut backend);
    let cfg = &weights.config;
    let mut cache = PagedKvCacheManager::new(
        50, cfg.num_layers, cfg.num_kv_heads, cfg.head_dim, &mut backend,
    ).unwrap();

    let h1 = cache.allocate().unwrap();
    let h2 = cache.allocate().unwrap();
    let h3 = cache.allocate().unwrap();

    let seqs = vec![
        SequenceSlice { handle: h1, token_ids: vec![1, 2, 3], positions: vec![0, 1, 2] },
        SequenceSlice { handle: h2, token_ids: vec![10], positions: vec![5] }, // decode step
        SequenceSlice { handle: h3, token_ids: vec![20, 21], positions: vec![0, 1] },
    ];

    let result = batched_forward(
        &mut backend, &weights, &(0..cfg.num_layers), &mut cache, &seqs,
    ).unwrap();
    assert_eq!(result.logits.len(), 3);
    for logits in &result.logits {
        assert_eq!(logits.len(), cfg.vocab_size);
    }

    cache.free(h1).unwrap();
    cache.free(h2).unwrap();
    cache.free(h3).unwrap();
}

#[test]
fn test_batched_forward_node_head_returns_activations() {
    let mut backend = MockBackend::new();
    let weights = fake_weights(&mut backend);
    let cfg = &weights.config;
    let node_config = NodeConfig::new(0..1, cfg.num_layers).unwrap();
    let mut cache = PagedKvCacheManager::new(
        20, 1, cfg.num_kv_heads, cfg.head_dim, &mut backend,
    ).unwrap();

    let h = cache.allocate().unwrap();
    let seqs = vec![SequenceSlice {
        handle: h,
        token_ids: vec![1, 2, 3],
        positions: vec![0, 1, 2],
    }];

    let result = batched_forward_node(
        &mut backend, &weights, &node_config, &mut cache, &seqs, None,
    ).unwrap();
    match result {
        NodeOutput::Activations(t) => {
            assert_eq!(t.shape, vec![3, cfg.hidden_size]);
        }
        NodeOutput::Logits(_) => panic!("head node should return activations"),
    }

    cache.free(h).unwrap();
}

#[test]
fn test_batched_forward_node_tail_returns_logits() {
    let mut backend = MockBackend::new();
    let weights = fake_weights(&mut backend);
    let cfg = &weights.config;
    // Tail node: last layer only
    let node_config = NodeConfig::new(1..2, cfg.num_layers).unwrap();
    let mut cache = PagedKvCacheManager::new(
        20, 1, cfg.num_kv_heads, cfg.head_dim, &mut backend,
    ).unwrap();

    let h = cache.allocate().unwrap();
    let seqs = vec![SequenceSlice {
        handle: h,
        token_ids: vec![], // tail doesn't use token_ids
        positions: vec![0, 1],
    }];

    // Provide activations as if from a previous node
    let hidden = backend.allocate(&[2, cfg.hidden_size], DType::FP16).unwrap();
    let result = batched_forward_node(
        &mut backend, &weights, &node_config, &mut cache, &seqs, Some(hidden),
    ).unwrap();
    match result {
        NodeOutput::Logits(logits) => {
            assert_eq!(logits.len(), cfg.vocab_size);
        }
        NodeOutput::Activations(_) => panic!("tail node should return logits"),
    }

    cache.free(h).unwrap();
}

#[test]
fn test_batched_forward_node_full_model() {
    let mut backend = MockBackend::new();
    let weights = fake_weights(&mut backend);
    let cfg = &weights.config;
    // Full model: all layers
    let node_config = NodeConfig::new(0..cfg.num_layers, cfg.num_layers).unwrap();
    let mut cache = PagedKvCacheManager::new(
        50, cfg.num_layers, cfg.num_kv_heads, cfg.head_dim, &mut backend,
    ).unwrap();

    let h1 = cache.allocate().unwrap();
    let h2 = cache.allocate().unwrap();
    let seqs = vec![
        SequenceSlice { handle: h1, token_ids: vec![1, 2, 3], positions: vec![0, 1, 2] },
        SequenceSlice { handle: h2, token_ids: vec![10], positions: vec![0] },
    ];

    let result = batched_forward_node(
        &mut backend, &weights, &node_config, &mut cache, &seqs, None,
    ).unwrap();
    match result {
        NodeOutput::Logits(logits) => {
            // Two sequences, each producing vocab_size logits, flattened
            assert_eq!(logits.len(), 2 * cfg.vocab_size);
        }
        NodeOutput::Activations(_) => panic!("full model should return logits"),
    }

    cache.free(h1).unwrap();
    cache.free(h2).unwrap();
}

#[test]
fn test_batched_forward_node_head_rejects_activations() {
    let mut backend = MockBackend::new();
    let weights = fake_weights(&mut backend);
    let cfg = &weights.config;
    let node_config = NodeConfig::new(0..1, cfg.num_layers).unwrap();
    let mut cache = PagedKvCacheManager::new(
        10, 1, cfg.num_kv_heads, cfg.head_dim, &mut backend,
    ).unwrap();

    let h = cache.allocate().unwrap();
    let seqs = vec![SequenceSlice {
        handle: h,
        token_ids: vec![1],
        positions: vec![0],
    }];

    let hidden = backend.allocate(&[1, cfg.hidden_size], DType::FP16).unwrap();
    let result = batched_forward_node(
        &mut backend, &weights, &node_config, &mut cache, &seqs, Some(hidden),
    );
    assert!(result.is_err());
    assert!(result.err().unwrap().to_string().contains("head node received activations"));

    cache.free(h).unwrap();
}

#[test]
fn test_batched_forward_node_nonhead_requires_activations() {
    let mut backend = MockBackend::new();
    let weights = fake_weights(&mut backend);
    let cfg = &weights.config;
    let node_config = NodeConfig::new(1..2, cfg.num_layers).unwrap();
    let mut cache = PagedKvCacheManager::new(
        10, 1, cfg.num_kv_heads, cfg.head_dim, &mut backend,
    ).unwrap();

    let h = cache.allocate().unwrap();
    let seqs = vec![SequenceSlice {
        handle: h,
        token_ids: vec![],
        positions: vec![0],
    }];

    let result = batched_forward_node(
        &mut backend, &weights, &node_config, &mut cache, &seqs, None,
    );
    assert!(result.is_err());
    assert!(result.err().unwrap().to_string().contains("non-head node requires activations"));

    cache.free(h).unwrap();
}

#[test]
fn test_batched_forward_node_empty_sequences_rejected() {
    let mut backend = MockBackend::new();
    let weights = fake_weights(&mut backend);
    let cfg = &weights.config;
    let node_config = NodeConfig::new(0..cfg.num_layers, cfg.num_layers).unwrap();
    let mut cache = PagedKvCacheManager::new(
        10, cfg.num_layers, cfg.num_kv_heads, cfg.head_dim, &mut backend,
    ).unwrap();

    let result = batched_forward_node(
        &mut backend, &weights, &node_config, &mut cache, &[], None,
    );
    assert!(result.is_err());
    assert!(result.err().unwrap().to_string().contains("no sequences"));
}

/// batched_forward propagates a backend matmul error as FractureError::Backend.
#[test]
fn test_batched_forward_backend_error_propagation() {
    let mut failing = MockBackend::failing();
    // Use the non-failing backend to build weights (need valid alloc),
    // then run with the failing backend.
    let mut good = MockBackend::new();
    let weights = fake_weights(&mut good);
    let cfg = &weights.config;

    // Build cache with the failing backend (alloc succeeds, matmul fails later).
    let mut cache = PagedKvCacheManager::new(
        20, cfg.num_layers, cfg.num_kv_heads, cfg.head_dim, &mut failing,
    ).unwrap();

    let h = cache.allocate().unwrap();
    let seqs = vec![SequenceSlice {
        handle: h,
        token_ids: vec![1, 2],
        positions: vec![0, 1],
    }];

    let result = batched_forward(
        &mut failing, &weights, &(0..cfg.num_layers), &mut cache, &seqs,
    );
    assert!(result.is_err(), "expected error from failing matmul");
    let err = result.err().unwrap();
    assert!(
        matches!(err, FractureError::Backend(_)),
        "expected Backend error, got: {err:?}"
    );
    assert!(err.to_string().contains("induced matmul failure"));
}

/// batched_forward_node propagates a backend matmul error as FractureError::Backend.
#[test]
fn test_batched_forward_node_backend_error_propagation() {
    let mut failing = MockBackend::failing();
    let mut good = MockBackend::new();
    let weights = fake_weights(&mut good);
    let cfg = &weights.config;

    // Full model node config — head node embeds then runs layers.
    let node_config = NodeConfig::new(0..cfg.num_layers, cfg.num_layers).unwrap();

    let mut cache = PagedKvCacheManager::new(
        20, cfg.num_layers, cfg.num_kv_heads, cfg.head_dim, &mut failing,
    ).unwrap();

    let h = cache.allocate().unwrap();
    let seqs = vec![SequenceSlice {
        handle: h,
        token_ids: vec![1],
        positions: vec![0],
    }];

    let result = batched_forward_node(
        &mut failing, &weights, &node_config, &mut cache, &seqs, None,
    );
    assert!(result.is_err(), "expected error from failing matmul");
    let err = result.err().unwrap();
    assert!(
        matches!(err, FractureError::Backend(_)),
        "expected Backend error, got: {err:?}"
    );
    assert!(err.to_string().contains("induced matmul failure"));
}

/// Providing a DeviceTensor with wrong shape to a non-head node returns an
/// error containing "activation shape".
#[test]
fn test_batched_forward_node_activation_shape_mismatch() {
    let mut backend = MockBackend::new();
    let weights = fake_weights(&mut backend);
    let cfg = &weights.config;

    // Tail node: last layer only, expects activations.
    let node_config = NodeConfig::new(1..2, cfg.num_layers).unwrap();
    let mut cache = PagedKvCacheManager::new(
        20, 1, cfg.num_kv_heads, cfg.head_dim, &mut backend,
    ).unwrap();

    let h = cache.allocate().unwrap();
    let seqs = vec![SequenceSlice {
        handle: h,
        token_ids: vec![],
        positions: vec![0, 1], // 2 tokens
    }];

    // Wrong shape: expect [2, hidden_size] but provide [3, hidden_size].
    let wrong_shape = backend.allocate(&[3, cfg.hidden_size], DType::FP16).unwrap();

    let result = batched_forward_node(
        &mut backend, &weights, &node_config, &mut cache, &seqs, Some(wrong_shape),
    );
    assert!(result.is_err(), "expected shape mismatch error");
    let msg = result.err().unwrap().to_string();
    assert!(
        msg.contains("activation shape"),
        "error should mention 'activation shape', got: {msg}"
    );

    cache.free(h).unwrap();
}

/// Providing SequenceSlice where token_ids.len() != positions.len() for a head
/// node returns an error containing "token count mismatch".
#[test]
fn test_batched_forward_node_token_position_count_mismatch() {
    let mut backend = MockBackend::new();
    let weights = fake_weights(&mut backend);
    let cfg = &weights.config;

    // Head node (full model) — token_ids are used.
    let node_config = NodeConfig::new(0..cfg.num_layers, cfg.num_layers).unwrap();
    let mut cache = PagedKvCacheManager::new(
        20, cfg.num_layers, cfg.num_kv_heads, cfg.head_dim, &mut backend,
    ).unwrap();

    let h = cache.allocate().unwrap();
    let seqs = vec![SequenceSlice {
        handle: h,
        token_ids: vec![1, 2, 3], // 3 tokens
        positions: vec![0, 1],    // 2 positions — mismatch
    }];

    let result = batched_forward_node(
        &mut backend, &weights, &node_config, &mut cache, &seqs, None,
    );
    assert!(result.is_err(), "expected token count mismatch error");
    let msg = result.err().unwrap().to_string();
    assert!(
        msg.contains("token count mismatch"),
        "error should mention 'token count mismatch', got: {msg}"
    );

    cache.free(h).unwrap();
}

/// batched_forward returns FractureError::OutOfMemory when the paged block pool
/// is exhausted mid-batch.
#[test]
fn test_batched_forward_cache_oom() {
    let mut backend = MockBackend::new();
    let weights = fake_weights(&mut backend);
    let cfg = &weights.config;

    // Only 3 blocks: each alloc() takes 1 block, so 3 sequences use all 3.
    // Appending tokens to any of them requires a new block — but pool is empty.
    let mut cache = PagedKvCacheManager::new(
        3, cfg.num_layers, cfg.num_kv_heads, cfg.head_dim, &mut backend,
    ).unwrap();

    let h1 = cache.allocate().unwrap(); // 1 block
    let h2 = cache.allocate().unwrap(); // 1 block
    let h3 = cache.allocate().unwrap(); // 1 block — pool now empty
    assert_eq!(cache.num_free_blocks(), 0);

    // Each sequence provides BLOCK_SIZE + 1 tokens, which fills the initial block
    // completely and then needs one more block — but the pool is empty → OOM.
    let tokens: Vec<u32> = (0..BLOCK_SIZE as u32 + 1).collect();
    let positions: Vec<u32> = (0..BLOCK_SIZE as u32 + 1).collect();

    let seqs = vec![
        SequenceSlice { handle: h1, token_ids: tokens.clone(), positions: positions.clone() },
        SequenceSlice { handle: h2, token_ids: tokens.clone(), positions: positions.clone() },
        SequenceSlice { handle: h3, token_ids: tokens.clone(), positions: positions.clone() },
    ];

    let result = batched_forward(
        &mut backend, &weights, &(0..cfg.num_layers), &mut cache, &seqs,
    );
    assert!(result.is_err(), "expected OOM error");
    assert!(
        matches!(result.err().unwrap(), FractureError::OutOfMemory { .. }),
        "expected OutOfMemory error"
    );
}

#[test]
fn each_sequence_attends_to_its_own_tokens() {
    let mut backend = MockBackend::new();
    let weights = fake_weights(&mut backend);
    let cfg = weights.config;
    let mut cache =
        PagedKvCacheManager::new(10, cfg.num_layers, cfg.num_kv_heads, cfg.head_dim, &mut backend)
            .unwrap();
    let a = cache.allocate().unwrap();
    let b = cache.allocate().unwrap();
    let seqs = vec![
        SequenceSlice { handle: a, token_ids: vec![1, 2, 3], positions: vec![0, 1, 2] },
        SequenceSlice { handle: b, token_ids: vec![9], positions: vec![0] },
    ];
    batched_forward(&mut backend, &weights, &(0..cfg.num_layers), &mut cache, &seqs).unwrap();
    assert_eq!(cache.seq_len(a).unwrap(), 3);
    assert_eq!(cache.seq_len(b).unwrap(), 1);
    let attended: Vec<&str> =
        backend.log.iter().filter(|l| l.starts_with("attend")).map(|l| l.as_str()).collect();
    // Both sequences in each of the two layers.
    assert_eq!(
        attended,
        vec![
            "attend 1 from 0 to 3",
            "attend 1 from 0 to 1",
            "attend 1 from 0 to 3",
            "attend 1 from 0 to 1",
        ]
    );
}

#[test]
fn batches_hold_nothing_but_the_activations_they_hand_on() {
    let mut backend = MockBackend::new();
    let weights = fake_weights(&mut backend);
    let cfg = weights.config;
    let mut cache =
        PagedKvCacheManager::new(10, cfg.num_layers, cfg.num_kv_heads, cfg.head_dim, &mut backend)
            .unwrap();
    let a = cache.allocate().unwrap();
    let b = cache.allocate().unwrap();
    let seqs = vec![
        SequenceSlice { handle: a, token_ids: vec![1, 2, 3], positions: vec![0, 1, 2] },
        SequenceSlice { handle: b, token_ids: vec![9], positions: vec![0] },
    ];
    let held = backend.held.clone();
    batched_forward(&mut backend, &weights, &(0..cfg.num_layers), &mut cache, &seqs).unwrap();
    assert_eq!(backend.held, held);

    let head = NodeConfig::new(0..1, cfg.num_layers).unwrap();
    match batched_forward_node(&mut backend, &weights, &head, &mut cache, &seqs, None).unwrap() {
        NodeOutput::Activations(t) => {
            let mut expected = held.clone();
            expected.push(t.id.0);
            assert_eq!(backend.held, expected);
        }
        NodeOutput::Logits(_) => panic!("the first of two nodes gives activations"),
    }
}

#[test]
fn a_sequence_that_occurs_twice_grows_by_both_parts() {
    let mut backend = MockBackend::new();
    let weights = fake_weights(&mut backend);
    let cfg = weights.config;
    let mut cache =
        PagedKvCacheManager::new(10, cfg.num_layers, cfg.num_kv_heads, cfg.head_dim, &mut backend)
            .unwrap();
    let a = cache.allocate().unwrap();
    let other = cache.allocate().unwrap();
    let seqs = vec![
        SequenceSlice { handle: a, token_ids: vec![1, 2], positions: vec![0, 1] },
        SequenceSlice { handle: a, token_ids: vec![3], positions: vec![2] },
    ];
    batched_forward(&mut backend, &weights, &(0..cfg.num_layers), &mut cache, &seqs).unwrap();
    assert_eq!(cache.seq_len(a).unwrap(), 3);
    assert_eq!(cache.seq_len(other).unwrap(), 0);
}

#[test]
fn without_sequences_no_weights_are_read() {
    let mut backend = MockBackend::new();
    let mut weights = fake_weights(&mut backend);
    weights.layers.truncate(0);
    let cfg = weights.config;
    let mut cache = PagedKvCacheManager::new(2, 0, cfg.num_kv_heads, cfg.head_dim, &mut backend)
        .unwrap();
    let out = batched_forward(&mut backend, &weights, &(0..7), &mut cache, &[]).unwrap();
    assert!(out.logits.is_empty());
    let node = NodeConfig::new(0..1, cfg.num_layers).unwrap();
    let err = batched_forward_node(&mut backend, &weights, &node, &mut cache, &[], None)
        .err()
        .unwrap();
    assert_eq!(err.to_string(), "pipeline error: batched_forward_node: no sequences");
}

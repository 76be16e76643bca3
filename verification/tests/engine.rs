//! Forward passes.
use fracture::base::backend::{no_compression, no_paged_attention, Backend, DeviceTimer};
use fracture::base::dtype::DType;
use fracture::base::error::{FractureError, Result};
use fracture::base::model_config::ModelConfig;
use fracture::base::numeric::{Double, Half, Single};
use fracture::base::tensor::{DeviceTensor, TensorId};
use fracture::base::turboquant::TurboQuantConfig;
use fracture::engine::cache_backend::KvCacheBackend;
use fracture::engine::engine::Engine;
use fracture::engine::kv_cache::{CacheHandle, KvCacheManager};
use fracture::engine::node::{NodeConfig, NodeInput, NodeOutput};
use fracture::engine::paged_kv_cache::PagedKvCacheManager;
use fracture::engine::pipeline::{ComputeNode, PipelineCoordinator};
use fracture::engine::profiling::ForwardProfile;
use fracture::engine::quantized_paged_kv_cache::QuantizedKvCacheManager;
use fracture::engine::quantized_pool::{Codebook, QuantTables};
use fracture::engine::weights::{LayerWeights, WeightStore};

fn d(x: f64) -> Double {
    Double::from_bits(x.to_bits())
}

/// A device that does nothing and remembers what it was asked.
struct MockBackend {
    next_id: u64,
    fail_on_matmul: bool,
    timer_stop_value: f32,
    timer_create_count: u64,
    marker_names: Vec<String>,
    marker_pop_count: u64,
    /// Source, destination, both offsets, and the count.
    copy_rows_calls: Vec<(u64, u64, usize, usize, usize)>,
    ops: Vec<&'static str>,
    allocated: Vec<u64>,
    freed: Vec<u64>,
    attention_paged_count: u64,
}

impl MockBackend {
    fn new() -> Self {
        Self {
            next_id: 1000,
            fail_on_matmul: false,
            timer_stop_value: 0.0,
            timer_create_count: 0,
            marker_names: Vec::new(),
            marker_pop_count: 0,
            copy_rows_calls: Vec::new(),
            ops: Vec::new(),
            allocated: Vec::new(),
            freed: Vec::new(),
            attention_paged_count: 0,
        }
    }

    fn failing_matmul() -> Self {
        Self { fail_on_matmul: true, ..Self::new() }
    }

    fn timing(timer_stop_value: f32) -> Self {
        Self { timer_stop_value, ..Self::new() }
    }

    fn alloc_count(&self) -> u64 {
        self.allocated.len() as u64
    }
}

impl Backend for MockBackend {
    fn allocate(&mut self, shape: &[usize], dtype: DType) -> Result<DeviceTensor> {
        let id = self.next_id;
        self.next_id += 1;
        self.allocated.push(id);
        Ok(DeviceTensor::new(TensorId(id), shape.to_vec(), dtype))
    }
    fn free(&mut self, tensor: &DeviceTensor) -> Result<()> {
        self.freed.push(tensor.id.0);
        Ok(())
    }
    fn copy_to_device(&mut self, _dst: &DeviceTensor, _src: &[u8]) -> Result<()> {
        Ok(())
    }
    fn copy_to_host(&mut self, _src: &DeviceTensor, dst: &mut [u8]) -> Result<()> {
        // Zeros are valid half-precision numbers.
        dst.fill(0);
        Ok(())
    }
    fn matmul(&mut self, _a: &DeviceTensor, _b: &DeviceTensor, _out: &DeviceTensor) -> Result<()> {
        self.ops.push("matmul");
        if self.fail_on_matmul {
            return Err(FractureError::Backend("mock matmul failure".into()));
        }
        Ok(())
    }
    fn rmsnorm(&mut self, _input: &DeviceTensor, _weight: &DeviceTensor, _eps: Double, _out: &DeviceTensor) -> Result<()> {
        self.ops.push("rmsnorm");
        Ok(())
    }
    fn rope(&mut self, _q: &DeviceTensor, _k: &DeviceTensor, _positions: &[u32], _theta: Double, _head_dim: usize) -> Result<()> {
        self.ops.push("rope");
        Ok(())
    }
    fn attention(&mut self, _q: &DeviceTensor, _k_cache: &DeviceTensor, _v_cache: &DeviceTensor, _num_kv_heads: usize, _start_pos: usize, _out: &DeviceTensor) -> Result<()> {
        self.ops.push("attention");
        Ok(())
    }
    fn attention_paged(&mut self, _q: &DeviceTensor, _block_table: &[i32], _k_blocks: &[&DeviceTensor], _v_blocks: &[&DeviceTensor], _num_kv_heads: usize, _kv_len: usize, _start_pos: usize, _out: &DeviceTensor) -> Result<()> {
        self.attention_paged_count += 1;
        Ok(())
    }
    fn turboquant_compress(&mut self, _input: &DeviceTensor, _rotation: &DeviceTensor, _centroids: &DeviceTensor, _bits: u8, _packed_out: &DeviceTensor, _norms_out: &DeviceTensor) -> Result<()> {
        Err(no_compression())
    }
    fn silu_mul(&mut self, _gate: &DeviceTensor, _up: &DeviceTensor, _out: &DeviceTensor) -> Result<()> {
        self.ops.push("silu_mul");
        Ok(())
    }
    fn embedding(&mut self, _token_ids: &[u32], _table: &DeviceTensor, _out: &DeviceTensor) -> Result<()> {
        self.ops.push("embedding");
        Ok(())
    }
    fn add(&mut self, _a: &DeviceTensor, _b: &DeviceTensor, _out: &DeviceTensor) -> Result<()> {
        self.ops.push("add");
        Ok(())
    }
    fn copy_rows(&mut self, src: &DeviceTensor, dst: &DeviceTensor, src_offset: usize, dst_offset: usize, count: usize) -> Result<()> {
        self.ops.push("copy_rows");
        self.copy_rows_calls.push((src.id.0, dst.id.0, src_offset, dst_offset, count));
        Ok(())
    }
    fn device_name(&self) -> &str {
        "mock"
    }
    fn total_memory(&self) -> usize {
        1 << 30
    }
    fn available_memory(&self) -> usize {
        1 << 30
    }
    fn synchronize(&mut self) -> Result<()> {
        Ok(())
    }
    fn create_timer(&mut self) -> Result<DeviceTimer> {
        self.timer_create_count += 1;
        Ok(DeviceTimer(self.timer_create_count))
    }
    fn start_timer(&mut self, _timer: &DeviceTimer) -> Result<()> {
        Ok(())
    }
    fn stop_timer(&mut self, _timer: &DeviceTimer) -> Result<Single> {
        Ok(Single::from_bits(self.timer_stop_value.to_bits()))
    }
    fn destroy_timer(&mut self, _timer: &DeviceTimer) -> Result<()> {
        Ok(())
    }
    fn marker_push(&mut self, name: &str) {
        self.marker_names.push(name.to_string());
    }
    fn marker_pop(&mut self) {
        self.marker_pop_count += 1;
    }
}

/// The sum of all measured times.
fn total_ms(p: &ForwardProfile) -> f32 {
    let f = |x: Single| f32::from_bits(x.to_bits());
    p.layer_profiles
        .iter()
        .map(|l| {
            f(l.rmsnorm_attn_ms)
                + f(l.qkv_proj_ms)
                + f(l.rope_ms)
                + f(l.attention_ms)
                + f(l.output_proj_ms)
                + f(l.rmsnorm_ffn_ms)
                + f(l.gate_up_proj_ms)
                + f(l.silu_mul_ms)
                + f(l.down_proj_ms)
        })
        .sum()
}

fn tables(config: &TurboQuantConfig, layers: usize, dim: usize) -> QuantTables {
    let table = || vec![Single::from_bits(0); dim * dim];
    QuantTables {
        k_rotations: (0..layers).map(|_| table()).collect(),
        v_rotations: (0..layers).map(|_| table()).collect(),
        codebooks: config
            .distinct_bit_widths()
            .into_iter()
            .map(|bits| Codebook { bits, centroids: vec![Single::from_bits(0); 1 << bits] })
            .collect(),
    }
}

/// A device that cannot attend to pages, and gives ascending bytes.
struct PlainBackend {
    next_id: u64,
}

impl Backend for PlainBackend {
    fn allocate(&mut self, shape: &[usize], dtype: DType) -> Result<DeviceTensor> {
        self.next_id += 1;
        Ok(DeviceTensor::new(TensorId(self.next_id - 1), shape.to_vec(), dtype))
    }
    fn free(&mut self, _tensor: &DeviceTensor) -> Result<()> {
        Ok(())
    }
    fn copy_to_device(&mut self, _dst: &DeviceTensor, _src: &[u8]) -> Result<()> {
        Ok(())
    }
    fn copy_to_host(&mut self, _src: &DeviceTensor, dst: &mut [u8]) -> Result<()> {
        for (i, b) in dst.iter_mut().enumerate() {
            *b = i as u8;
        }
        Ok(())
    }
    fn matmul(&mut self, _a: &DeviceTensor, _b: &DeviceTensor, _out: &DeviceTensor) -> Result<()> {
        Ok(())
    }
    fn rmsnorm(&mut self, _input: &DeviceTensor, _weight: &DeviceTensor, _eps: Double, _out: &DeviceTensor) -> Result<()> {
        Ok(())
    }
    fn rope(&mut self, _q: &DeviceTensor, _k: &DeviceTensor, _positions: &[u32], _theta: Double, _head_dim: usize) -> Result<()> {
        Ok(())
    }
    fn attention(&mut self, _q: &DeviceTensor, _k_cache: &DeviceTensor, _v_cache: &DeviceTensor, _num_kv_heads: usize, _start_pos: usize, _out: &DeviceTensor) -> Result<()> {
        Ok(())
    }
    fn attention_paged(&mut self, _q: &DeviceTensor, _block_table: &[i32], _k_blocks: &[&DeviceTensor], _v_blocks: &[&DeviceTensor], _num_kv_heads: usize, _kv_len: usize, _start_pos: usize, _out: &DeviceTensor) -> Result<()> {
        Err(no_paged_attention())
    }
    fn turboquant_compress(&mut self, _input: &DeviceTensor, _rotation: &DeviceTensor, _centroids: &DeviceTensor, _bits: u8, _packed_out: &DeviceTensor, _norms_out: &DeviceTensor) -> Result<()> {
        Err(no_compression())
    }
    fn silu_mul(&mut self, _gate: &DeviceTensor, _up: &DeviceTensor, _out: &DeviceTensor) -> Result<()> {
        Ok(())
    }
    fn embedding(&mut self, _token_ids: &[u32], _table: &DeviceTensor, _out: &DeviceTensor) -> Result<()> {
        Ok(())
    }
    fn add(&mut self, _a: &DeviceTensor, _b: &DeviceTensor, _out: &DeviceTensor) -> Result<()> {
        Ok(())
    }
    fn copy_rows(&mut self, _src: &DeviceTensor, _dst: &DeviceTensor, _src_offset: usize, _dst_offset: usize, _count: usize) -> Result<()> {
        Ok(())
    }
    fn device_name(&self) -> &str {
        "mock"
    }
    fn total_memory(&self) -> usize {
        1 << 30
    }
    fn available_memory(&self) -> usize {
        1 << 30
    }
    fn synchronize(&mut self) -> Result<()> {
        Ok(())
    }
    fn create_timer(&mut self) -> Result<DeviceTimer> {
        Ok(DeviceTimer(0))
    }
    fn start_timer(&mut self, _timer: &DeviceTimer) -> Result<()> {
        Ok(())
    }
    fn stop_timer(&mut self, _timer: &DeviceTimer) -> Result<Single> {
        Ok(Single::from_bits(0))
    }
    fn destroy_timer(&mut self, _timer: &DeviceTimer) -> Result<()> {
        Ok(())
    }
    fn marker_push(&mut self, _name: &str) {}
    fn marker_pop(&mut self) {}
}

fn test_config() -> ModelConfig {
    ModelConfig {
        hidden_size: 8,
        num_layers: 1,
        num_q_heads: 2,
        num_kv_heads: 2,
        head_dim: 4,
        intermediate_size: 16,
        vocab_size: 32,
        rope_theta: d(10000.0),
        rms_norm_eps: d(1e-5),
        max_seq_len: 512,
    }
}

fn mock_tensor(id: u64, shape: Vec<usize>) -> DeviceTensor {
    DeviceTensor::new(TensorId(id), shape, DType::FP16)
}

fn mock_weights(cfg: &ModelConfig) -> WeightStore {
    let h = cfg.hidden_size;
    let kv = cfg.num_kv_heads * cfg.head_dim;
    let inter = cfg.intermediate_size;
    let mut id = 1u64;
    let mut t = |shape: Vec<usize>| -> DeviceTensor {
        let t = mock_tensor(id, shape);
        id += 1;
        t
    };

    let layers = (0..cfg.num_layers)
        .map(|_| LayerWeights {
            q_proj: t(vec![h, h]),
            k_proj: t(vec![kv, h]),
            v_proj: t(vec![kv, h]),
            o_proj: t(vec![h, h]),
            gate_proj: t(vec![inter, h]),
            up_proj: t(vec![inter, h]),
            down_proj: t(vec![h, inter]),
            attn_norm: t(vec![h]),
            ffn_norm: t(vec![h]),
        })
        .collect();

    WeightStore {
        config: cfg.clone(),
        token_embedding: t(vec![cfg.vocab_size, h]),
        layers,
        output_norm: t(vec![h]),
        lm_head: t(vec![cfg.vocab_size, h]),
    }
}

/// Verify that forward() with empty token_ids returns an error, not a panic.
#[test]
fn test_forward_empty_token_ids_returns_error() {
    let cfg = test_config();
    let backend = MockBackend::new();
    let weights = mock_weights(&cfg);
    let mut engine = Engine::new(backend, weights, 0..cfg.num_layers);
    let mut cache = KvCacheManager::new(cfg.num_layers, cfg.num_kv_heads, cfg.head_dim, cfg.max_seq_len);
    let handle = cache.allocate(engine.backend_mut()).unwrap();

    // Empty token_ids should fail (seq_len=0 causes zero-size allocs or index OOB)
    let result = engine.forward(&[], &[], &mut cache, handle, None);
    assert!(result.is_err(), "forward with empty tokens should return Err");
}

/// Verify that a backend error during forward() propagates as FractureError::Backend.
#[test]
fn test_forward_backend_error_propagation() {
    let cfg = test_config();
    let backend = MockBackend::failing_matmul();
    let weights = mock_weights(&cfg);
    let mut engine = Engine::new(backend, weights, 0..cfg.num_layers);
    let mut cache = KvCacheManager::new(cfg.num_layers, cfg.num_kv_heads, cfg.head_dim, cfg.max_seq_len);
    let handle = cache.allocate(engine.backend_mut()).unwrap();

    let result = engine.forward(&[1], &[0], &mut cache, handle, None);
    assert!(result.is_err());
    let err = result.unwrap_err();
    assert!(
        matches!(err, FractureError::Backend(_)),
        "expected Backend error, got: {err:?}"
    );
    assert!(err.to_string().contains("mock matmul failure"));
}

/// Verify that forward() with profiling enabled populates ForwardProfile
/// with the correct number of LayerProfile entries and timing data.
#[test]
fn test_forward_with_profiling_collects_layer_profiles() {
    let cfg = test_config(); // 1 layer
    let backend = MockBackend::timing(1.0); // stop_timer returns 1.0 ms
    let weights = mock_weights(&cfg);
    let mut engine = Engine::new(backend, weights, 0..cfg.num_layers);
    let mut cache = KvCacheManager::new(
        cfg.num_layers, cfg.num_kv_heads, cfg.head_dim, cfg.max_seq_len,
    );
    let handle = cache.allocate(engine.backend_mut()).unwrap();

    let mut profile = ForwardProfile {
        prefill: false,
        seq_len: 0,
        layer_profiles: Vec::new(),
    };

    let result = engine.forward(&[1], &[0], &mut cache, handle, Some(&mut profile));
    assert!(result.is_ok(), "forward should succeed: {:?}", result.err());

    assert_eq!(
        profile.layer_profiles.len(),
        1,
        "should have exactly 1 layer profile for 1-layer config"
    );
    assert_eq!(profile.layer_profiles[0].layer_idx, 0);
    assert!(
        total_ms(&profile) > 0.0,
        "total_ms should be positive when stop_timer returns 1.0, got {}",
        total_ms(&profile)
    );
}

/// Verify that forward() emits NVTX markers (marker_push/marker_pop)
/// for each layer, regardless of whether profiling is enabled.
#[test]
fn test_forward_emits_nvtx_markers() {
    let cfg = test_config(); // 1 layer
    let backend = MockBackend::timing(0.0);
    let weights = mock_weights(&cfg);
    let mut engine = Engine::new(backend, weights, 0..cfg.num_layers);
    let mut cache = KvCacheManager::new(
        cfg.num_layers, cfg.num_kv_heads, cfg.head_dim, cfg.max_seq_len,
    );
    let handle = cache.allocate(engine.backend_mut()).unwrap();

    // Run with profile=None — markers should still fire
    let result = engine.forward(&[1], &[0], &mut cache, handle, None);
    assert!(result.is_ok(), "forward should succeed: {:?}", result.err());

    let marker_names = &engine.backend().marker_names;
    assert!(
        marker_names.contains(&"layer_0".to_string()),
        "marker_push should be called with 'layer_0', got: {:?}",
        *marker_names
    );

    let pop_count = engine.backend().marker_pop_count;
    assert_eq!(
        pop_count,
        marker_names.len() as u64,
        "marker_pop count ({}) should equal marker_push count ({})",
        pop_count,
        marker_names.len()
    );
}

/// Verify that forward() with profile=None does NOT create any GPU timers,
/// ensuring zero overhead when profiling is disabled.
#[test]
fn test_forward_no_profiling_skips_timers() {
    let cfg = test_config(); // 1 layer
    let backend = MockBackend::timing(0.0);
    let weights = mock_weights(&cfg);
    let mut engine = Engine::new(backend, weights, 0..cfg.num_layers);
    let mut cache = KvCacheManager::new(
        cfg.num_layers, cfg.num_kv_heads, cfg.head_dim, cfg.max_seq_len,
    );
    let handle = cache.allocate(engine.backend_mut()).unwrap();

    let result = engine.forward(&[1], &[0], &mut cache, handle, None);
    assert!(result.is_ok(), "forward should succeed: {:?}", result.err());

    let timer_count = engine.backend().timer_create_count;
    assert_eq!(
        timer_count, 0,
        "create_timer should not be called when profiling is disabled, but was called {} times",
        timer_count
    );
}

/// Verify that prefill with multiple tokens calls copy_rows with
/// src_offset=0, dst_offset=0 (start_pos), count=seq_len for K and V.
#[test]
fn test_cache_append_prefill() {
    let cfg = test_config();
    let backend = MockBackend::new();
    let weights = mock_weights(&cfg);
    let mut engine = Engine::new(backend, weights, 0..cfg.num_layers);
    let mut cache = KvCacheManager::new(cfg.num_layers, cfg.num_kv_heads, cfg.head_dim, cfg.max_seq_len);
    let handle = cache.allocate(engine.backend_mut()).unwrap();

    // Prefill with 3 tokens
    let result = engine.forward(&[1, 2, 3], &[0, 1, 2], &mut cache, handle, None);
    assert!(result.is_ok(), "forward should succeed: {:?}", result.err());

    let calls = &engine.backend().copy_rows_calls;
    // For 1 layer: 2 copy_rows (K and V), each with count=3, dst_offset=0
    let prefill_copies: Vec<_> = calls.iter().filter(|c| c.4 == 3).collect(); // count==3
    assert!(
        prefill_copies.len() >= 2,
        "expected at least 2 copy_rows with count=3 (K+V), got {}: {:?}",
        prefill_copies.len(), *calls
    );
    // All prefill copies should have dst_offset=0 (start_pos was 0)
    for c in &prefill_copies {
        assert_eq!(c.3, 0, "prefill dst_offset should be 0, got {}", c.3);
    }
}

/// Verify that a single-token decode step calls copy_rows with
/// count=1 and dst_offset=start_pos (the position after prefill).
#[test]
fn test_cache_append_decode() {
    let cfg = test_config();
    let backend = MockBackend::new();
    let weights = mock_weights(&cfg);
    let mut engine = Engine::new(backend, weights, 0..cfg.num_layers);
    let mut cache = KvCacheManager::new(cfg.num_layers, cfg.num_kv_heads, cfg.head_dim, cfg.max_seq_len);
    let handle = cache.allocate(engine.backend_mut()).unwrap();

    // Prefill with 3 tokens first
    engine.forward(&[1, 2, 3], &[0, 1, 2], &mut cache, handle, None).unwrap();

    // Clear recorded calls
    engine.backend_mut().copy_rows_calls.clear();

    // Decode: single token at position 3
    let result = engine.forward(&[4], &[3], &mut cache, handle, None);
    assert!(result.is_ok(), "decode forward should succeed: {:?}", result.err());

    let calls = &engine.backend().copy_rows_calls;
    // Should have copy_rows with count=1, dst_offset=3 (start_pos after prefill set seq_len=3)
    let decode_copies: Vec<_> = calls.iter().filter(|c| c.4 == 1).collect();
    assert!(
        decode_copies.len() >= 2,
        "expected at least 2 copy_rows with count=1 (K+V), got {}: {:?}",
        decode_copies.len(), *calls
    );
    for c in &decode_copies {
        assert_eq!(c.3, 3, "decode dst_offset should be 3 (start_pos), got {}", c.3);
    }
}

/// Verify that prefill copy_rows calls target the correct per-layer K and V
/// cache tensors in a 2-layer engine. For each layer, the dst tensor ID in
/// the copy_rows call must match the tensor ID returned by k_cache/v_cache
/// for that layer, not a tensor from a different layer.
#[test]
fn test_cache_append_prefill_multi_layer() {
    let mut cfg = test_config();
    cfg.num_layers = 2;
    let backend = MockBackend::new();
    let weights = mock_weights(&cfg);
    let mut engine = Engine::new(backend, weights, 0..cfg.num_layers);

    // Allocate a 2-layer cache. Record the per-layer tensor IDs before running forward.
    let mut cache = KvCacheManager::new(cfg.num_layers, cfg.num_kv_heads, cfg.head_dim, cfg.max_seq_len);
    let handle = cache.allocate(engine.backend_mut()).unwrap();

    // Capture k/v cache tensor IDs for each layer before forward.
    let k_ids: Vec<u64> = (0..cfg.num_layers)
        .map(|l| cache.k_cache(handle, l).unwrap().id.0)
        .collect();
    let v_ids: Vec<u64> = (0..cfg.num_layers)
        .map(|l| cache.v_cache(handle, l).unwrap().id.0)
        .collect();

    // Layer 0 and layer 1 must have distinct K and V tensor IDs.
    assert_ne!(k_ids[0], k_ids[1], "layer 0 and layer 1 K caches must be distinct tensors");
    assert_ne!(v_ids[0], v_ids[1], "layer 0 and layer 1 V caches must be distinct tensors");

    // Prefill with 3 tokens
    let result = engine.forward(&[1, 2, 3], &[0, 1, 2], &mut cache, handle, None);
    assert!(result.is_ok(), "2-layer forward should succeed: {:?}", result.err());

    let calls = &engine.backend().copy_rows_calls;

    // Expect exactly 4 copy_rows calls: K+V for layer 0, K+V for layer 1.
    // Filter to count=3 (prefill copies).
    let prefill_copies: Vec<_> = calls.iter().filter(|c| c.4 == 3).collect();
    assert_eq!(
        prefill_copies.len(), 4,
        "expected 4 prefill copy_rows (K+V × 2 layers), got {}: {:?}",
        prefill_copies.len(), *calls
    );

    // The dst IDs in copy_rows calls must be exactly the set of per-layer K and V tensor IDs.
    let dst_ids: std::collections::HashSet<u64> = prefill_copies.iter().map(|c| c.1).collect();

    for layer in 0..cfg.num_layers {
        assert!(
            dst_ids.contains(&k_ids[layer]),
            "layer {layer} k_cache tensor (id={}) not found in copy_rows dst IDs: {:?}",
            k_ids[layer], dst_ids
        );
        assert!(
            dst_ids.contains(&v_ids[layer]),
            "layer {layer} v_cache tensor (id={}) not found in copy_rows dst IDs: {:?}",
            v_ids[layer], dst_ids
        );
    }

    // Each layer's K and V tensor IDs must appear in separate copy_rows calls
    // (no layer should have K and V written to the same tensor).
    for layer in 0..cfg.num_layers {
        assert_ne!(
            k_ids[layer], v_ids[layer],
            "layer {layer} K and V cache must be different tensors"
        );
    }
}

/// Verify partial layer range (head node): Engine with layer_range 0..1 out of 2 layers
/// returns Activations via forward_node() since it's not a tail node.
#[test]
fn test_partial_layer_range_head_node() {
    let mut cfg = test_config();
    cfg.num_layers = 2;
    let backend = MockBackend::new();
    let weights = mock_weights(&cfg);
    let mut engine = Engine::new(backend, weights, 0..1);
    // Cache for 1 layer (this node's range)
    let mut cache = KvCacheManager::new(1, cfg.num_kv_heads, cfg.head_dim, cfg.max_seq_len);
    let handle = cache.allocate(engine.backend_mut()).unwrap();

    let node_config = NodeConfig::new(0..1, 2).unwrap();
    assert!(node_config.is_head());
    assert!(!node_config.is_tail());

    let input = NodeInput::TokenIds {
        ids: vec![1],
        positions: vec![0],
    };
    let result = engine.forward_node(input, &node_config, &mut cache, handle, None);
    assert!(result.is_ok(), "head node forward should succeed: {:?}", result.err());

    match result.unwrap() {
        NodeOutput::Activations(tensor) => {
            assert_eq!(tensor.shape, vec![1, cfg.hidden_size]);
        }
        NodeOutput::Logits(_) => panic!("head node should return Activations, not Logits"),
    }
}

/// Verify non-zero-starting layer range (tail node): Engine with layer_range 1..2 out of 2 layers
/// uses local indexing for weights and KV cache and returns Logits.
#[test]
fn test_nonzero_layer_range_tail_node() {
    let mut cfg = test_config();
    cfg.num_layers = 2;
    let backend = MockBackend::new();

    // Build weights with only 1 layer (representing model layer 1)
    let h = cfg.hidden_size;
    let kv = cfg.num_kv_heads * cfg.head_dim;
    let inter = cfg.intermediate_size;
    let mut id = 1u64;
    let mut t = |shape: Vec<usize>| -> DeviceTensor {
        let t = mock_tensor(id, shape);
        id += 1;
        t
    };
    let layer = LayerWeights {
        q_proj: t(vec![h, h]),
        k_proj: t(vec![kv, h]),
        v_proj: t(vec![kv, h]),
        o_proj: t(vec![h, h]),
        gate_proj: t(vec![inter, h]),
        up_proj: t(vec![inter, h]),
        down_proj: t(vec![h, inter]),
        attn_norm: t(vec![h]),
        ffn_norm: t(vec![h]),
    };
    let weights = WeightStore {
        config: cfg.clone(),
        token_embedding: t(vec![cfg.vocab_size, h]),
        layers: vec![layer],
        output_norm: t(vec![h]),
        lm_head: t(vec![cfg.vocab_size, h]),
    };

    let mut engine = Engine::new(backend, weights, 1..2);
    let mut cache = KvCacheManager::new(1, cfg.num_kv_heads, cfg.head_dim, cfg.max_seq_len);
    let handle = cache.allocate(engine.backend_mut()).unwrap();

    let node_config = NodeConfig::new(1..2, 2).unwrap();
    assert!(!node_config.is_head());
    assert!(node_config.is_tail());

    // Tail node receives activations from the head
    let fake_hidden = engine.backend_mut().allocate(&[1, cfg.hidden_size], DType::FP16).unwrap();
    let input = NodeInput::Activations {
        hidden_states: fake_hidden,
        positions: vec![0],
    };
    let result = engine.forward_node(input, &node_config, &mut cache, handle, None);
    assert!(result.is_ok(), "tail node forward should succeed: {:?}", result.err());

    match result.unwrap() {
        NodeOutput::Logits(logits) => {
            assert_eq!(logits.len(), cfg.vocab_size);
        }
        NodeOutput::Activations(_) => panic!("tail node should return Logits, not Activations"),
    }
}

/// Sending TokenIds to a non-head node (tail) should return a Pipeline error.
#[test]
fn test_token_ids_to_non_head_returns_error() {
    let mut cfg = test_config();
    cfg.num_layers = 2;
    let backend = MockBackend::new();
    let weights = mock_weights(&cfg);
    let mut engine = Engine::new(backend, weights, 0..2);
    let mut cache = KvCacheManager::new(2, cfg.num_kv_heads, cfg.head_dim, cfg.max_seq_len);
    let handle = cache.allocate(engine.backend_mut()).unwrap();

    // Create a tail NodeConfig (not head)
    let node_config = NodeConfig::new(1..2, 2).unwrap();
    assert!(!node_config.is_head());

    let input = NodeInput::TokenIds {
        ids: vec![1],
        positions: vec![0],
    };
    let result = engine.forward_node(input, &node_config, &mut cache, handle, None);
    let err = match result {
        Err(e) => e,
        Ok(_) => panic!("expected error for TokenIds to non-head"),
    };
    assert!(err.to_string().contains("non-head"));
}

/// Sending Activations to a head node should return a Pipeline error.
#[test]
fn test_activations_to_head_returns_error() {
    let mut cfg = test_config();
    cfg.num_layers = 2;
    let backend = MockBackend::new();
    let weights = mock_weights(&cfg);
    let mut engine = Engine::new(backend, weights, 0..2);
    let mut cache = KvCacheManager::new(2, cfg.num_kv_heads, cfg.head_dim, cfg.max_seq_len);
    let handle = cache.allocate(engine.backend_mut()).unwrap();

    let node_config = NodeConfig::new(0..1, 2).unwrap();
    assert!(node_config.is_head());

    let fake_hidden = engine.backend_mut().allocate(&[1, cfg.hidden_size], DType::FP16).unwrap();
    let input = NodeInput::Activations {
        hidden_states: fake_hidden,
        positions: vec![0],
    };
    let result = engine.forward_node(input, &node_config, &mut cache, handle, None);
    let err = match result {
        Err(e) => e,
        Ok(_) => panic!("expected error for Activations to head"),
    };
    assert!(err.to_string().contains("head"));
}

/// Full node (is_head + is_tail) returns Logits from TokenIds.
#[test]
fn test_full_node_forward_returns_logits() {
    let cfg = test_config();
    let backend = MockBackend::new();
    let weights = mock_weights(&cfg);
    let mut engine = Engine::new(backend, weights, 0..cfg.num_layers);
    let mut cache = KvCacheManager::new(cfg.num_layers, cfg.num_kv_heads, cfg.head_dim, cfg.max_seq_len);
    let handle = cache.allocate(engine.backend_mut()).unwrap();

    let node_config = NodeConfig::new(0..cfg.num_layers, cfg.num_layers).unwrap();
    assert!(node_config.is_full());

    let input = NodeInput::TokenIds {
        ids: vec![1],
        positions: vec![0],
    };
    let result = engine.forward_node(input, &node_config, &mut cache, handle, None);
    assert!(result.is_ok());
    match result.unwrap() {
        NodeOutput::Logits(logits) => {
            assert_eq!(logits.len(), cfg.vocab_size);
        }
        NodeOutput::Activations(_) => panic!("full node should return Logits"),
    }
}

/// Verify that scratch tensors are allocated once before the layer loop and reused
/// across all layers. The alloc count should NOT scale with num_layers — only
/// weight and KV cache tensors scale with layer count.
///
/// Strategy: run forward passes with 2-layer and 4-layer configs. The difference
/// in alloc counts should be exactly the KV cache allocs that scale with layers
/// (2 per layer for K and V caches), NOT scratch tensors.
#[test]
fn test_scratch_tensor_reuse_across_layers() {
    // Helper: run a forward pass with N layers and return the alloc count.
    fn run_forward_and_count_allocs(num_layers: usize) -> u64 {
        let mut cfg = test_config();
        cfg.num_layers = num_layers;
        let backend = MockBackend::new();
        let weights = mock_weights(&cfg);
        let mut engine = Engine::new(backend, weights, 0..num_layers);
        let mut cache = KvCacheManager::new(
            num_layers, cfg.num_kv_heads, cfg.head_dim, cfg.max_seq_len,
        );
        let handle = cache.allocate(engine.backend_mut()).unwrap();

        engine.forward(&[1], &[0], &mut cache, handle, None).unwrap();
        engine.backend().alloc_count()
    }

    let allocs_2_layers = run_forward_and_count_allocs(2);
    let allocs_4_layers = run_forward_and_count_allocs(4);

    // The difference in allocs between 4-layer and 2-layer should come only from
    // KV cache allocation (2 allocs per extra layer: K cache + V cache).
    // KV cache allocates 2 tensors per layer, so delta for 2 extra layers = 4.
    let delta = allocs_4_layers - allocs_2_layers;
    let expected_cache_delta = 2 * 2; // 2 extra layers * 2 (K + V) per layer

    assert_eq!(
        delta, expected_cache_delta,
        "alloc count should only scale with KV cache tensors (2 per layer), \
         not scratch tensors. 2-layer allocs: {}, 4-layer allocs: {}, delta: {} \
         (expected {} for cache-only scaling)",
        allocs_2_layers, allocs_4_layers, delta, expected_cache_delta
    );

    // Sanity check: scratch tensors should be a fixed count.
    // For a full (head+tail) forward pass with seq_len=1:
    // - 1 embedding (hidden_state)
    // - 10 scratch tensors (normed, q_flat, k_flat, v_flat, attn_out_mh,
    //   projected, gate, up, ffn_mid, ffn_out)
    // - 1 logits_tensor
    // Total fixed allocs = 12
    // Per-layer allocs = 2 (K cache + V cache) from KvCacheManager::alloc
    // So 2-layer total = 12 + 2*2 = 16
    let expected_2_layer = 12 + 2 * 2;
    assert_eq!(
        allocs_2_layers, expected_2_layer,
        "2-layer alloc count mismatch: expected {} (12 fixed + 4 cache), got {}",
        expected_2_layer, allocs_2_layers
    );
}

/// forward_paged() with multiple tokens returns logits with correct vocab_size.
#[test]
fn test_forward_paged_prefill_returns_correct_vocab_size() {
    let mut cfg = test_config();
    cfg.num_layers = 2;
    let backend = MockBackend::new();
    let weights = mock_weights(&cfg);
    let mut engine = Engine::new(backend, weights, 0..2);
    let mut cache = PagedKvCacheManager::new(8, 2, cfg.num_kv_heads, cfg.head_dim, engine.backend_mut()).unwrap();
    let handle = cache.allocate().unwrap();

    let token_ids = vec![1, 2, 3, 4];
    let positions = vec![0, 1, 2, 3];
    let logits = engine.forward_paged(&token_ids, &positions, &mut cache, handle).unwrap();
    assert_eq!(
        logits.len(),
        cfg.vocab_size,
        "forward_paged prefill should return vocab_size logits, got {}",
        logits.len()
    );
}

/// forward_paged() decode after prefill works and cache.seq_len advances.
#[test]
fn test_forward_paged_decode_after_prefill_advances_seq_len() {
    let mut cfg = test_config();
    cfg.num_layers = 2;
    let backend = MockBackend::new();
    let weights = mock_weights(&cfg);
    let mut engine = Engine::new(backend, weights, 0..2);
    let mut cache = PagedKvCacheManager::new(8, 2, cfg.num_kv_heads, cfg.head_dim, engine.backend_mut()).unwrap();
    let handle = cache.allocate().unwrap();

    // Prefill with 3 tokens
    let prefill_ids = vec![10, 20, 30];
    let prefill_pos = vec![0, 1, 2];
    engine.forward_paged(&prefill_ids, &prefill_pos, &mut cache, handle).unwrap();
    assert_eq!(cache.seq_len(handle).unwrap(), 3, "seq_len should be 3 after prefill");

    // Decode with 1 token
    let decode_ids = vec![40];
    let decode_pos = vec![3];
    let logits = engine.forward_paged(&decode_ids, &decode_pos, &mut cache, handle).unwrap();
    assert_eq!(logits.len(), cfg.vocab_size, "decode should return vocab_size logits");
    assert_eq!(cache.seq_len(handle).unwrap(), 4, "seq_len should be 4 after decode");
}

/// forward_node_paged() head node returns Activations, tail node returns Logits.
#[test]
fn test_forward_node_paged_head_tail_outputs() {
    let mut cfg = test_config();
    cfg.num_layers = 2;
    let backend = MockBackend::new();
    let weights = mock_weights(&cfg);
    let mut engine = Engine::new(backend, weights, 0..2);
    let mut cache = PagedKvCacheManager::new(8, 2, cfg.num_kv_heads, cfg.head_dim, engine.backend_mut()).unwrap();

    // Head node (layer 0..1 of 2): should return Activations
    let head_config = NodeConfig::new(0..1, 2).unwrap();
    assert!(head_config.is_head());
    assert!(!head_config.is_tail());

    let handle_head = cache.allocate().unwrap();
    let input_head = NodeInput::TokenIds {
        ids: vec![1],
        positions: vec![0],
    };
    let result = engine.forward_node_paged(input_head, &head_config, &mut cache, handle_head);
    assert!(result.is_ok(), "head node forward_node_paged should succeed: {:?}", result.err());
    match result.unwrap() {
        NodeOutput::Activations(tensor) => {
            assert_eq!(tensor.shape, vec![1, cfg.hidden_size]);
        }
        NodeOutput::Logits(_) => panic!("head node should return Activations, not Logits"),
    }

    // Tail node (layer 1..2 of 2): should return Logits
    let tail_config = NodeConfig::new(1..2, 2).unwrap();
    assert!(!tail_config.is_head());
    assert!(tail_config.is_tail());

    let handle_tail = cache.allocate().unwrap();
    let fake_hidden = engine.backend_mut().allocate(&[1, cfg.hidden_size], DType::FP16).unwrap();
    let input_tail = NodeInput::Activations {
        hidden_states: fake_hidden,
        positions: vec![0],
    };
    let result = engine.forward_node_paged(input_tail, &tail_config, &mut cache, handle_tail);
    assert!(result.is_ok(), "tail node forward_node_paged should succeed: {:?}", result.err());
    match result.unwrap() {
        NodeOutput::Logits(logits) => {
            assert_eq!(logits.len(), cfg.vocab_size);
        }
        NodeOutput::Activations(_) => panic!("tail node should return Logits, not Activations"),
    }
}

/// forward_node_paged() error paths — wrong input type for node role.
#[test]
fn test_forward_node_paged_error_paths() {
    let mut cfg = test_config();
    cfg.num_layers = 2;
    let backend = MockBackend::new();
    let weights = mock_weights(&cfg);
    let mut engine = Engine::new(backend, weights, 0..2);
    let mut cache = PagedKvCacheManager::new(8, 2, cfg.num_kv_heads, cfg.head_dim, engine.backend_mut()).unwrap();

    // Non-head (tail) receiving TokenIds should error
    let tail_config = NodeConfig::new(1..2, 2).unwrap();
    assert!(!tail_config.is_head());

    let handle1 = cache.allocate().unwrap();
    let input_tokens = NodeInput::TokenIds {
        ids: vec![1],
        positions: vec![0],
    };
    let result = engine.forward_node_paged(input_tokens, &tail_config, &mut cache, handle1);
    assert!(result.is_err(), "non-head receiving TokenIds should error");
    assert!(
        result.err().unwrap().to_string().contains("non-head"),
        "error should mention non-head"
    );

    // Head receiving Activations should error
    let head_config = NodeConfig::new(0..1, 2).unwrap();
    assert!(head_config.is_head());

    let handle2 = cache.allocate().unwrap();
    let fake_hidden = engine.backend_mut().allocate(&[1, cfg.hidden_size], DType::FP16).unwrap();
    let input_act = NodeInput::Activations {
        hidden_states: fake_hidden,
        positions: vec![0],
    };
    let result = engine.forward_node_paged(input_act, &head_config, &mut cache, handle2);
    assert!(result.is_err(), "head receiving Activations should error");
    assert!(
        result.err().unwrap().to_string().contains("head"),
        "error should mention head"
    );
}

/// Verify that a single-layer forward pass calls backend operations in the
/// correct order: rmsnorm, matmul(Q), matmul(K), matmul(V), rope,
/// copy_rows(K), copy_rows(V), attention, matmul(out_proj), add(residual),
/// rmsnorm, matmul(gate), matmul(up), silu_mul, matmul(down), add(residual).
///
/// Uses a full (head+tail) node with 1 layer to isolate exactly one layer's
/// worth of operations. The embedding and final norm+lm_head ops are also
/// verified to appear in the correct relative positions.
#[test]
fn test_single_layer_operation_sequence() {
    let cfg = test_config(); // num_layers=1
    let backend = MockBackend::new();
    let weights = mock_weights(&cfg);
    let mut engine = Engine::new(backend, weights, 0..cfg.num_layers);
    let mut cache = KvCacheManager::new(
        cfg.num_layers, cfg.num_kv_heads, cfg.head_dim, cfg.max_seq_len,
    );
    let handle = cache.allocate(engine.backend_mut()).unwrap();

    let node_config = NodeConfig::new(0..cfg.num_layers, cfg.num_layers).unwrap();
    assert!(node_config.is_full());

    let input = NodeInput::TokenIds {
        ids: vec![1],
        positions: vec![0],
    };
    let result = engine.forward_node(input, &node_config, &mut cache, handle, None);
    assert!(result.is_ok(), "forward_node should succeed: {:?}", result.err());

    let ops = engine.backend().ops.clone();

    // The sequence for a full (head+tail) 1-layer forward pass:
    //   embedding
    //   [layer 0]:
    //     rmsnorm (attn norm)
    //     matmul (Q proj)
    //     matmul (K proj)
    //     matmul (V proj)
    //     rope
    //     copy_rows (K to cache)
    //     copy_rows (V to cache)
    //     attention
    //     matmul (out proj)
    //     add (attn residual)
    //     rmsnorm (ffn norm)
    //     matmul (gate proj)
    //     matmul (up proj)
    //     silu_mul
    //     matmul (down proj)
    //     add (ffn residual)
    //   [tail]:
    //     rmsnorm (output norm)
    //     copy_rows (extract last position) — only for seq_len > 1; skipped for seq_len=1
    //     matmul (lm_head)

    // Verify the per-layer subsequence appears in order.
    let layer_ops: Vec<&str> = vec![
        "rmsnorm",    // attn norm
        "matmul",     // Q proj
        "matmul",     // K proj
        "matmul",     // V proj
        "rope",
        "copy_rows",  // K to cache
        "copy_rows",  // V to cache
        "attention",
        "matmul",     // out proj
        "add",        // attn residual
        "rmsnorm",    // ffn norm
        "matmul",     // gate proj
        "matmul",     // up proj
        "silu_mul",
        "matmul",     // down proj
        "add",        // ffn residual
    ];

    // Find embedding first, then verify the layer ops follow in order.
    let embed_pos = ops.iter().position(|&op| op == "embedding")
        .expect("embedding should be called");

    // Find the start of layer ops after embedding.
    let mut search_from = embed_pos + 1;
    for (i, &expected_op) in layer_ops.iter().enumerate() {
        let found = ops[search_from..].iter().position(|&op| op == expected_op)
            .unwrap_or_else(|| panic!(
                "layer op #{i} ('{expected_op}') not found at or after position {search_from} in ops: {ops:?}"
            ));
        search_from = search_from + found + 1;
    }

    // Verify final norm and lm_head matmul appear after the layer ops.
    let tail_rmsnorm = ops[search_from.saturating_sub(1)..].iter().position(|&op| op == "rmsnorm");
    assert!(
        tail_rmsnorm.is_some() || ops[search_from..].contains(&"rmsnorm"),
        "output rmsnorm should appear after layer ops. ops so far: {ops:?}"
    );

    // Verify counts match expectations:
    // rmsnorm: 2 per layer (attn + ffn) + 1 output norm = 3 total
    let rmsnorm_count = ops.iter().filter(|&&op| op == "rmsnorm").count();
    assert_eq!(
        rmsnorm_count, 3,
        "expected 3 rmsnorm calls (attn_norm + ffn_norm + output_norm), got {rmsnorm_count}. ops: {ops:?}"
    );

    // matmul: Q+K+V+out_proj+gate+up+down+lm_head = 8 per layer (seq_len=1 so no copy_rows for last_hidden)
    let matmul_count = ops.iter().filter(|&&op| op == "matmul").count();
    assert_eq!(
        matmul_count, 8,
        "expected 8 matmul calls (Q,K,V,out_proj,gate,up,down,lm_head), got {matmul_count}. ops: {ops:?}"
    );

    // copy_rows: 2 per layer (K + V to cache); no extra copy_rows for last_hidden when seq_len=1
    let copy_rows_count = ops.iter().filter(|&&op| op == "copy_rows").count();
    assert_eq!(
        copy_rows_count, 2,
        "expected 2 copy_rows calls (K cache + V cache) for seq_len=1, got {copy_rows_count}. ops: {ops:?}"
    );

    // add: 2 per layer (attn residual + ffn residual)
    let add_count = ops.iter().filter(|&&op| op == "add").count();
    assert_eq!(
        add_count, 2,
        "expected 2 add calls per layer, got {add_count}. ops: {ops:?}"
    );

    // rope: 1 per layer
    let rope_count = ops.iter().filter(|&&op| op == "rope").count();
    assert_eq!(rope_count, 1, "expected 1 rope call, got {rope_count}. ops: {ops:?}");

    // attention: 1 per layer
    let attention_count = ops.iter().filter(|&&op| op == "attention").count();
    assert_eq!(attention_count, 1, "expected 1 attention call, got {attention_count}. ops: {ops:?}");

    // silu_mul: 1 per layer
    let silu_count = ops.iter().filter(|&&op| op == "silu_mul").count();
    assert_eq!(silu_count, 1, "expected 1 silu_mul call, got {silu_count}. ops: {ops:?}");
}

/// Verify that when a head node (non-tail) returns Activations, the returned
/// tensor is NOT passed to free(), but all scratch tensors ARE freed.
///
/// Scratch tensors are freed; the output hidden state is NOT freed (ownership
/// transfers to the caller).
#[test]
fn test_activation_handoff_no_free() {
    let mut cfg = test_config();
    cfg.num_layers = 2; // 2-layer model so head node is not tail
    let backend = MockBackend::new();
    let weights = mock_weights(&cfg);

    // Engine holds layers 0..2; node config is 0..1 (head, not tail)
    let mut engine = Engine::new(backend, weights, 0..2);

    // Cache sized for 1 layer (the head node's layer range)
    let mut cache = KvCacheManager::new(1, cfg.num_kv_heads, cfg.head_dim, cfg.max_seq_len);
    let handle = cache.allocate(engine.backend_mut()).unwrap();

    let node_config = NodeConfig::new(0..1, 2).unwrap();
    assert!(node_config.is_head(), "node_config should be head");
    assert!(!node_config.is_tail(), "node_config should not be tail");

    // Clear alloc list so we only track what forward_node allocates.
    engine.backend_mut().allocated.clear();

    let input = NodeInput::TokenIds {
        ids: vec![1],
        positions: vec![0],
    };
    let result = engine.forward_node(input, &node_config, &mut cache, handle, None);
    assert!(result.is_ok(), "head forward_node should succeed: {:?}", result.err());

    let activation_tensor = match result.unwrap() {
        NodeOutput::Activations(t) => t,
        NodeOutput::Logits(_) => panic!("head node should return Activations, not Logits"),
    };

    let activation_id = activation_tensor.id.0;
    let freed = engine.backend().freed.clone();
    let allocated = engine.backend().allocated.clone();

    // The activation tensor must NOT have been freed.
    assert!(
        !freed.contains(&activation_id),
        "activation tensor (id={activation_id}) should NOT be freed, but it was. freed: {freed:?}"
    );

    // The activation tensor must have been allocated during this call.
    assert!(
        allocated.contains(&activation_id),
        "activation tensor (id={activation_id}) should have been allocated by forward_node. allocated: {allocated:?}"
    );

    // Every other tensor allocated during the call (scratch tensors) must have been freed.
    // Scratch tensors are: normed, q_flat, k_flat, v_flat, attn_out_mh, projected,
    // gate, up, ffn_mid, ffn_out — all 10 of them.
    let scratch_ids: Vec<u64> = allocated.iter()
        .copied()
        .filter(|&id| id != activation_id)
        .collect();

    for &scratch_id in &scratch_ids {
        assert!(
            freed.contains(&scratch_id),
            "scratch tensor (id={scratch_id}) should have been freed, but it was not. freed: {freed:?}, scratch_ids: {scratch_ids:?}"
        );
    }

    // There should be exactly 10 scratch tensors for a head-only (non-tail) forward:
    // normed, q_flat, k_flat, v_flat, attn_out_mh, projected, gate, up, ffn_mid, ffn_out
    assert_eq!(
        scratch_ids.len(), 10,
        "expected exactly 10 scratch tensors (head node, non-tail), got {}. allocated: {allocated:?}",
        scratch_ids.len()
    );
}

/// Verify that forward() with a position value >= max_seq_len returns
/// FractureError::InvalidShape containing "exceeds max_seq_len".
#[test]
fn test_forward_position_beyond_max_seq_len() {
    let mut cfg = test_config();
    cfg.max_seq_len = 128;
    let backend = MockBackend::new();
    let weights = mock_weights(&cfg);
    let mut engine = Engine::new(backend, weights, 0..cfg.num_layers);
    let mut cache = KvCacheManager::new(cfg.num_layers, cfg.num_kv_heads, cfg.head_dim, cfg.max_seq_len);
    let handle = cache.allocate(engine.backend_mut()).unwrap();

    // Position 128 equals max_seq_len — must be rejected (valid range is 0..max_seq_len).
    let result = engine.forward(&[1], &[128], &mut cache, handle, None);
    let err = result.expect_err("forward with out-of-bounds position should return Err");
    assert!(
        matches!(err, FractureError::InvalidShape(_)),
        "expected InvalidShape, got: {err:?}"
    );
    assert!(
        err.to_string().contains("exceeds max_seq_len"),
        "error should mention 'exceeds max_seq_len', got: {err:?}"
    );
}

/// Verify that a middle (non-head, non-tail) node accepts Activations input
/// and returns Activations output with the correct hidden-state shape.
#[test]
fn test_middle_node_forward() {
    let mut cfg = test_config();
    cfg.num_layers = 4;
    let backend = MockBackend::new();

    // Build weights for layers 1..3 only (middle node owns those layers).
    let h = cfg.hidden_size;
    let kv = cfg.num_kv_heads * cfg.head_dim;
    let inter = cfg.intermediate_size;
    let mut id = 100u64;
    let mut t = |shape: Vec<usize>| -> DeviceTensor {
        let tensor = mock_tensor(id, shape);
        id += 1;
        tensor
    };
    let middle_layers: Vec<LayerWeights> = (0..2)
        .map(|_| LayerWeights {
            q_proj: t(vec![h, h]),
            k_proj: t(vec![kv, h]),
            v_proj: t(vec![kv, h]),
            o_proj: t(vec![h, h]),
            gate_proj: t(vec![inter, h]),
            up_proj: t(vec![inter, h]),
            down_proj: t(vec![h, inter]),
            attn_norm: t(vec![h]),
            ffn_norm: t(vec![h]),
        })
        .collect();
    // token_embedding, output_norm, lm_head are unused by a middle node but required
    // by WeightStore. They can be dummy tensors.
    let weights = WeightStore {
        config: cfg.clone(),
        token_embedding: t(vec![cfg.vocab_size, h]),
        layers: middle_layers,
        output_norm: t(vec![h]),
        lm_head: t(vec![cfg.vocab_size, h]),
    };

    // Engine owns layer range 1..3 (middle), total model has 4 layers.
    let mut engine = Engine::new(backend, weights, 1..3);

    // Middle node config: layers 1..3 of a 4-layer model.
    let node_config = NodeConfig::new(1..3, 4).unwrap();
    assert!(!node_config.is_head(), "1..3 of 4 should not be head");
    assert!(!node_config.is_tail(), "1..3 of 4 should not be tail");

    // KV cache sized for 2 layers (the node's layer range).
    let mut cache = KvCacheManager::new(2, cfg.num_kv_heads, cfg.head_dim, cfg.max_seq_len);
    let handle = cache.allocate(engine.backend_mut()).unwrap();

    // Provide fake hidden state activations from the head node.
    let fake_hidden = engine.backend_mut().allocate(&[1, cfg.hidden_size], DType::FP16).unwrap();
    let input = NodeInput::Activations {
        hidden_states: fake_hidden,
        positions: vec![0],
    };

    let result = engine.forward_node(input, &node_config, &mut cache, handle, None);
    assert!(result.is_ok(), "middle node forward should succeed: {:?}", result.err());

    match result.unwrap() {
        NodeOutput::Activations(tensor) => {
            assert_eq!(
                tensor.shape,
                vec![1, cfg.hidden_size],
                "middle node output should be [seq_len, hidden_size]"
            );
        }
        NodeOutput::Logits(_) => panic!("middle node should return Activations, not Logits"),
    }
}

/// Verify that forward() and forward_node() with a full-range NodeConfig produce
/// identical-length logit vectors for the same input.
#[test]
fn test_forward_delegates_to_forward_node() {
    let cfg = test_config();
    let backend = MockBackend::new();
    let weights = mock_weights(&cfg);
    let mut engine = Engine::new(backend, weights, 0..cfg.num_layers);

    // Two independent caches and handles — one for each call.
    let mut cache_a = KvCacheManager::new(cfg.num_layers, cfg.num_kv_heads, cfg.head_dim, cfg.max_seq_len);
    let handle_a = cache_a.allocate(engine.backend_mut()).unwrap();
    let mut cache_b = KvCacheManager::new(cfg.num_layers, cfg.num_kv_heads, cfg.head_dim, cfg.max_seq_len);
    let handle_b = cache_b.allocate(engine.backend_mut()).unwrap();

    // Call forward() (the wrapper).
    let logits_a = engine.forward(&[5], &[0], &mut cache_a, handle_a, None)
        .expect("forward() should succeed");

    // Call forward_node() with a full-range config.
    let node_config = NodeConfig::new(0..cfg.num_layers, cfg.num_layers).unwrap();
    assert!(node_config.is_full());
    let input = NodeInput::TokenIds { ids: vec![5], positions: vec![0] };
    let logits_b = match engine.forward_node(input, &node_config, &mut cache_b, handle_b, None)
        .expect("forward_node() should succeed")
    {
        NodeOutput::Logits(l) => l,
        NodeOutput::Activations(_) => panic!("full node should return Logits"),
    };

    // Both should produce exactly vocab_size logits.
    assert_eq!(
        logits_a.len(), cfg.vocab_size,
        "forward() should return vocab_size logits"
    );
    assert_eq!(
        logits_b.len(), cfg.vocab_size,
        "forward_node() should return vocab_size logits"
    );
    assert_eq!(
        logits_a.len(), logits_b.len(),
        "forward() and forward_node() must produce the same number of logits"
    );
}

/// Verify that an engine with layer_range 2..4 correctly maps weight indices
/// (relative to the engine's owned layers) and cache indices (relative to the
/// node config's exec range) without panicking or index-out-of-bounds errors.
///
/// The engine stores weights for layers 2..4 at positions [0, 1] in
/// self.weights.layers.  The node config 2..4 maps weight_idx = layer_idx - 2
/// and cache_idx = layer_idx - 2 (both start at 2), so both indices are 0 and 1.
#[test]
fn test_weight_idx_vs_cache_idx_diverge() {
    let mut cfg = test_config();
    cfg.num_layers = 4;
    let backend = MockBackend::new();

    // Build 2-layer weights representing model layers 2 and 3.
    let h = cfg.hidden_size;
    let kv = cfg.num_kv_heads * cfg.head_dim;
    let inter = cfg.intermediate_size;
    let mut id = 200u64;
    let mut t = |shape: Vec<usize>| -> DeviceTensor {
        let tensor = mock_tensor(id, shape);
        id += 1;
        tensor
    };
    let tail_layers: Vec<LayerWeights> = (0..2)
        .map(|_| LayerWeights {
            q_proj: t(vec![h, h]),
            k_proj: t(vec![kv, h]),
            v_proj: t(vec![kv, h]),
            o_proj: t(vec![h, h]),
            gate_proj: t(vec![inter, h]),
            up_proj: t(vec![inter, h]),
            down_proj: t(vec![h, inter]),
            attn_norm: t(vec![h]),
            ffn_norm: t(vec![h]),
        })
        .collect();
    let weights = WeightStore {
        config: cfg.clone(),
        token_embedding: t(vec![cfg.vocab_size, h]),
        layers: tail_layers,
        output_norm: t(vec![h]),
        lm_head: t(vec![cfg.vocab_size, h]),
    };

    // Engine owns layer range 2..4 (tail of a 4-layer model).
    let mut engine = Engine::new(backend, weights, 2..4);

    // Tail node config: layers 2..4 of a 4-layer model.
    let node_config = NodeConfig::new(2..4, 4).unwrap();
    assert!(!node_config.is_head(), "2..4 of 4 should not be head");
    assert!(node_config.is_tail(), "2..4 of 4 should be tail");

    // KV cache for 2 layers.
    let mut cache = KvCacheManager::new(2, cfg.num_kv_heads, cfg.head_dim, cfg.max_seq_len);
    let handle = cache.allocate(engine.backend_mut()).unwrap();

    // Provide activations (tail node receives hidden states from head/middle).
    let fake_hidden = engine.backend_mut().allocate(&[1, cfg.hidden_size], DType::FP16).unwrap();
    let input = NodeInput::Activations {
        hidden_states: fake_hidden,
        positions: vec![0],
    };

    let result = engine.forward_node(input, &node_config, &mut cache, handle, None);
    assert!(
        result.is_ok(),
        "tail node with non-zero layer_range should succeed — weight_idx and cache_idx are \
         both offset by the same amount (2): {:?}",
        result.err()
    );
    match result.unwrap() {
        NodeOutput::Logits(logits) => {
            assert_eq!(logits.len(), cfg.vocab_size, "tail node should produce vocab_size logits");
        }
        NodeOutput::Activations(_) => panic!("tail node should return Logits"),
    }
}

/// Verify that a backend error during forward_paged() propagates as FractureError::Backend.
#[test]
fn test_forward_paged_backend_error_propagation() {
    let mut cfg = test_config();
    cfg.num_layers = 1;
    let backend = MockBackend::failing_matmul();
    let weights = mock_weights(&cfg);
    let mut engine = Engine::new(backend, weights, 0..cfg.num_layers);
    let mut cache = PagedKvCacheManager::new(
        8, cfg.num_layers, cfg.num_kv_heads, cfg.head_dim, engine.backend_mut(),
    ).unwrap();
    let handle = cache.allocate().unwrap();

    let result = engine.forward_paged(&[1], &[0], &mut cache, handle);
    let err = result.expect_err("forward_paged with failing matmul should return Err");
    assert!(
        matches!(err, FractureError::Backend(_)),
        "expected FractureError::Backend, got: {err:?}"
    );
    assert!(
        err.to_string().contains("mock matmul failure"),
        "error should contain 'mock matmul failure', got: {err:?}"
    );
}

/// Verify that forward_paged() calls attention_paged exactly once per layer
/// during a prefill pass.
#[test]
fn test_forward_paged_prefill_calls_attention_paged() {
    let mut cfg = test_config();
    cfg.num_layers = 2; // Use 2 layers to verify the per-layer count.
    let backend = MockBackend::new();
    let weights = mock_weights(&cfg);
    let mut engine = Engine::new(backend, weights, 0..cfg.num_layers);
    let mut cache = PagedKvCacheManager::new(
        8, cfg.num_layers, cfg.num_kv_heads, cfg.head_dim, engine.backend_mut(),
    ).unwrap();
    let handle = cache.allocate().unwrap();

    // Single-token prefill; attention_paged should be called once per layer.
    let result = engine.forward_paged(&[1], &[0], &mut cache, handle);
    assert!(result.is_ok(), "forward_paged should succeed: {:?}", result.err());

    let paged_count = engine.backend().attention_paged_count;
    assert_eq!(
        paged_count,
        cfg.num_layers as u64,
        "attention_paged should be called exactly once per layer ({} layers), got {paged_count}",
        cfg.num_layers
    );
}

/// Construct a Contiguous KvCacheBackend, verify alloc/seq_len/free work
/// and is_paged() returns false.
#[test]
fn test_kv_cache_backend_contiguous() {
    let cfg = test_config();
    let mut backend = MockBackend::new();

    let mut kv_backend = KvCacheBackend::Contiguous(KvCacheManager::new(
        cfg.num_layers,
        cfg.num_kv_heads,
        cfg.head_dim,
        cfg.max_seq_len,
    ));

    assert!(!kv_backend.is_paged(), "Contiguous variant should return false for is_paged()");

    // alloc_contiguous should succeed.
    let handle = kv_backend.alloc_contiguous(&mut backend)
        .expect("alloc_contiguous should succeed on Contiguous variant");

    // seq_len should be 0 after alloc.
    let len = kv_backend.seq_len(handle)
        .expect("seq_len should succeed on Contiguous variant");
    assert_eq!(len, 0, "seq_len should be 0 after alloc");

    // free should succeed.
    kv_backend.free(handle, &mut backend)
        .expect("free should succeed on Contiguous variant");
}

/// Construct a Paged KvCacheBackend, verify alloc/seq_len/free work
/// and is_paged() returns true.
#[test]
fn test_kv_cache_backend_paged() {
    let cfg = test_config();
    let mut backend = MockBackend::new();

    let mut kv_backend = KvCacheBackend::Paged(
        PagedKvCacheManager::new(
            10,
            cfg.num_layers,
            cfg.num_kv_heads,
            cfg.head_dim,
            &mut backend,
        ).expect("PagedKvCacheManager::new should succeed"),
    );

    assert!(kv_backend.is_paged(), "Paged variant should return true for is_paged()");

    // alloc_paged should succeed.
    let handle = kv_backend.alloc_paged()
        .expect("alloc_paged should succeed on Paged variant");

    // seq_len should be 0 after alloc.
    let len = kv_backend.seq_len(handle)
        .expect("seq_len should succeed on Paged variant");
    assert_eq!(len, 0, "seq_len should be 0 after alloc");

    // free should succeed.
    kv_backend.free(handle, &mut backend)
        .expect("free should succeed on Paged variant");
}

/// Cross-variant error: alloc_contiguous on Paged returns error,
/// alloc_paged on Contiguous returns error.
#[test]
fn test_kv_cache_backend_cross_variant_errors() {
    let cfg = test_config();
    let mut backend = MockBackend::new();

    // Paged variant rejects alloc_contiguous.
    let mut paged = KvCacheBackend::Paged(
        PagedKvCacheManager::new(
            10,
            cfg.num_layers,
            cfg.num_kv_heads,
            cfg.head_dim,
            &mut backend,
        ).unwrap(),
    );
    let err = paged.alloc_contiguous(&mut backend).unwrap_err();
    assert!(
        matches!(err, FractureError::KvCache(_)),
        "alloc_contiguous on Paged should return KvCache error, got: {err:?}"
    );
    assert!(
        err.to_string().contains("alloc_contiguous"),
        "error should mention 'alloc_contiguous', got: {err:?}"
    );

    // Contiguous variant rejects alloc_paged.
    let mut contiguous = KvCacheBackend::Contiguous(KvCacheManager::new(
        cfg.num_layers,
        cfg.num_kv_heads,
        cfg.head_dim,
        cfg.max_seq_len,
    ));
    let err = contiguous.alloc_paged().unwrap_err();
    assert!(
        matches!(err, FractureError::KvCache(_)),
        "alloc_paged on Contiguous should return KvCache error, got: {err:?}"
    );
    assert!(
        err.to_string().contains("alloc_paged"),
        "error should mention 'alloc_paged', got: {err:?}"
    );
}

/// Construct a QuantizedPaged KvCacheBackend, verify alloc/seq_len/free work
/// and is_paged()/is_quantized() return correct values.
#[test]
fn test_kv_cache_backend_quantized_paged() {
    let cfg = test_config();
    let mut backend = MockBackend::new();
    let tq_config = TurboQuantConfig::default();

    let mut kv_backend = KvCacheBackend::QuantizedPaged(
        QuantizedKvCacheManager::new(
            10,
            cfg.num_layers,
            cfg.num_kv_heads,
            cfg.head_dim,
            16,
            tq_config,
            &tables(&tq_config, cfg.num_layers, cfg.head_dim),
            &mut backend,
        )
        .expect("QuantizedKvCacheManager::new should succeed"),
    );

    assert!(
        kv_backend.is_paged(),
        "QuantizedPaged should return true for is_paged()"
    );
    assert!(
        kv_backend.is_quantized(),
        "QuantizedPaged should return true for is_quantized()"
    );

    // alloc_paged should succeed.
    let handle = kv_backend
        .alloc_paged()
        .expect("alloc_paged should succeed on QuantizedPaged variant");

    // Generic alloc should also succeed.
    let handle2 = kv_backend
        .allocate(&mut backend)
        .expect("alloc should succeed on QuantizedPaged variant");

    // seq_len should be 0 after alloc.
    let len = kv_backend
        .seq_len(handle)
        .expect("seq_len should succeed");
    assert_eq!(len, 0);

    // free should succeed.
    kv_backend
        .free(handle, &mut backend)
        .expect("free should succeed");
    kv_backend
        .free(handle2, &mut backend)
        .expect("free should succeed");
}

/// QuantizedPaged rejects alloc_contiguous.
#[test]
fn test_kv_cache_backend_quantized_paged_rejects_contiguous() {
    let cfg = test_config();
    let mut backend = MockBackend::new();
    let tq_config = TurboQuantConfig::default();

    let mut kv_backend = KvCacheBackend::QuantizedPaged(
        QuantizedKvCacheManager::new(
            4,
            cfg.num_layers,
            cfg.num_kv_heads,
            cfg.head_dim,
            16,
            tq_config,
            &tables(&tq_config, cfg.num_layers, cfg.head_dim),
            &mut backend,
        )
        .unwrap(),
    );

    let err = kv_backend.alloc_contiguous(&mut backend).unwrap_err();
    assert!(
        matches!(err, FractureError::KvCache(_)),
        "alloc_contiguous on QuantizedPaged should return KvCache error, got: {err:?}"
    );
}

/// Contiguous and Paged variants return false for is_quantized().
#[test]
fn test_kv_cache_backend_is_quantized() {
    let cfg = test_config();
    let mut backend = MockBackend::new();

    let contiguous = KvCacheBackend::Contiguous(KvCacheManager::new(
        cfg.num_layers,
        cfg.num_kv_heads,
        cfg.head_dim,
        cfg.max_seq_len,
    ));
    assert!(!contiguous.is_quantized());

    let paged = KvCacheBackend::Paged(
        PagedKvCacheManager::new(4, cfg.num_layers, cfg.num_kv_heads, cfg.head_dim, &mut backend)
            .unwrap(),
    );
    assert!(!paged.is_quantized());
}

#[test]
fn every_timed_step_is_in_the_profile() {
    let cfg = test_config();
    let mut engine = Engine::new(MockBackend::timing(0.5), mock_weights(&cfg), 0..cfg.num_layers);
    let mut cache =
        KvCacheManager::new(cfg.num_layers, cfg.num_kv_heads, cfg.head_dim, cfg.max_seq_len);
    let handle = cache.allocate(engine.backend_mut()).unwrap();
    let mut profile = ForwardProfile { prefill: false, seq_len: 0, layer_profiles: Vec::new() };
    engine.forward(&[1, 2], &[0, 1], &mut cache, handle, Some(&mut profile)).unwrap();
    // Nine steps of half a millisecond.
    assert_eq!(total_ms(&profile), 4.5);
    assert!(profile.prefill);
    assert_eq!(profile.seq_len, 2);
    assert_eq!(cache.seq_len(handle).unwrap(), 2);
}

#[test]
fn unknown_handles_are_refused() {
    let cfg = test_config();
    let mut engine = Engine::new(MockBackend::new(), mock_weights(&cfg), 0..cfg.num_layers);
    let mut cache =
        KvCacheManager::new(cfg.num_layers, cfg.num_kv_heads, cfg.head_dim, cfg.max_seq_len);
    let err = engine.forward(&[1], &[0], &mut cache, CacheHandle(5), None).unwrap_err();
    assert_eq!(err.to_string(), "KV cache error: invalid handle: 5");
}

#[test]
fn devices_without_paged_attention_say_so() {
    let cfg = test_config();
    let mut engine = Engine::new(PlainBackend { next_id: 1 }, mock_weights(&cfg), 0..cfg.num_layers);
    let mut cache =
        PagedKvCacheManager::new(8, 1, cfg.num_kv_heads, cfg.head_dim, engine.backend_mut())
            .unwrap();
    let handle = cache.allocate().unwrap();
    let err = engine.forward_paged(&[1], &[0], &mut cache, handle).unwrap_err();
    assert_eq!(
        err.to_string(),
        "backend error: paged attention not supported by this backend"
    );
}

#[test]
fn logits_are_read_low_byte_first() {
    let cfg = test_config();
    let mut engine = Engine::new(PlainBackend { next_id: 1 }, mock_weights(&cfg), 0..cfg.num_layers);
    let mut cache =
        KvCacheManager::new(cfg.num_layers, cfg.num_kv_heads, cfg.head_dim, cfg.max_seq_len);
    let handle = cache.allocate(engine.backend_mut()).unwrap();
    let logits = engine.forward(&[1], &[0], &mut cache, handle, None).unwrap();
    assert_eq!(logits.len(), cfg.vocab_size);
    // The device gives bytes 0, 1, 2, 3, and so on.
    assert_eq!(logits[0].bits, 0x0100);
    assert_eq!(logits[1].bits, 0x0302);
}

#[test]
fn node_configs_are_checked() {
    assert_eq!(
        NodeConfig::new(3..3, 4).unwrap_err().to_string(),
        "pipeline error: empty layer range: 3..3"
    );
    assert_eq!(
        NodeConfig::new(3..5, 4).unwrap_err().to_string(),
        "pipeline error: layer range end 5 exceeds total layers 4"
    );
}

#[test]
fn contiguous_caches_keep_their_limits() {
    let mut backend = MockBackend::new();
    let mut cache = KvCacheManager::new(2, 4, 8, 16);
    let a = cache.allocate(&mut backend).unwrap();
    let b = cache.allocate(&mut backend).unwrap();
    assert_eq!((a, b), (CacheHandle(0), CacheHandle(1)));
    assert_eq!(cache.k_cache(a, 1).unwrap().shape, vec![16, 4, 8]);
    assert_eq!(cache.k_cache(a, 1).unwrap().id.0, 1002);
    assert_eq!(cache.v_cache(a, 1).unwrap().id.0, 1003);
    cache.set_seq_len(a, 16).unwrap();
    assert_eq!(
        cache.set_seq_len(a, 17).unwrap_err().to_string(),
        "KV cache error: seq_len 17 exceeds max_seq_len 16"
    );
    assert_eq!(cache.seq_len(a).unwrap(), 16);
    assert_eq!(cache.seq_len(b).unwrap(), 0);
    cache.free(a, &mut backend).unwrap();
    assert_eq!(backend.freed, vec![1000, 1001, 1002, 1003]);
    assert!(cache.k_cache(a, 0).is_err());
    assert!(cache.free(a, &mut backend).is_err());
}

/// A node that adds its number to a log and gives what it is told to.
struct FakeNode {
    place: NodeConfig,
    gives_logits: bool,
    id: u64,
}

impl ComputeNode for FakeNode {
    fn config(&self) -> &NodeConfig {
        &self.place
    }

    fn forward(
        &mut self,
        input: NodeInput,
        cache: &mut KvCacheManager,
        cache_handle: CacheHandle,
        _profile: Option<&mut ForwardProfile>,
    ) -> Result<NodeOutput> {
        cache.seq_len(cache_handle)?;
        let seen = match &input {
            NodeInput::TokenIds { ids, .. } => ids[0] as u64,
            NodeInput::Activations { hidden_states, .. } => hidden_states.id.0,
        };
        if self.gives_logits {
            Ok(NodeOutput::Logits(vec![Half { bits: (seen * 10 + self.id) as u16 }]))
        } else {
            Ok(NodeOutput::Activations(mock_tensor(seen * 10 + self.id, vec![1, 8])))
        }
    }
}

fn fake(start: usize, end: usize, gives_logits: bool, id: u64) -> Box<dyn ComputeNode> {
    Box::new(FakeNode { place: NodeConfig::new(start..end, 4).unwrap(), gives_logits, id })
}

#[test]
fn test_empty_pipeline_rejected() {
    let result = PipelineCoordinator::new(vec![]);
    assert!(result.is_err());
    let err = match result {
        Err(e) => e,
        Ok(_) => panic!("expected error"),
    };
    assert!(err.to_string().contains("at least one node"));
}

#[test]
fn pipelines_must_be_connected() {
    let text = |nodes| PipelineCoordinator::new(nodes).err().unwrap().to_string();
    assert_eq!(
        text(vec![fake(1, 4, true, 1)]),
        "pipeline error: first node must be head (layer_range must start at 0)"
    );
    assert_eq!(
        text(vec![fake(0, 3, true, 1)]),
        "pipeline error: last node must be tail (layer_range must end at total_layers)"
    );
    assert_eq!(
        text(vec![fake(0, 2, false, 1), fake(3, 4, true, 2)]),
        "pipeline error: gap or overlap between node 0 (ends at 2) and node 1 (starts at 3)"
    );
}

#[test]
fn activations_flow_from_node_to_node() {
    let mut backend = MockBackend::new();
    let mut caches: Vec<KvCacheManager> =
        (0..3).map(|_| KvCacheManager::new(1, 1, 1, 8)).collect();
    let handles: Vec<CacheHandle> =
        caches.iter_mut().map(|c| c.allocate(&mut backend).unwrap()).collect();
    let nodes = vec![fake(0, 1, false, 1), fake(1, 3, false, 2), fake(3, 4, true, 3)];
    let mut pipeline = PipelineCoordinator::new(nodes).unwrap();
    assert_eq!(pipeline.num_nodes(), 3);
    let mut refs: Vec<&mut KvCacheManager> = caches.iter_mut().collect();
    let logits = pipeline.forward(&[7], &[0], &mut refs, &handles).unwrap();
    assert_eq!(logits, vec![Half { bits: 7123 }]);
    // Too few caches.
    let err = pipeline.forward(&[7], &[0], &mut refs[..2], &handles).unwrap_err();
    assert_eq!(
        err.to_string(),
        "pipeline error: expected 3 caches and handles, got 2 and 3"
    );
    // A node that fails ends the pass.
    let bad = vec![handles[0], CacheHandle(9), handles[2]];
    let err = pipeline.forward(&[7], &[0], &mut refs, &bad).unwrap_err();
    assert_eq!(err.to_string(), "KV cache error: invalid handle: 9");
}

#[test]
fn outputs_must_fit_the_place_of_a_node() {
    let mut backend = MockBackend::new();
    let mut a = KvCacheManager::new(1, 1, 1, 8);
    let mut b = KvCacheManager::new(1, 1, 1, 8);
    let handles =
        vec![a.allocate(&mut backend).unwrap(), b.allocate(&mut backend).unwrap()];
    let mut early =
        PipelineCoordinator::new(vec![fake(0, 2, true, 1), fake(2, 4, true, 2)]).unwrap();
    let err = early.forward(&[7], &[0], &mut [&mut a, &mut b], &handles).unwrap_err();
    assert_eq!(
        err.to_string(),
        "pipeline error: node 0 returned Logits but is not the last node"
    );
    let mut late =
        PipelineCoordinator::new(vec![fake(0, 2, false, 1), fake(2, 4, false, 2)]).unwrap();
    let err = late.forward(&[7], &[0], &mut [&mut a, &mut b], &handles).unwrap_err();
    assert_eq!(
        err.to_string(),
        "pipeline error: last node returned Activations instead of Logits"
    );
}

#[test]
fn passes_free_what_they_allocate() {
    let cfg = test_config();
    let mut engine = Engine::new(MockBackend::new(), mock_weights(&cfg), 0..cfg.num_layers);
    let mut cache = KvCacheManager::new(cfg.num_layers, cfg.num_kv_heads, cfg.head_dim, 64);
    let handle = cache.allocate(engine.backend_mut()).unwrap();
    let before = engine.backend().allocated.len();
    engine.forward(&[1, 2, 3], &[0, 1, 2], &mut cache, handle, None).unwrap();
    let mut made = engine.backend().allocated[before..].to_vec();
    let mut freed = engine.backend().freed.clone();
    made.sort();
    freed.sort();
    // Hidden state, ten scratch tensors, logits, and the last of three rows.
    assert_eq!(made.len(), 13);
    assert_eq!(made, freed);
    assert_eq!(cache.seq_len(handle).unwrap(), 3);
}

#[test]
fn paged_passes_free_what_they_allocate() {
    let cfg = test_config();
    let mut engine = Engine::new(MockBackend::new(), mock_weights(&cfg), 0..cfg.num_layers);
    let mut cache =
        PagedKvCacheManager::new(4, 1, cfg.num_kv_heads, cfg.head_dim, engine.backend_mut())
            .unwrap();
    let handle = cache.allocate().unwrap();
    let before = engine.backend().allocated.len();
    engine.forward_paged(&[1, 2, 3], &[0, 1, 2], &mut cache, handle).unwrap();
    let mut made = engine.backend().allocated[before..].to_vec();
    let mut freed = engine.backend().freed.clone();
    made.sort();
    freed.sort();
    assert_eq!(made.len(), 13);
    assert_eq!(made, freed);
    assert_eq!(engine.backend().attention_paged_count, 1);
    assert_eq!(engine.backend().marker_names, vec!["layer_0"]);
    assert_eq!(engine.backend().marker_pop_count, 1);
    assert_eq!(engine.backend().timer_create_count, 0);
}

#[test]
fn refusals_come_before_weights_are_read() {
    let mut cfg = test_config();
    cfg.num_layers = 4;
    let mut weights = mock_weights(&cfg);
    weights.layers.truncate(0);
    let mut engine = Engine::new(MockBackend::new(), weights, 0..4);
    let mut cache = KvCacheManager::new(0, cfg.num_kv_heads, cfg.head_dim, 64);
    let handle = cache.allocate(engine.backend_mut()).unwrap();
    let err = engine.forward(&[], &[], &mut cache, handle, None).unwrap_err();
    assert_eq!(err.to_string(), "invalid tensor shape: token_ids must not be empty");
    let beyond = cfg.max_seq_len as u32;
    let err = engine.forward(&[1], &[beyond], &mut cache, handle, None).unwrap_err();
    assert!(err.to_string().contains("exceeds max_seq_len"));
    let err = engine.forward(&[1], &[0], &mut cache, CacheHandle(77), None).unwrap_err();
    assert_eq!(err.to_string(), "KV cache error: invalid handle: 77");
}

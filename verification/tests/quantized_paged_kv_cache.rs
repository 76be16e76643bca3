//! The quantized cache.
use fracture::base::backend::{no_compression, no_paged_attention, Backend, DeviceTimer};
use fracture::base::dtype::DType;
use fracture::base::error::{FractureError, Result};
use fracture::base::numeric::{Double, Single};
use fracture::base::tensor::{DeviceTensor, TensorId};
use fracture::base::turboquant::TurboQuantConfig;
use fracture::engine::block_table::BLOCK_SIZE;
use fracture::engine::kv_cache::CacheHandle;
use fracture::engine::quantized_paged_kv_cache::QuantizedKvCacheManager;
use fracture::engine::quantized_pool::{Codebook, QuantTables, QuantizedBlockPool};

/// A device that counts what it compresses and logs what it is asked.
struct MockBackend {
    next_id: u64,
    log: Vec<String>,
    uploads: Vec<(u64, Vec<u8>)>,
}

impl MockBackend {
    fn new() -> Self {
        Self { next_id: 1, log: Vec::new(), uploads: Vec::new() }
    }
}

impl Backend for MockBackend {
    fn allocate(&mut self, shape: &[usize], dtype: DType) -> Result<DeviceTensor> {
        self.next_id += 1;
        Ok(DeviceTensor::new(TensorId(self.next_id - 1), shape.to_vec(), dtype))
    }
    fn free(&mut self, tensor: &DeviceTensor) -> Result<()> {
        self.log.push(format!("free {}", tensor.id.0));
        Ok(())
    }
    fn copy_to_device(&mut self, dst: &DeviceTensor, src: &[u8]) -> Result<()> {
        self.uploads.push((dst.id.0, src.to_vec()));
        Ok(())
    }
    fn copy_to_host(&mut self, _src: &DeviceTensor, _dst: &mut [u8]) -> Result<()> {
        Ok(())
    }
    fn matmul(&mut self, _a: &DeviceTensor, _b: &DeviceTensor, _out: &DeviceTensor) -> Result<()> {
        Ok(())
    }
    fn rmsnorm(&mut self, _input: &DeviceTensor, _weight: &DeviceTensor, _eps: Double, _out: &DeviceTensor) -> Result<()> {
        Ok(())
    }
    fn rope(&mut self, _q: &DeviceTensor, _k: &DeviceTensor, _positions: &[u32], _theta: Double, _head_dim: usize) -> Result<()> {
        Ok(())
    }
    fn attention(&mut self, _q: &DeviceTensor, _k_cache: &DeviceTensor, _v_cache: &DeviceTensor, _num_kv_heads: usize, _start_pos: usize, _out: &DeviceTensor) -> Result<()> {
        Ok(())
    }
    fn turboquant_compress(&mut self, input: &DeviceTensor, rotation: &DeviceTensor, centroids: &DeviceTensor, bits: u8, packed_out: &DeviceTensor, norms_out: &DeviceTensor) -> Result<()> {
        self.log.push(format!(
            "compress {} with {} and {} at {} into {} and {}",
            input.id.0, rotation.id.0, centroids.id.0, bits, packed_out.id.0, norms_out.id.0
        ));
        Ok(())
    }
    fn attention_paged(&mut self, _q: &DeviceTensor, _block_table: &[i32], _k_blocks: &[&DeviceTensor], _v_blocks: &[&DeviceTensor], _num_kv_heads: usize, _kv_len: usize, _start_pos: usize, _out: &DeviceTensor) -> Result<()> {
        Err(no_paged_attention())
    }
    fn silu_mul(&mut self, _gate: &DeviceTensor, _up: &DeviceTensor, _out: &DeviceTensor) -> Result<()> {
        Ok(())
    }
    fn embedding(&mut self, _token_ids: &[u32], _table: &DeviceTensor, _out: &DeviceTensor) -> Result<()> {
        Ok(())
    }
    fn add(&mut self, _a: &DeviceTensor, _b: &DeviceTensor, _out: &DeviceTensor) -> Result<()> {
        Ok(())
    }
    fn copy_rows(&mut self, src: &DeviceTensor, dst: &DeviceTensor, src_offset: usize, dst_offset: usize, count: usize) -> Result<()> {
        self.log.push(format!(
            "copy {}[{}] to {}[{}] x{}",
            src.id.0, src_offset, dst.id.0, dst_offset, count
        ));
        Ok(())
    }
    fn device_name(&self) -> &str {
        "mock"
    }
    fn total_memory(&self) -> usize {
        1 << 30
    }
    fn available_memory(&self) -> usize {
        1 << 30
    }
    fn synchronize(&mut self) -> Result<()> {
        Ok(())
    }
    fn create_timer(&mut self) -> Result<DeviceTimer> {
        Ok(DeviceTimer(0))
    }
    fn start_timer(&mut self, _timer: &DeviceTimer) -> Result<()> {
        Ok(())
    }
    fn stop_timer(&mut self, _timer: &DeviceTimer) -> Result<Single> {
        Ok(Single::from_bits(0))
    }
    fn destroy_timer(&mut self, _timer: &DeviceTimer) -> Result<()> {
        Ok(())
    }
    fn marker_push(&mut self, _name: &str) {}
    fn marker_pop(&mut self) {}
}

/// A device that cannot compress.
struct PlainBackend {
    next_id: u64,
}

impl Backend for PlainBackend {
    fn allocate(&mut self, shape: &[usize], dtype: DType) -> Result<DeviceTensor> {
        self.next_id += 1;
        Ok(DeviceTensor::new(TensorId(self.next_id - 1), shape.to_vec(), dtype))
    }
    fn free(&mut self, _tensor: &DeviceTensor) -> Result<()> {
        Ok(())
    }
    fn copy_to_device(&mut self, _dst: &DeviceTensor, _src: &[u8]) -> Result<()> {
        Ok(())
    }
    fn copy_to_host(&mut self, _src: &DeviceTensor, _dst: &mut [u8]) -> Result<()> {
        Ok(())
    }
    fn matmul(&mut self, _a: &DeviceTensor, _b: &DeviceTensor, _out: &DeviceTensor) -> Result<()> {
        Ok(())
    }
    fn rmsnorm(&mut self, _input: &DeviceTensor, _weight: &DeviceTensor, _eps: Double, _out: &DeviceTensor) -> Result<()> {
        Ok(())
    }
    fn rope(&mut self, _q: &DeviceTensor, _k: &DeviceTensor, _positions: &[u32], _theta: Double, _head_dim: usize) -> Result<()> {
        Ok(())
    }
    fn attention(&mut self, _q: &DeviceTensor, _k_cache: &DeviceTensor, _v_cache: &DeviceTensor, _num_kv_heads: usize, _start_pos: usize, _out: &DeviceTensor) -> Result<()> {
        Ok(())
    }
    fn attention_paged(&mut self, _q: &DeviceTensor, _block_table: &[i32], _k_blocks: &[&DeviceTensor], _v_blocks: &[&DeviceTensor], _num_kv_heads: usize, _kv_len: usize, _start_pos: usize, _out: &DeviceTensor) -> Result<()> {
        Err(no_paged_attention())
    }
    fn turboquant_compress(&mut self, _input: &DeviceTensor, _rotation: &DeviceTensor, _centroids: &DeviceTensor, _bits: u8, _packed_out: &DeviceTensor, _norms_out: &DeviceTensor) -> Result<()> {
        Err(no_compression())
    }
    fn silu_mul(&mut self, _gate: &DeviceTensor, _up: &DeviceTensor, _out: &DeviceTensor) -> Result<()> {
        Ok(())
    }
    fn embedding(&mut self, _token_ids: &[u32], _table: &DeviceTensor, _out: &DeviceTensor) -> Result<()> {
        Ok(())
    }
    fn add(&mut self, _a: &DeviceTensor, _b: &DeviceTensor, _out: &DeviceTensor) -> Result<()> {
        Ok(())
    }
    fn copy_rows(&mut self, _src: &DeviceTensor, _dst: &DeviceTensor, _src_offset: usize, _dst_offset: usize, _count: usize) -> Result<()> {
        Ok(())
    }
    fn device_name(&self) -> &str {
        "mock"
    }
    fn total_memory(&self) -> usize {
        1 << 30
    }
    fn available_memory(&self) -> usize {
        1 << 30
    }
    fn synchronize(&mut self) -> Result<()> {
        Ok(())
    }
    fn create_timer(&mut self) -> Result<DeviceTimer> {
        Ok(DeviceTimer(0))
    }
    fn start_timer(&mut self, _timer: &DeviceTimer) -> Result<()> {
        Ok(())
    }
    fn stop_timer(&mut self, _timer: &DeviceTimer) -> Result<Single> {
        Ok(Single::from_bits(0))
    }
    fn destroy_timer(&mut self, _timer: &DeviceTimer) -> Result<()> {
        Ok(())
    }
    fn marker_push(&mut self, _name: &str) {}
    fn marker_pop(&mut self) {}
}

/// Tables that tell their layers apart: the rotations of layer `l` hold `2l` and `2l + 1`.
fn tables(config: &TurboQuantConfig, layers: usize, dim: usize) -> QuantTables {
    let table = |n: usize| vec![Single::from_bits(n as u32); dim * dim];
    QuantTables {
        k_rotations: (0..layers).map(|l| table(2 * l)).collect(),
        v_rotations: (0..layers).map(|l| table(2 * l + 1)).collect(),
        codebooks: config
            .distinct_bit_widths()
            .into_iter()
            .map(|bits| Codebook {
                bits,
                centroids: (0..1u32 << bits).map(Single::from_bits).collect(),
            })
            .collect(),
    }
}

#[test]
fn test_pool_creation() {
    let mut backend = MockBackend::new();
    let config = TurboQuantConfig::default();
    let pool = QuantizedBlockPool::new(4, 2, 8, 128, &config, &tables(&config, 2, 128), &mut backend).unwrap();

    assert_eq!(pool.capacity(), 4);
    assert_eq!(pool.num_free(), 4);
}

#[test]
fn test_pool_alloc_free() {
    let mut backend = MockBackend::new();
    let config = TurboQuantConfig::default();
    let mut pool = QuantizedBlockPool::new(4, 2, 8, 128, &config, &tables(&config, 2, 128), &mut backend).unwrap();

    let b0 = pool.alloc_block().unwrap();
    assert_eq!(pool.num_free(), 3);

    let b1 = pool.alloc_block().unwrap();
    assert_ne!(b0, b1);
    assert_eq!(pool.num_free(), 2);

    pool.free_block(b0);
    assert_eq!(pool.num_free(), 3);

    // Exhaust remaining
    pool.alloc_block().unwrap();
    pool.alloc_block().unwrap();
    pool.alloc_block().unwrap();
    assert_eq!(pool.num_free(), 0);

    // OOM
    assert!(pool.alloc_block().is_err());
}

#[test]
fn test_pool_layer_bits() {
    let mut backend = MockBackend::new();
    let config = TurboQuantConfig {
        key_bits: 4,
        value_bits: 2,
        protected_bits: 8,
        protected_layers: 1,
        ..Default::default()
    };
    let pool = QuantizedBlockPool::new(2, 4, 8, 128, &config, &tables(&config, 4, 128), &mut backend).unwrap();

    // Layer 0 protected
    assert_eq!(pool.key_bits_for_layer(0), 8);
    assert_eq!(pool.value_bits_for_layer(0), 8);
    // Layer 1 normal
    assert_eq!(pool.key_bits_for_layer(1), 4);
    assert_eq!(pool.value_bits_for_layer(1), 2);
    // Layer 2 normal
    assert_eq!(pool.key_bits_for_layer(2), 4);
    // Layer 3 protected (last 1)
    assert_eq!(pool.key_bits_for_layer(3), 8);
}

#[test]
fn test_pool_rotation_matrices() {
    let mut backend = MockBackend::new();
    let config = TurboQuantConfig::default();
    let pool = QuantizedBlockPool::new(1, 2, 8, 128, &config, &tables(&config, 2, 128), &mut backend).unwrap();

    // Should have rotation matrices for both layers
    let k_rot_0 = pool.k_rotation(0);
    let v_rot_0 = pool.v_rotation(0);
    assert_eq!(k_rot_0.shape, vec![128, 128]);
    assert_eq!(v_rot_0.shape, vec![128, 128]);

    // K and V rotations should be different tensors
    assert_ne!(k_rot_0.id, v_rot_0.id);
}

#[test]
fn test_pool_centroid_tables() {
    let mut backend = MockBackend::new();
    let config = TurboQuantConfig::default(); // K4/V2, no protection
    let pool = QuantizedBlockPool::new(1, 1, 8, 128, &config, &tables(&config, 1, 128), &mut backend).unwrap();

    let k_centroids = pool.centroids(4);
    assert_eq!(k_centroids.shape, vec![16]); // 2^4

    let v_centroids = pool.centroids(2);
    assert_eq!(v_centroids.shape, vec![4]); // 2^2
}

#[test]
fn test_manager_alloc_free() {
    let mut backend = MockBackend::new();
    let config = TurboQuantConfig::default();
    let mut mgr =
        QuantizedKvCacheManager::new(4, 2, 8, 128, 16, config, &tables(&config, 2, 128), &mut backend).unwrap();

    let h0 = mgr.allocate().unwrap();
    assert_eq!(mgr.seq_len(h0).unwrap(), 0);
    assert_eq!(mgr.num_free_blocks(), 3); // 1 block allocated for initial

    let h1 = mgr.allocate().unwrap();
    assert_eq!(mgr.num_free_blocks(), 2);

    mgr.free(h0).unwrap();
    assert_eq!(mgr.num_free_blocks(), 3);

    mgr.free(h1).unwrap();
    assert_eq!(mgr.num_free_blocks(), 4);
}

#[test]
fn test_manager_invalid_handle() {
    let mut backend = MockBackend::new();
    let config = TurboQuantConfig::default();
    let mut mgr =
        QuantizedKvCacheManager::new(2, 1, 8, 128, 16, config, &tables(&config, 1, 128), &mut backend).unwrap();

    let bad = CacheHandle(999);
    assert!(mgr.seq_len(bad).is_err());
    assert!(mgr.block_table(bad).is_err());
    assert!(mgr.free(bad).is_err());
}

#[test]
fn test_manager_block_table() {
    let mut backend = MockBackend::new();
    let config = TurboQuantConfig::default();
    let mut mgr =
        QuantizedKvCacheManager::new(4, 1, 8, 128, 16, config, &tables(&config, 1, 128), &mut backend).unwrap();

    let h = mgr.allocate().unwrap();
    let bt = mgr.block_table(h).unwrap();
    assert_eq!(bt.len(), 1); // initial block

    mgr.free(h).unwrap();
}

#[test]
fn test_block_size_consistency() {
    assert_eq!(BLOCK_SIZE, 16, "quantized cache must use same BLOCK_SIZE as FP16 cache");
}

#[test]
fn keys_and_values_are_compressed_and_then_copied() {
    let mut backend = MockBackend::new();
    let config = TurboQuantConfig::default();
    // Block tensors 1..=16, rotations 17..=20, codebooks 21 (2 bits) and 22 (4 bits),
    // scratch 23..=26.
    let mut mgr = QuantizedKvCacheManager::new(
        2,
        2,
        1,
        8,
        64,
        config,
        &tables(&config, 2, 8),
        &mut backend,
    )
    .unwrap();
    let h = mgr.allocate().unwrap();
    let k = DeviceTensor::new(TensorId(900), vec![20, 1, 8], DType::FP16);
    let v = DeviceTensor::new(TensorId(901), vec![20, 1, 8], DType::FP16);
    mgr.append_kv(h, 0, &k, &v, &mut backend).unwrap();
    assert_eq!(
        backend.log,
        vec![
            "compress 900 with 17 and 22 at 4 into 23 and 24",
            "compress 901 with 18 and 21 at 2 into 25 and 26",
            "copy 23[0] to 1[0] x16",
            "copy 24[0] to 2[0] x16",
            "copy 25[0] to 3[0] x16",
            "copy 26[0] to 4[0] x16",
            "copy 23[16] to 9[0] x4",
            "copy 24[16] to 10[0] x4",
            "copy 25[16] to 11[0] x4",
            "copy 26[16] to 12[0] x4",
        ]
    );
    assert_eq!(mgr.seq_len(h).unwrap(), 20);
    assert_eq!(mgr.block_table(h).unwrap(), &[0, 1]);
    assert_eq!(mgr.num_free_blocks(), 0);
    assert_eq!(mgr.available_token_capacity(), 0);
    // The other layer takes no blocks.
    backend.log.clear();
    mgr.append_kv(h, 1, &k, &v, &mut backend).unwrap();
    assert_eq!(backend.log[0], "compress 900 with 19 and 22 at 4 into 23 and 24");
    assert_eq!(backend.log[2], "copy 23[0] to 5[0] x16");
    assert_eq!(mgr.seq_len(h).unwrap(), 20);
    // There is no block for more tokens.
    backend.log.clear();
    let more = DeviceTensor::new(TensorId(902), vec![13, 1, 8], DType::FP16);
    assert!(mgr.append_kv(h, 0, &more, &more, &mut backend).is_err());
    assert_eq!(backend.log.len(), 2);
    assert_eq!(mgr.seq_len(h).unwrap(), 20);
    assert_eq!(mgr.block_table(h).unwrap().len(), 2);
}

#[test]
fn compression_comes_before_the_lookup_of_the_sequence() {
    let mut backend = MockBackend::new();
    let config = TurboQuantConfig::default();
    let mut mgr = QuantizedKvCacheManager::new(
        2,
        1,
        1,
        8,
        64,
        config,
        &tables(&config, 1, 8),
        &mut backend,
    )
    .unwrap();
    let k = DeviceTensor::new(TensorId(900), vec![1, 1, 8], DType::FP16);
    let err = mgr.append_kv(CacheHandle(7), 0, &k, &k, &mut backend).unwrap_err();
    assert_eq!(err.to_string(), "KV cache error: invalid handle: 7");
    assert_eq!(backend.log.len(), 2);
}

#[test]
fn devices_that_cannot_compress_say_so() {
    let mut backend = PlainBackend { next_id: 1 };
    let config = TurboQuantConfig::default();
    let mut mgr = QuantizedKvCacheManager::new(
        2,
        1,
        1,
        8,
        64,
        config,
        &tables(&config, 1, 8),
        &mut backend,
    )
    .unwrap();
    let h = mgr.allocate().unwrap();
    let k = DeviceTensor::new(TensorId(900), vec![1, 1, 8], DType::FP16);
    let err = mgr.append_kv(h, 0, &k, &k, &mut backend).unwrap_err();
    assert_eq!(
        err.to_string(),
        "backend error: turboquant compression not supported by this backend"
    );
    assert_eq!(mgr.seq_len(h).unwrap(), 0);
}

#[test]
fn pool_tensors_have_packed_shapes() {
    let mut backend = MockBackend::new();
    let config = TurboQuantConfig { protected_layers: 1, ..TurboQuantConfig::default() };
    let pool =
        QuantizedBlockPool::new(1, 3, 8, 128, &config, &tables(&config, 3, 128), &mut backend)
            .unwrap();
    assert_eq!(pool.k_packed(0, 0).shape, vec![16, 1024]);
    assert_eq!(pool.v_packed(0, 0).shape, vec![16, 1024]);
    assert_eq!(pool.k_packed(0, 1).shape, vec![16, 512]);
    assert_eq!(pool.v_packed(0, 1).shape, vec![16, 256]);
    assert_eq!(pool.k_norms(0, 1).shape, vec![16, 8]);
    assert_eq!(pool.v_norms(0, 1).dtype, DType::FP16);
    assert_eq!(pool.k_packed(0, 1).dtype, DType::INT8);
    assert_eq!(pool.bytes_per_block(), 2 * (16 * 8 * 256 + 512) + 12800);
}

#[test]
fn rotations_and_codebooks_are_uploaded() {
    let mut backend = MockBackend::new();
    let config = TurboQuantConfig::default();
    let pool =
        QuantizedBlockPool::new(1, 2, 8, 2, &config, &tables(&config, 2, 2), &mut backend).unwrap();
    // K and V of layer 0, K and V of layer 1, then 2 and 4 bits.
    assert_eq!(backend.uploads.len(), 6);
    assert_eq!(backend.uploads[0].0, pool.k_rotation(0).id.0);
    assert_eq!(backend.uploads[3].0, pool.v_rotation(1).id.0);
    assert_eq!(backend.uploads[3].1, [3u32; 4].iter().flat_map(|x| x.to_le_bytes()).collect::<Vec<u8>>());
    assert_eq!(backend.uploads[4].0, pool.centroids(2).id.0);
    assert_eq!(backend.uploads[5].0, pool.centroids(4).id.0);
    assert_eq!(backend.uploads[5].1.len(), 64);
}

#[test]
fn a_manager_frees_its_scratch_first() {
    let mut backend = MockBackend::new();
    let config = TurboQuantConfig::default();
    let mgr = QuantizedKvCacheManager::new(
        1,
        1,
        1,
        8,
        64,
        config,
        &tables(&config, 1, 8),
        &mut backend,
    )
    .unwrap();
    mgr.destroy(&mut backend).unwrap();
    // Scratch 9..=12; keys 1 and 2, values 3 and 4; rotations 5 and 6; codebooks 7 and 8.
    let freed: Vec<&str> = backend.log.iter().map(|s| s.as_str()).collect();
    assert_eq!(
        freed,
        vec![
            "free 9", "free 10", "free 11", "free 12", "free 1", "free 2", "free 3", "free 4",
            "free 5", "free 6", "free 7", "free 8",
        ]
    );
}

#[test]
fn an_append_that_runs_out_of_blocks_keeps_those_it_took() {
    let mut backend = MockBackend::new();
    let config = TurboQuantConfig::default();
    let mut mgr =
        QuantizedKvCacheManager::new(4, 1, 1, 8, 64, config, &tables(&config, 1, 8), &mut backend)
            .unwrap();
    let a = mgr.allocate().unwrap();
    let b = mgr.allocate().unwrap();
    let tokens = |n: usize| DeviceTensor::new(TensorId(900), vec![n, 1, 8], DType::FP16);
    // 60 tokens need 4 blocks; 1 is there and 2 are free.
    let err = mgr.append_kv(a, 0, &tokens(60), &tokens(60), &mut backend).unwrap_err();
    assert!(matches!(err, FractureError::OutOfMemory { available: 0, .. }));
    assert_eq!(mgr.block_table(a).unwrap(), &[0, 2, 3]);
    assert_eq!(mgr.num_free_blocks(), 0);
    assert_eq!(mgr.seq_len(a).unwrap(), 0);
    // The first block has room for 5 tokens; the next 20 take a block though there is one.
    mgr.free(b).unwrap();
    mgr.append_kv(a, 0, &tokens(5), &tokens(5), &mut backend).unwrap();
    assert_eq!(mgr.num_free_blocks(), 1);
    backend.log.clear();
    mgr.append_kv(a, 0, &tokens(20), &tokens(20), &mut backend).unwrap();
    assert_eq!(mgr.seq_len(a).unwrap(), 25);
    assert_eq!(mgr.block_table(a).unwrap(), &[0, 2, 3, 1]);
    assert_eq!(mgr.num_free_blocks(), 0);
    // Blocks have 4 tensors each, from 1 on: the tokens go to blocks 0 and 2.
    let copies: Vec<&str> =
        backend.log.iter().filter(|l| l.starts_with("copy")).map(|l| l.as_str()).collect();
    assert!(copies[0].contains("to 1[5] x11"));
    assert!(copies[4].contains("to 9[0] x9"));
    // All blocks come back.
    mgr.free(a).unwrap();
    assert_eq!(mgr.num_free_blocks(), 4);
}

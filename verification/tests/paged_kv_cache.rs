//! The paged cache.
use fracture::base::backend::{no_compression, no_paged_attention, Backend, DeviceTimer};
use fracture::base::dtype::DType;
use fracture::base::error::{FractureError, Result};
use fracture::base::numeric::{Double, Single};
use fracture::base::tensor::{DeviceTensor, TensorId};
use fracture::engine::block_table::BLOCK_SIZE;
use fracture::engine::kv_cache::CacheHandle;
use fracture::engine::paged_kv_cache::{compute_num_blocks, BlockPool, PagedKvCacheManager};

/// A device that logs the copies of rows.
struct MockBackend {
    next_id: u64,
    /// Source, destination, both offsets, and the count.
    copy_rows_log: Vec<(u64, u64, usize, usize, usize)>,
    freed: Vec<u64>,
}

impl MockBackend {
    fn new() -> Self {
        Self { next_id: 1, copy_rows_log: Vec::new(), freed: Vec::new() }
    }
}

impl Backend for MockBackend {
    fn allocate(&mut self, shape: &[usize], dtype: DType) -> Result<DeviceTensor> {
        self.next_id += 1;
        Ok(DeviceTensor::new(TensorId(self.next_id - 1), shape.to_vec(), dtype))
    }
    fn free(&mut self, tensor: &DeviceTensor) -> Result<()> {
        self.freed.push(tensor.id.0);
        Ok(())
    }
    fn copy_to_device(&mut self, _dst: &DeviceTensor, _src: &[u8]) -> Result<()> {
        Ok(())
    }
    fn copy_to_host(&mut self, _src: &DeviceTensor, _dst: &mut [u8]) -> Result<()> {
        Ok(())
    }
    fn matmul(&mut self, _a: &DeviceTensor, _b: &DeviceTensor, _out: &DeviceTensor) -> Result<()> {
        Ok(())
    }
    fn rmsnorm(&mut self, _input: &DeviceTensor, _weight: &DeviceTensor, _eps: Double, _out: &DeviceTensor) -> Result<()> {
        Ok(())
    }
    fn rope(&mut self, _q: &DeviceTensor, _k: &DeviceTensor, _positions: &[u32], _theta: Double, _head_dim: usize) -> Result<()> {
        Ok(())
    }
    fn attention(&mut self, _q: &DeviceTensor, _k_cache: &DeviceTensor, _v_cache: &DeviceTensor, _num_kv_heads: usize, _start_pos: usize, _out: &DeviceTensor) -> Result<()> {
        Ok(())
    }
    fn attention_paged(&mut self, _q: &DeviceTensor, _block_table: &[i32], _k_blocks: &[&DeviceTensor], _v_blocks: &[&DeviceTensor], _num_kv_heads: usize, _kv_len: usize, _start_pos: usize, _out: &DeviceTensor) -> Result<()> {
        Err(no_paged_attention())
    }
    fn turboquant_compress(&mut self, _input: &DeviceTensor, _rotation: &DeviceTensor, _centroids: &DeviceTensor, _bits: u8, _packed_out: &DeviceTensor, _norms_out: &DeviceTensor) -> Result<()> {
        Err(no_compression())
    }
    fn silu_mul(&mut self, _gate: &DeviceTensor, _up: &DeviceTensor, _out: &DeviceTensor) -> Result<()> {
        Ok(())
    }
    fn embedding(&mut self, _token_ids: &[u32], _table: &DeviceTensor, _out: &DeviceTensor) -> Result<()> {
        Ok(())
    }
    fn add(&mut self, _a: &DeviceTensor, _b: &DeviceTensor, _out: &DeviceTensor) -> Result<()> {
        Ok(())
    }
    fn copy_rows(&mut self, src: &DeviceTensor, dst: &DeviceTensor, src_offset: usize, dst_offset: usize, count: usize) -> Result<()> {
        self.copy_rows_log.push((src.id.0, dst.id.0, src_offset, dst_offset, count));
        Ok(())
    }
    fn device_name(&self) -> &str {
        "mock"
    }
    fn total_memory(&self) -> usize {
        1 << 30
    }
    fn available_memory(&self) -> usize {
        1 << 30
    }
    fn synchronize(&mut self) -> Result<()> {
        Ok(())
    }
    fn create_timer(&mut self) -> Result<DeviceTimer> {
        Ok(DeviceTimer(0))
    }
    fn start_timer(&mut self, _timer: &DeviceTimer) -> Result<()> {
        Ok(())
    }
    fn stop_timer(&mut self, _timer: &DeviceTimer) -> Result<Single> {
        Ok(Single::from_bits(0))
    }
    fn destroy_timer(&mut self, _timer: &DeviceTimer) -> Result<()> {
        Ok(())
    }
    fn marker_push(&mut self, _name: &str) {}
    fn marker_pop(&mut self) {}
}

/// A device without memory.
struct FailingAllocBackend {
    next_id: u64,
}

impl Backend for FailingAllocBackend {
    fn allocate(&mut self, shape: &[usize], dtype: DType) -> Result<DeviceTensor> {
        let _ = (shape, dtype);
        self.next_id += 1;
        Err(FractureError::Backend("forced alloc error".into()))
    }
    fn free(&mut self, _tensor: &DeviceTensor) -> Result<()> {
        Ok(())
    }
    fn copy_to_device(&mut self, _dst: &DeviceTensor, _src: &[u8]) -> Result<()> {
        Ok(())
    }
    fn copy_to_host(&mut self, _src: &DeviceTensor, _dst: &mut [u8]) -> Result<()> {
        Ok(())
    }
    fn matmul(&mut self, _a: &DeviceTensor, _b: &DeviceTensor, _out: &DeviceTensor) -> Result<()> {
        Ok(())
    }
    fn rmsnorm(&mut self, _input: &DeviceTensor, _weight: &DeviceTensor, _eps: Double, _out: &DeviceTensor) -> Result<()> {
        Ok(())
    }
    fn rope(&mut self, _q: &DeviceTensor, _k: &DeviceTensor, _positions: &[u32], _theta: Double, _head_dim: usize) -> Result<()> {
        Ok(())
    }
    fn attention(&mut self, _q: &DeviceTensor, _k_cache: &DeviceTensor, _v_cache: &DeviceTensor, _num_kv_heads: usize, _start_pos: usize, _out: &DeviceTensor) -> Result<()> {
        Ok(())
    }
    fn attention_paged(&mut self, _q: &DeviceTensor, _block_table: &[i32], _k_blocks: &[&DeviceTensor], _v_blocks: &[&DeviceTensor], _num_kv_heads: usize, _kv_len: usize, _start_pos: usize, _out: &DeviceTensor) -> Result<()> {
        Err(no_paged_attention())
    }
    fn turboquant_compress(&mut self, _input: &DeviceTensor, _rotation: &DeviceTensor, _centroids: &DeviceTensor, _bits: u8, _packed_out: &DeviceTensor, _norms_out: &DeviceTensor) -> Result<()> {
        Err(no_compression())
    }
    fn silu_mul(&mut self, _gate: &DeviceTensor, _up: &DeviceTensor, _out: &DeviceTensor) -> Result<()> {
        Ok(())
    }
    fn embedding(&mut self, _token_ids: &[u32], _table: &DeviceTensor, _out: &DeviceTensor) -> Result<()> {
        Ok(())
    }
    fn add(&mut self, _a: &DeviceTensor, _b: &DeviceTensor, _out: &DeviceTensor) -> Result<()> {
        Ok(())
    }
    fn copy_rows(&mut self, _src: &DeviceTensor, _dst: &DeviceTensor, _src_offset: usize, _dst_offset: usize, _count: usize) -> Result<()> {
        Ok(())
    }
    fn device_name(&self) -> &str {
        "mock"
    }
    fn total_memory(&self) -> usize {
        1 << 30
    }
    fn available_memory(&self) -> usize {
        1 << 30
    }
    fn synchronize(&mut self) -> Result<()> {
        Ok(())
    }
    fn create_timer(&mut self) -> Result<DeviceTimer> {
        Ok(DeviceTimer(0))
    }
    fn start_timer(&mut self, _timer: &DeviceTimer) -> Result<()> {
        Ok(())
    }
    fn stop_timer(&mut self, _timer: &DeviceTimer) -> Result<Single> {
        Ok(Single::from_bits(0))
    }
    fn destroy_timer(&mut self, _timer: &DeviceTimer) -> Result<()> {
        Ok(())
    }
    fn marker_push(&mut self, _name: &str) {}
    fn marker_pop(&mut self) {}
}

#[test]
fn test_block_pool_creation() {
    let mut backend = MockBackend::new();
    let pool = BlockPool::new(10, 2, 8, 128, &mut backend).unwrap();
    assert_eq!(pool.capacity(), 10);
    assert_eq!(pool.num_free(), 10);
}

#[test]
fn test_block_pool_alloc_and_free() {
    let mut backend = MockBackend::new();
    let mut pool = BlockPool::new(3, 2, 8, 128, &mut backend).unwrap();

    let b0 = pool.alloc_block().unwrap();
    let b1 = pool.alloc_block().unwrap();
    let b2 = pool.alloc_block().unwrap();
    assert_eq!(pool.num_free(), 0);

    // Pool is exhausted.
    assert!(pool.alloc_block().is_err());

    // Free one and re-alloc.
    pool.free_block(b1);
    assert_eq!(pool.num_free(), 1);
    let b3 = pool.alloc_block().unwrap();
    assert_eq!(b3, b1); // reuses the freed block
    assert_eq!(pool.num_free(), 0);

    pool.free_block(b0);
    pool.free_block(b2);
    pool.free_block(b3);
    assert_eq!(pool.num_free(), 3);
}

#[test]
fn test_block_pool_tensor_shapes() {
    let mut backend = MockBackend::new();
    let pool = BlockPool::new(2, 4, 8, 128, &mut backend).unwrap();

    for block_id in 0..2 {
        for layer in 0..4 {
            let k = pool.k_tensor(block_id, layer);
            assert_eq!(k.shape, vec![BLOCK_SIZE, 8, 128]);
            assert_eq!(k.dtype, DType::FP16);

            let v = pool.v_tensor(block_id, layer);
            assert_eq!(v.shape, vec![BLOCK_SIZE, 8, 128]);
            assert_eq!(v.dtype, DType::FP16);
        }
    }
}

#[test]
fn test_paged_cache_alloc_and_free() {
    let mut backend = MockBackend::new();
    let mut cache = PagedKvCacheManager::new(10, 2, 8, 128, &mut backend).unwrap();

    let h = cache.allocate().unwrap();
    assert_eq!(cache.seq_len(h).unwrap(), 0);
    assert_eq!(cache.last_block_tokens(h).unwrap(), 0);
    assert_eq!(cache.block_table(h).unwrap().len(), 1); // one initial block

    // Pool should have used 1 block.
    assert_eq!(cache.num_free_blocks(), 9);

    cache.free(h).unwrap();
    assert_eq!(cache.num_free_blocks(), 10);

    // Operations on freed handle fail.
    assert!(cache.seq_len(h).is_err());
}

#[test]
fn test_paged_cache_append_single_token() {
    let mut backend = MockBackend::new();
    let num_layers = 2;
    let mut cache = PagedKvCacheManager::new(10, num_layers, 8, 128, &mut backend).unwrap();

    let h = cache.allocate().unwrap();

    // Simulate a decode step: append 1 token per layer.
    let k = DeviceTensor::new(TensorId(9000), vec![1, 8, 128], DType::FP16);
    let v = DeviceTensor::new(TensorId(9001), vec![1, 8, 128], DType::FP16);
    for layer in 0..num_layers {
        cache.append_kv(h, layer, &k, &v, &mut backend).unwrap();
    }

    assert_eq!(cache.seq_len(h).unwrap(), 1);
    assert_eq!(cache.last_block_tokens(h).unwrap(), 1);
    assert_eq!(cache.block_table(h).unwrap().len(), 1); // still fits in first block
}

#[test]
fn test_paged_cache_append_fills_block_then_grows() {
    let mut backend = MockBackend::new();
    let num_layers = 1;
    let mut cache = PagedKvCacheManager::new(10, num_layers, 8, 128, &mut backend).unwrap();

    let h = cache.allocate().unwrap();

    // Append BLOCK_SIZE tokens one at a time — should stay in one block.
    let k = DeviceTensor::new(TensorId(9000), vec![1, 8, 128], DType::FP16);
    let v = DeviceTensor::new(TensorId(9001), vec![1, 8, 128], DType::FP16);
    for i in 0..BLOCK_SIZE {
        cache.append_kv(h, 0, &k, &v, &mut backend).unwrap();
        assert_eq!(cache.seq_len(h).unwrap(), i + 1);
    }
    assert_eq!(cache.block_table(h).unwrap().len(), 1);
    assert_eq!(cache.last_block_tokens(h).unwrap(), BLOCK_SIZE);

    // Append one more — should allocate a second block.
    cache.append_kv(h, 0, &k, &v, &mut backend).unwrap();
    assert_eq!(cache.seq_len(h).unwrap(), BLOCK_SIZE + 1);
    assert_eq!(cache.block_table(h).unwrap().len(), 2);
    assert_eq!(cache.last_block_tokens(h).unwrap(), 1);
}

#[test]
fn test_paged_cache_prefill_bulk() {
    let mut backend = MockBackend::new();
    let num_layers = 1;
    // Need enough blocks: 50 tokens = ceil(50/16) = 4 blocks, plus 1 initial = 4 total.
    let mut cache = PagedKvCacheManager::new(10, num_layers, 8, 128, &mut backend).unwrap();

    let h = cache.allocate().unwrap();

    // Prefill 50 tokens at once.
    let k = DeviceTensor::new(TensorId(9000), vec![50, 8, 128], DType::FP16);
    let v = DeviceTensor::new(TensorId(9001), vec![50, 8, 128], DType::FP16);
    cache.append_kv(h, 0, &k, &v, &mut backend).unwrap();

    assert_eq!(cache.seq_len(h).unwrap(), 50);
    // 50 tokens: blocks [0-15], [16-31], [32-47], [48-49] = 4 blocks
    // But initial alloc gave us 1, so we needed 3 more = 4 total.
    assert_eq!(cache.block_table(h).unwrap().len(), 4);
    assert_eq!(cache.last_block_tokens(h).unwrap(), 2); // 50 - 48 = 2 in last block

    // Free and verify blocks returned.
    let free_before = cache.num_free_blocks();
    cache.free(h).unwrap();
    assert_eq!(cache.num_free_blocks(), free_before + 4);
}

#[test]
fn test_paged_cache_oom() {
    let mut backend = MockBackend::new();
    // Only 2 blocks total.
    let mut cache = PagedKvCacheManager::new(2, 1, 8, 128, &mut backend).unwrap();

    let h = cache.allocate().unwrap(); // uses 1 block

    // Fill the first block.
    let k = DeviceTensor::new(TensorId(9000), vec![BLOCK_SIZE, 8, 128], DType::FP16);
    let v = DeviceTensor::new(TensorId(9001), vec![BLOCK_SIZE, 8, 128], DType::FP16);
    cache.append_kv(h, 0, &k, &v, &mut backend).unwrap();

    // Allocate a second sequence — uses the last block.
    let h2 = cache.allocate().unwrap();
    assert_eq!(cache.num_free_blocks(), 0);

    // Now appending more to h should fail (no blocks left).
    let k1 = DeviceTensor::new(TensorId(9002), vec![1, 8, 128], DType::FP16);
    let v1 = DeviceTensor::new(TensorId(9003), vec![1, 8, 128], DType::FP16);
    let result = cache.append_kv(h, 0, &k1, &v1, &mut backend);
    assert!(result.is_err());
    assert!(matches!(result.unwrap_err(), FractureError::OutOfMemory { .. }));

    cache.free(h).unwrap();
    cache.free(h2).unwrap();
}

#[test]
fn test_paged_cache_multi_sequence_isolation() {
    let mut backend = MockBackend::new();
    let mut cache = PagedKvCacheManager::new(20, 1, 8, 128, &mut backend).unwrap();

    let a = cache.allocate().unwrap();
    let b = cache.allocate().unwrap();

    // Append different amounts.
    let k5 = DeviceTensor::new(TensorId(9000), vec![5, 8, 128], DType::FP16);
    let v5 = DeviceTensor::new(TensorId(9001), vec![5, 8, 128], DType::FP16);
    cache.append_kv(a, 0, &k5, &v5, &mut backend).unwrap();

    let k20 = DeviceTensor::new(TensorId(9002), vec![20, 8, 128], DType::FP16);
    let v20 = DeviceTensor::new(TensorId(9003), vec![20, 8, 128], DType::FP16);
    cache.append_kv(b, 0, &k20, &v20, &mut backend).unwrap();

    assert_eq!(cache.seq_len(a).unwrap(), 5);
    assert_eq!(cache.seq_len(b).unwrap(), 20);

    // Block tables should be independent.
    let a_blocks = cache.block_table(a).unwrap();
    let b_blocks = cache.block_table(b).unwrap();
    assert_eq!(a_blocks.len(), 1);  // 5 tokens fits in 1 block
    assert_eq!(b_blocks.len(), 2);  // 20 tokens = 2 blocks

    // No overlap in block IDs.
    for &ab in a_blocks {
        assert!(!b_blocks.contains(&ab), "block tables should not overlap");
    }

    // Free A, verify B unaffected.
    cache.free(a).unwrap();
    assert_eq!(cache.seq_len(b).unwrap(), 20);
    assert!(cache.seq_len(a).is_err());

    cache.free(b).unwrap();
}

#[test]
fn test_paged_cache_reuse_after_free() {
    let mut backend = MockBackend::new();
    let mut cache = PagedKvCacheManager::new(5, 1, 8, 128, &mut backend).unwrap();

    let h1 = cache.allocate().unwrap();
    let k = DeviceTensor::new(TensorId(9000), vec![10, 8, 128], DType::FP16);
    let v = DeviceTensor::new(TensorId(9001), vec![10, 8, 128], DType::FP16);
    cache.append_kv(h1, 0, &k, &v, &mut backend).unwrap();

    let free_before = cache.num_free_blocks();
    cache.free(h1).unwrap();
    let free_after = cache.num_free_blocks();
    assert!(free_after > free_before);

    // Re-allocate — should succeed and reuse freed blocks.
    let h2 = cache.allocate().unwrap();
    cache.append_kv(h2, 0, &k, &v, &mut backend).unwrap();
    assert_eq!(cache.seq_len(h2).unwrap(), 10);

    cache.free(h2).unwrap();
}

#[test]
fn test_paged_cache_available_token_capacity() {
    let mut backend = MockBackend::new();
    let cache = PagedKvCacheManager::new(100, 1, 8, 128, &mut backend).unwrap();
    assert_eq!(cache.available_token_capacity(), 100 * BLOCK_SIZE);
}

#[test]
fn test_block_pool_bytes_per_block() {
    let mut backend = MockBackend::new();
    let pool = BlockPool::new(1, 32, 8, 128, &mut backend).unwrap();
    // K + V = 2 tensors, each BLOCK_SIZE * 8 * 128 * 2 bytes, × 32 layers
    let expected = BLOCK_SIZE * 8 * 128 * 2 * 2 * 32;
    assert_eq!(pool.bytes_per_block(), expected);
    // With BLOCK_SIZE=16: 16 * 8 * 128 * 2 * 2 * 32 = 2,097,152 = 2 MB
    assert_eq!(expected, 2 * 1024 * 1024);
}

#[test]
fn test_copy_rows_offsets_during_append_kv() {
    let mut backend = MockBackend::new();
    let num_layers = 1;
    let mut cache = PagedKvCacheManager::new(10, num_layers, 8, 128, &mut backend).unwrap();

    let h = cache.allocate().unwrap();

    // Append 1 token — first token in the block, so offset_in_block = 0.
    let k = DeviceTensor::new(TensorId(9000), vec![1, 8, 128], DType::FP16);
    let v = DeviceTensor::new(TensorId(9001), vec![1, 8, 128], DType::FP16);
    cache.append_kv(h, 0, &k, &v, &mut backend).unwrap();

    let log = &backend.copy_rows_log;
    // Should have 2 copy_rows calls: one for K, one for V.
    assert_eq!(log.len(), 2);

    // K copy: (src_id=9000, dst_id=<block_k>, src_offset=0, dst_offset=0, count=1)
    let (src_id, _dst_id, src_offset, dst_offset, count) = log[0];
    assert_eq!(src_id, 9000);
    assert_eq!(src_offset, 0);
    assert_eq!(dst_offset, 0); // first token in block
    assert_eq!(count, 1);

    // V copy: (src_id=9001, dst_id=<block_v>, src_offset=0, dst_offset=0, count=1)
    let (src_id, _dst_id, src_offset, dst_offset, count) = log[1];
    assert_eq!(src_id, 9001);
    assert_eq!(src_offset, 0);
    assert_eq!(dst_offset, 0);
    assert_eq!(count, 1);
}

#[test]
fn test_prefill_spanning_multiple_blocks_copy_rows() {
    let mut backend = MockBackend::new();
    let num_layers = 1;
    let mut cache = PagedKvCacheManager::new(10, num_layers, 8, 128, &mut backend).unwrap();

    let h = cache.allocate().unwrap();

    // Prefill 50 tokens at once. BLOCK_SIZE=16, so chunks: 16, 16, 16, 2.
    let k = DeviceTensor::new(TensorId(9000), vec![50, 8, 128], DType::FP16);
    let v = DeviceTensor::new(TensorId(9001), vec![50, 8, 128], DType::FP16);
    cache.append_kv(h, 0, &k, &v, &mut backend).unwrap();

    let log = &backend.copy_rows_log;
    // 4 chunks × 2 (K + V) = 8 copy_rows calls.
    assert_eq!(log.len(), 8);

    // Expected chunks: (src_offset, dst_offset, count)
    // Chunk 0: tokens 0..16  → block 0, offset 0, count 16
    // Chunk 1: tokens 16..32 → block 1, offset 0, count 16
    // Chunk 2: tokens 32..48 → block 2, offset 0, count 16
    // Chunk 3: tokens 48..50 → block 3, offset 0, count 2
    let expected_chunks = [
        (0, 0, BLOCK_SIZE),   // 16
        (BLOCK_SIZE, 0, BLOCK_SIZE),   // 16
        (2 * BLOCK_SIZE, 0, BLOCK_SIZE),   // 16
        (3 * BLOCK_SIZE, 0, 2),   // 2
    ];

    for (i, &(exp_src_off, exp_dst_off, exp_count)) in expected_chunks.iter().enumerate() {
        // K copy is at index i*2, V copy at i*2+1.
        let (src_id, _dst_id, src_offset, dst_offset, count) = log[i * 2];
        assert_eq!(src_id, 9000, "chunk {i} K: wrong src_id");
        assert_eq!(src_offset, exp_src_off, "chunk {i} K: wrong src_offset");
        assert_eq!(dst_offset, exp_dst_off, "chunk {i} K: wrong dst_offset");
        assert_eq!(count, exp_count, "chunk {i} K: wrong count");

        let (src_id, _dst_id, src_offset, dst_offset, count) = log[i * 2 + 1];
        assert_eq!(src_id, 9001, "chunk {i} V: wrong src_id");
        assert_eq!(src_offset, exp_src_off, "chunk {i} V: wrong src_offset");
        assert_eq!(dst_offset, exp_dst_off, "chunk {i} V: wrong dst_offset");
        assert_eq!(count, exp_count, "chunk {i} V: wrong count");
    }
}

#[test]
fn test_oom_sequence_remains_valid() {
    let mut backend = MockBackend::new();
    // Only 2 blocks total.
    let mut cache = PagedKvCacheManager::new(2, 1, 8, 128, &mut backend).unwrap();

    let h = cache.allocate().unwrap(); // uses 1 block, 1 free remaining

    // Fill both blocks: append 32 tokens (2 full blocks).
    let k32 = DeviceTensor::new(TensorId(9000), vec![BLOCK_SIZE * 2, 8, 128], DType::FP16);
    let v32 = DeviceTensor::new(TensorId(9001), vec![BLOCK_SIZE * 2, 8, 128], DType::FP16);
    cache.append_kv(h, 0, &k32, &v32, &mut backend).unwrap();

    // Record state before OOM attempt.
    let seq_len_before = cache.seq_len(h).unwrap();
    let block_table_len_before = cache.block_table(h).unwrap().len();
    let last_block_tokens_before = cache.last_block_tokens(h).unwrap();

    assert_eq!(seq_len_before, BLOCK_SIZE * 2);
    assert_eq!(block_table_len_before, 2);
    assert_eq!(last_block_tokens_before, BLOCK_SIZE);
    assert_eq!(cache.num_free_blocks(), 0);

    // Attempt to append 1 more token — should fail with OOM.
    let k1 = DeviceTensor::new(TensorId(9002), vec![1, 8, 128], DType::FP16);
    let v1 = DeviceTensor::new(TensorId(9003), vec![1, 8, 128], DType::FP16);
    let result = cache.append_kv(h, 0, &k1, &v1, &mut backend);
    assert!(result.is_err());
    assert!(matches!(result.unwrap_err(), FractureError::OutOfMemory { .. }));

    // Sequence state must be unchanged after OOM.
    assert_eq!(cache.seq_len(h).unwrap(), seq_len_before);
    assert_eq!(cache.block_table(h).unwrap().len(), block_table_len_before);
    assert_eq!(cache.last_block_tokens(h).unwrap(), last_block_tokens_before);
}

#[test]
fn test_compute_num_blocks_normal() {
    // 16 GB available, 512 MB reserve, 32 layers, 8 heads, 128 dim
    let gpu_available = 16 * 1024 * 1024 * 1024;
    let scratch_reserve = 512 * 1024 * 1024;
    let num_layers = 32;
    let num_kv_heads = 8;
    let head_dim = 128;

    let result = compute_num_blocks(gpu_available, scratch_reserve, num_layers, num_kv_heads, head_dim);

    let cache_budget = gpu_available - scratch_reserve;
    let bytes_per_block = BLOCK_SIZE * num_kv_heads * head_dim * 2 * 2 * num_layers;
    let expected = cache_budget / bytes_per_block;
    assert_eq!(result, expected);
    assert!(result > 0);
}

#[test]
fn test_compute_num_blocks_zero_budget() {
    // scratch_reserve >= gpu_available → 0 blocks
    let result = compute_num_blocks(512 * 1024 * 1024, 1024 * 1024 * 1024, 32, 8, 128);
    assert_eq!(result, 0);

    // Exactly equal
    let result = compute_num_blocks(512 * 1024 * 1024, 512 * 1024 * 1024, 32, 8, 128);
    assert_eq!(result, 0);
}

#[test]
fn test_compute_num_blocks_small_gpu() {
    // Very small available memory — not enough for even one block
    let bytes_per_block = BLOCK_SIZE * 8 * 128 * 2 * 2 * 32; // ~2 MB
    let result = compute_num_blocks(bytes_per_block - 1, 0, 32, 8, 128);
    assert_eq!(result, 0);
}

#[test]
fn test_compute_num_blocks_zero_layers() {
    // 0 layers → bytes_per_block=0 → 0 blocks
    let result = compute_num_blocks(16 * 1024 * 1024 * 1024, 0, 0, 8, 128);
    assert_eq!(result, 0);
}

#[test]
fn test_block_table_and_seq_len_for_attention() {
    // Verify the block_table, seq_len, and last_block_tokens values that would be
    // passed to attention_paged are correct after multi-step appends spanning blocks.
    let mut backend = MockBackend::new();
    let num_layers = 1;
    let mut cache = PagedKvCacheManager::new(10, num_layers, 8, 128, &mut backend).unwrap();

    let h = cache.allocate().unwrap();

    // Append 20 tokens (prefill). BLOCK_SIZE=16, so: block 0 (16) + block 1 (4).
    let k20 = DeviceTensor::new(TensorId(9000), vec![20, 8, 128], DType::FP16);
    let v20 = DeviceTensor::new(TensorId(9001), vec![20, 8, 128], DType::FP16);
    cache.append_kv(h, 0, &k20, &v20, &mut backend).unwrap();

    assert_eq!(cache.block_table(h).unwrap().len(), 2);
    assert_eq!(cache.seq_len(h).unwrap(), 20);
    assert_eq!(cache.last_block_tokens(h).unwrap(), 4);

    // Append 13 more tokens (decode burst). Total = 33 tokens.
    // block 0: 16, block 1: 4+12=16 (full), block 2: 1.
    let k13 = DeviceTensor::new(TensorId(9002), vec![13, 8, 128], DType::FP16);
    let v13 = DeviceTensor::new(TensorId(9003), vec![13, 8, 128], DType::FP16);
    cache.append_kv(h, 0, &k13, &v13, &mut backend).unwrap();

    assert_eq!(cache.block_table(h).unwrap().len(), 3);
    assert_eq!(cache.seq_len(h).unwrap(), 33);
    assert_eq!(cache.last_block_tokens(h).unwrap(), 1);

    cache.free(h).unwrap();
}

/// All PagedKvCacheManager operations on an unknown CacheHandle(999) return
/// an error whose message contains "999".
#[test]
fn test_paged_cache_invalid_handle_all_ops() {
    let mut backend = MockBackend::new();
    let mut cache = PagedKvCacheManager::new(10, 2, 8, 128, &mut backend).unwrap();

    let bad = CacheHandle(999);

    let err = cache.seq_len(bad).unwrap_err();
    assert!(
        err.to_string().contains("999"),
        "seq_len error should mention 999, got: {err:?}"
    );

    let err = cache.block_table(bad).unwrap_err();
    assert!(
        err.to_string().contains("999"),
        "block_table error should mention 999, got: {err:?}"
    );

    let err = cache.last_block_tokens(bad).unwrap_err();
    assert!(
        err.to_string().contains("999"),
        "last_block_tokens error should mention 999, got: {err:?}"
    );

    let k = DeviceTensor::new(TensorId(9000), vec![1, 8, 128], DType::FP16);
    let v = DeviceTensor::new(TensorId(9001), vec![1, 8, 128], DType::FP16);
    let err = cache.append_kv(bad, 0, &k, &v, &mut backend).unwrap_err();
    assert!(
        err.to_string().contains("999"),
        "append_kv error should mention 999, got: {err:?}"
    );

    let err = cache.free(bad).unwrap_err();
    assert!(
        err.to_string().contains("999"),
        "free error should mention 999, got: {err:?}"
    );
}

/// Where the device has no memory, no pool is made.
#[test]
fn test_block_pool_alloc_failure() {
    let mut backend = FailingAllocBackend { next_id: 1 };
    // Requesting 1 block — alloc() fails immediately.
    let result = BlockPool::new(1, 2, 8, 128, &mut backend);
    assert!(result.is_err(), "BlockPool::new should fail when backend alloc fails");
    let err = result.err().unwrap();
    assert!(
        err.to_string().contains("block pool alloc failed"),
        "error should contain 'block pool alloc failed', got: {err:?}"
    );
}

/// With num_layers=2, appending tokens to each layer in sequence produces
/// the same block table offsets for both layers (block allocation happens
/// only on layer 0, layer 1 reuses the allocated blocks).
#[test]
fn test_append_kv_multilayer_same_offsets() {
    let mut backend = MockBackend::new();
    let num_layers = 2;
    let mut cache = PagedKvCacheManager::new(10, num_layers, 8, 128, &mut backend).unwrap();

    let h = cache.allocate().unwrap();

    // Append 3 tokens to each layer (simulating one forward pass iteration).
    for layer in 0..num_layers {
        let k = DeviceTensor::new(TensorId(9000 + layer as u64), vec![3, 8, 128], DType::FP16);
        let v = DeviceTensor::new(TensorId(9010 + layer as u64), vec![3, 8, 128], DType::FP16);
        cache.append_kv(h, layer, &k, &v, &mut backend).unwrap();
    }

    // seq_len reflects layer-0 write (the only one that updates metadata).
    assert_eq!(cache.seq_len(h).unwrap(), 3);
    let block_table = cache.block_table(h).unwrap();
    assert_eq!(block_table.len(), 1); // 3 tokens fit in 1 block

    // copy_rows log: 2 calls per layer (K + V) × 2 layers = 4 total.
    // All calls should have src_offset=0, dst_offset=0, count=3.
    let log = &backend.copy_rows_log;
    assert_eq!(log.len(), 4, "expected 4 copy_rows calls (K+V × 2 layers), got {}", log.len());
    for (i, &(_src_id, _dst_id, src_offset, dst_offset, count)) in log.iter().enumerate() {
        assert_eq!(src_offset, 0, "call {i}: src_offset should be 0");
        assert_eq!(dst_offset, 0, "call {i}: dst_offset should be 0 (first position in block)");
        assert_eq!(count, 3, "call {i}: count should be 3");
    }

    cache.free(h).unwrap();
}

/// After OOM on append_kv, the sequence's pre-OOM state (seq_len, block_table
/// length, last_block_tokens) is preserved unchanged.
#[test]
fn test_paged_cache_oom_sequence_remains_valid() {
    let mut backend = MockBackend::new();
    // 2 blocks total. alloc() takes 1, then alloc another sequence uses the last.
    let mut cache = PagedKvCacheManager::new(2, 1, 8, 128, &mut backend).unwrap();

    let h = cache.allocate().unwrap(); // 1 block used, 1 free

    // Fill the initial block completely (stays in 1 block, no new block allocated).
    let k_fill = DeviceTensor::new(TensorId(9000), vec![BLOCK_SIZE, 8, 128], DType::FP16);
    let v_fill = DeviceTensor::new(TensorId(9001), vec![BLOCK_SIZE, 8, 128], DType::FP16);
    cache.append_kv(h, 0, &k_fill, &v_fill, &mut backend).unwrap(); // still 1 block used, 1 free

    // Allocate another sequence to consume the remaining free block.
    let _h2 = cache.allocate().unwrap(); // 2 blocks used, 0 free
    assert_eq!(cache.num_free_blocks(), 0);

    // Record pre-OOM state.
    let seq_len_before = cache.seq_len(h).unwrap();
    let block_table_len_before = cache.block_table(h).unwrap().len();
    let last_tokens_before = cache.last_block_tokens(h).unwrap();

    // OOM attempt: appending 1 more token needs a new block but pool is empty.
    let k1 = DeviceTensor::new(TensorId(9002), vec![1, 8, 128], DType::FP16);
    let v1 = DeviceTensor::new(TensorId(9003), vec![1, 8, 128], DType::FP16);
    let result = cache.append_kv(h, 0, &k1, &v1, &mut backend);
    assert!(result.is_err(), "expected OOM error");
    assert!(
        matches!(result.unwrap_err(), FractureError::OutOfMemory { .. }),
        "error should be OutOfMemory"
    );

    // State must be unchanged.
    assert_eq!(
        cache.seq_len(h).unwrap(), seq_len_before,
        "seq_len should be unchanged after OOM"
    );
    assert_eq!(
        cache.block_table(h).unwrap().len(), block_table_len_before,
        "block_table length should be unchanged after OOM"
    );
    assert_eq!(
        cache.last_block_tokens(h).unwrap(), last_tokens_before,
        "last_block_tokens should be unchanged after OOM"
    );
}

#[test]
fn pools_are_made_block_by_block_and_freed_keys_first() {
    let mut backend = MockBackend::new();
    let pool = BlockPool::new(2, 2, 8, 128, &mut backend).unwrap();
    // Block 0: K and V of layer 0, then of layer 1.
    assert_eq!(pool.k_tensor(0, 0).id, TensorId(1));
    assert_eq!(pool.v_tensor(0, 0).id, TensorId(2));
    assert_eq!(pool.k_tensor(0, 1).id, TensorId(3));
    assert_eq!(pool.k_tensor(1, 0).id, TensorId(5));
    pool.destroy(&mut backend).unwrap();
    assert_eq!(backend.freed, vec![1, 3, 5, 7, 2, 4, 6, 8]);
}

#[test]
fn a_large_append_that_does_not_fit_takes_no_block() {
    let mut backend = MockBackend::new();
    let mut cache = PagedKvCacheManager::new(3, 1, 8, 128, &mut backend).unwrap();
    let h = cache.allocate().unwrap();
    let k = DeviceTensor::new(TensorId(9000), vec![64, 8, 128], DType::FP16);
    let v = DeviceTensor::new(TensorId(9001), vec![64, 8, 128], DType::FP16);
    // 64 tokens need 4 blocks; there are 3.
    assert!(cache.append_kv(h, 0, &k, &v, &mut backend).is_err());
    assert_eq!(cache.num_free_blocks(), 2);
    assert_eq!(cache.block_table(h).unwrap().len(), 1);
    assert!(backend.copy_rows_log.is_empty());
}

#[test]
fn a_handle_is_spent_even_without_a_block() {
    let mut backend = MockBackend::new();
    let mut cache = PagedKvCacheManager::new(1, 1, 8, 128, &mut backend).unwrap();
    let a = cache.allocate().unwrap();
    assert_eq!(a, CacheHandle(0));
    assert!(cache.allocate().is_err());
    cache.free(a).unwrap();
    assert_eq!(cache.allocate().unwrap(), CacheHandle(2));
}

#[test]
fn a_failed_pool_names_the_block() {
    let mut backend = FailingAllocBackend { next_id: 1 };
    let err = BlockPool::new(1, 2, 8, 128, &mut backend).err().unwrap();
    assert_eq!(
        err.to_string(),
        "KV cache error: block pool alloc failed at block 0: backend error: forced alloc error"
    );
}

#[test]
fn two_appends_are_one() {
    let tokens = |n: usize, id: u64| DeviceTensor::new(TensorId(id), vec![n, 8, 128], DType::FP16);
    let mut backend = MockBackend::new();
    let mut once = PagedKvCacheManager::new(8, 1, 8, 128, &mut backend).unwrap();
    let a = once.allocate().unwrap();
    once.append_kv(a, 0, &tokens(37, 9000), &tokens(37, 9001), &mut backend).unwrap();
    let mut twice = PagedKvCacheManager::new(8, 1, 8, 128, &mut backend).unwrap();
    let b = twice.allocate().unwrap();
    twice.append_kv(b, 0, &tokens(20, 9000), &tokens(20, 9001), &mut backend).unwrap();
    twice.append_kv(b, 0, &tokens(17, 9000), &tokens(17, 9001), &mut backend).unwrap();
    assert_eq!(once.block_table(a).unwrap(), twice.block_table(b).unwrap());
    assert_eq!(once.seq_len(a).unwrap(), twice.seq_len(b).unwrap());
    assert_eq!(once.last_block_tokens(a).unwrap(), twice.last_block_tokens(b).unwrap());
    assert_eq!(once.num_free_blocks(), twice.num_free_blocks());
    // Each block that was taken comes back.
    twice.free(b).unwrap();
    assert_eq!(twice.num_free_blocks(), 8);
}

#[test]
fn blocks_in_tables_and_free_blocks_add_up() {
    let tokens = |n: usize, id: u64| DeviceTensor::new(TensorId(id), vec![n, 8, 128], DType::FP16);
    let mut backend = MockBackend::new();
    let mut cache = PagedKvCacheManager::new(6, 1, 8, 128, &mut backend).unwrap();
    let a = cache.allocate().unwrap();
    let b = cache.allocate().unwrap();
    cache.append_kv(a, 0, &tokens(40, 9000), &tokens(40, 9001), &mut backend).unwrap();
    // This one does not fit.
    assert!(cache.append_kv(b, 0, &tokens(64, 9000), &tokens(64, 9001), &mut backend).is_err());
    let held = cache.block_table(a).unwrap().len() + cache.block_table(b).unwrap().len();
    assert_eq!(held + cache.num_free_blocks(), 6);
    let mut ids = [cache.block_table(a).unwrap(), cache.block_table(b).unwrap()].concat();
    ids.sort();
    ids.dedup();
    assert_eq!(ids.len(), held);
    cache.free(a).unwrap();
    assert_eq!(cache.block_table(b).unwrap().len() + cache.num_free_blocks(), 6);
}

#[test]
fn a_pool_takes_back_any_block() {
    let mut backend = MockBackend::new();
    let mut pool = BlockPool::new(2, 1, 8, 128, &mut backend).unwrap();
    // Block 0 is free already.
    pool.free_block(0);
    assert_eq!(pool.num_free(), 3);
    assert_eq!(pool.alloc_block().unwrap(), 0);
    assert_eq!(pool.k_tensor(1, 0).id, TensorId(3));
}

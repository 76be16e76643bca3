//! Batch scheduling.
use fracture::base::backend::{no_compression, no_paged_attention, Backend, DeviceTimer};
use fracture::base::dtype::DType;
use fracture::base::error::{Result, StopReason};
use fracture::base::numeric::{Double, Single};
use fracture::base::tensor::{DeviceTensor, TensorId};
use fracture::engine::kv_cache::CacheHandle;
use fracture::engine::paged_kv_cache::PagedKvCacheManager;
use fracture::engine::scheduler::{
    ActiveSequence, BatchScheduler, GenerationEvent, PendingRequest, SchedulerDecision,
};
use tokio::sync::mpsc;

fn s(x: f32) -> Single {
    Single::from_bits(x.to_bits())
}

/// A device that does nothing.
struct MockBackend {
    next_id: u64,
}

impl MockBackend {
    fn new() -> Self {
        Self { next_id: 1 }
    }
}

impl Backend for MockBackend {
    fn allocate(&mut self, shape: &[usize], dtype: DType) -> Result<DeviceTensor> {
        self.next_id += 1;
        Ok(DeviceTensor::new(TensorId(self.next_id - 1), shape.to_vec(), dtype))
    }
    fn free(&mut self, _tensor: &DeviceTensor) -> Result<()> {
        Ok(())
    }
    fn copy_to_device(&mut self, _dst: &DeviceTensor, _src: &[u8]) -> Result<()> {
        Ok(())
    }
    fn copy_to_host(&mut self, _src: &DeviceTensor, _dst: &mut [u8]) -> Result<()> {
        Ok(())
    }
    fn matmul(&mut self, _a: &DeviceTensor, _b: &DeviceTensor, _out: &DeviceTensor) -> Result<()> {
        Ok(())
    }
    fn rmsnorm(&mut self, _input: &DeviceTensor, _weight: &DeviceTensor, _eps: Double, _out: &DeviceTensor) -> Result<()> {
        Ok(())
    }
    fn rope(&mut self, _q: &DeviceTensor, _k: &DeviceTensor, _positions: &[u32], _theta: Double, _head_dim: usize) -> Result<()> {
        Ok(())
    }
    fn attention(&mut self, _q: &DeviceTensor, _k_cache: &DeviceTensor, _v_cache: &DeviceTensor, _num_kv_heads: usize, _start_pos: usize, _out: &DeviceTensor) -> Result<()> {
        Ok(())
    }
    fn attention_paged(&mut self, _q: &DeviceTensor, _block_table: &[i32], _k_blocks: &[&DeviceTensor], _v_blocks: &[&DeviceTensor], _num_kv_heads: usize, _kv_len: usize, _start_pos: usize, _out: &DeviceTensor) -> Result<()> {
        Err(no_paged_attention())
    }
    fn turboquant_compress(&mut self, _input: &DeviceTensor, _rotation: &DeviceTensor, _centroids: &DeviceTensor, _bits: u8, _packed_out: &DeviceTensor, _norms_out: &DeviceTensor) -> Result<()> {
        Err(no_compression())
    }
    fn silu_mul(&mut self, _gate: &DeviceTensor, _up: &DeviceTensor, _out: &DeviceTensor) -> Result<()> {
        Ok(())
    }
    fn embedding(&mut self, _token_ids: &[u32], _table: &DeviceTensor, _out: &DeviceTensor) -> Result<()> {
        Ok(())
    }
    fn add(&mut self, _a: &DeviceTensor, _b: &DeviceTensor, _out: &DeviceTensor) -> Result<()> {
        Ok(())
    }
    fn copy_rows(&mut self, _src: &DeviceTensor, _dst: &DeviceTensor, _src_offset: usize, _dst_offset: usize, _count: usize) -> Result<()> {
        Ok(())
    }
    fn device_name(&self) -> &str {
        "mock"
    }
    fn total_memory(&self) -> usize {
        1 << 30
    }
    fn available_memory(&self) -> usize {
        1 << 30
    }
    fn synchronize(&mut self) -> Result<()> {
        Ok(())
    }
    fn create_timer(&mut self) -> Result<DeviceTimer> {
        Ok(DeviceTimer(0))
    }
    fn start_timer(&mut self, _timer: &DeviceTimer) -> Result<()> {
        Ok(())
    }
    fn stop_timer(&mut self, _timer: &DeviceTimer) -> Result<Single> {
        Ok(Single::from_bits(0))
    }
    fn destroy_timer(&mut self, _timer: &DeviceTimer) -> Result<()> {
        Ok(())
    }
    fn marker_push(&mut self, _name: &str) {}
    fn marker_pop(&mut self) {}
}

/// Schedules with the share of the pool that the scheduler keeps in reserve.
fn schedule(sched: &mut BatchScheduler, cache: &PagedKvCacheManager) -> SchedulerDecision {
    let share = f32::from_bits(sched.block_pool_reserve.to_bits());
    let reserved = (cache.pool().capacity() as f32 * share).ceil() as usize;
    sched.schedule(cache, reserved)
}

fn make_cache(backend: &mut MockBackend) -> PagedKvCacheManager {
    PagedKvCacheManager::new(100, 2, 2, 16, backend).unwrap()
}

fn make_request(scheduler: &mut BatchScheduler, prompt_len: usize) -> mpsc::UnboundedReceiver<GenerationEvent> {
    let (tx, rx) = mpsc::unbounded_channel();
    let seq_id = scheduler.next_seq_id();
    scheduler.enqueue(PendingRequest {
        seq_id,
        prompt_tokens: (0..prompt_len as u32).collect(),
        max_tokens: 10,
        temperature: s(0.0),
        top_k: 0,
        top_p: s(1.0),
        seed: None,
        stop_tokens: vec![999],
        event_tx: tx,
    });
    rx
}

#[test]
fn test_scheduler_empty() {
    let mut backend = MockBackend::new();
    let cache = make_cache(&mut backend);
    let mut sched = BatchScheduler::new(64, 4096, 512, s(0.1));
    let decision = schedule(&mut sched, &cache);
    assert_eq!(decision.total_tokens, 0);
    assert!(decision.prefills.is_empty());
    assert!(decision.decodes.is_empty());
    assert!(!sched.has_work());
}

#[test]
fn test_scheduler_admits_new_request() {
    let mut backend = MockBackend::new();
    let cache = make_cache(&mut backend);
    let mut sched = BatchScheduler::new(64, 4096, 512, s(0.1));

    let _rx = make_request(&mut sched, 5);
    assert!(sched.has_work());

    let decision = schedule(&mut sched, &cache);
    assert_eq!(decision.prefills.len(), 1);
    assert_eq!(decision.prefills[0].token_ids.len(), 5);
    assert_eq!(decision.total_tokens, 5);
    assert_eq!(sched.num_active(), 1);
    assert_eq!(sched.num_pending(), 0);
}

#[test]
fn test_scheduler_prefill_chunking() {
    let mut backend = MockBackend::new();
    let cache = make_cache(&mut backend);
    // max_prefill_tokens = 10, prompt = 25 tokens → 3 chunks (10, 10, 5)
    let mut sched = BatchScheduler::new(64, 4096, 10, s(0.1));

    let _rx = make_request(&mut sched, 25);

    // Iteration 1: first chunk of 10
    let d1 = schedule(&mut sched, &cache);
    assert_eq!(d1.prefills.len(), 1);
    assert_eq!(d1.prefills[0].token_ids.len(), 10);
    assert_eq!(d1.total_tokens, 10);

    // Iteration 2: second chunk of 10
    let d2 = schedule(&mut sched, &cache);
    assert_eq!(d2.prefills.len(), 1);
    assert_eq!(d2.prefills[0].token_ids.len(), 10);

    // Iteration 3: final chunk of 5
    let d3 = schedule(&mut sched, &cache);
    assert_eq!(d3.prefills.len(), 1);
    assert_eq!(d3.prefills[0].token_ids.len(), 5);

    // Iteration 4: sequence should now be in decode mode (no remaining prefill)
    // but it has no generated tokens yet, so no decode job either.
    // The sequence needs at least one token to decode.
    let seq = sched.active.get(&0).unwrap();
    assert!(seq.remaining_prefill.is_empty());
    assert_eq!(seq.current_pos, 25);
    let d4 = schedule(&mut sched, &cache);
    assert!(d4.decodes.is_empty());
    assert!(d4.prefills.is_empty());
    assert_eq!(d4.total_tokens, 0);
}

#[test]
fn test_scheduler_decode_priority() {
    let mut backend = MockBackend::new();
    let cache = make_cache(&mut backend);
    let mut sched = BatchScheduler::new(64, 4096, 512, s(0.1));

    // Add and "prefill" a sequence, then give it a generated token.
    let _rx1 = make_request(&mut sched, 3);
    let _d = schedule(&mut sched, &cache); // prefills seq 0

    // Manually mark it as having a generated token (simulating sampling).
    let seq = sched.active.get_mut(&0).unwrap();
    seq.generated_tokens.push(42);

    // Add a new request.
    let _rx2 = make_request(&mut sched, 5);

    // Schedule: decode for seq 0 should come first, then prefill for seq 1.
    let decision = schedule(&mut sched, &cache);
    assert_eq!(decision.decodes.len(), 1);
    assert_eq!(decision.decodes[0].seq_id, 0);
    assert_eq!(decision.prefills.len(), 1);
    assert_eq!(decision.prefills[0].seq_id, 1);
    // Total: 1 decode + 5 prefill = 6
    assert_eq!(decision.total_tokens, 6);
}

#[test]
fn test_scheduler_max_batch_tokens_limit() {
    let mut backend = MockBackend::new();
    let cache = make_cache(&mut backend);
    // max_batch_tokens = 8
    let mut sched = BatchScheduler::new(64, 8, 512, s(0.1));

    // Two requests: 5 tokens + 5 tokens = 10 > 8
    // First admitted fully (5 tokens), second chunked to 3 (filling to 8).
    let _rx1 = make_request(&mut sched, 5);
    let _rx2 = make_request(&mut sched, 5);

    let decision = schedule(&mut sched, &cache);
    assert_eq!(decision.prefills.len(), 2);
    assert_eq!(decision.prefills[0].token_ids.len(), 5); // full first request
    assert_eq!(decision.prefills[1].token_ids.len(), 3); // chunked second request
    assert_eq!(decision.total_tokens, 8);
    assert_eq!(sched.num_pending(), 0); // both admitted (second partially)

    // Second request has 2 remaining tokens for next iteration
    let seq1 = sched.active.get(&1).unwrap();
    assert_eq!(seq1.remaining_prefill.len(), 2);
}

#[test]
fn test_scheduler_cleanup_on_max_tokens() {
    let mut backend = MockBackend::new();
    let _cache = make_cache(&mut backend);
    let mut sched = BatchScheduler::new(64, 4096, 512, s(0.1));

    let (tx, _rx) = mpsc::unbounded_channel();
    let seq_id = sched.next_seq_id();
    sched.active.insert(seq_id, ActiveSequence {
        seq_id,
        handle: CacheHandle(seq_id),
        max_tokens: 3,
        temperature: s(0.0),
        top_k: 0,
        top_p: s(1.0),
        seed: None,
        stop_tokens: vec![],
        current_pos: 5,
        generated_tokens: vec![1, 2, 3], // hit max_tokens
        event_tx: tx,
        remaining_prefill: Vec::new(),
    });

    let removed = sched.cleanup_completed();
    assert_eq!(removed.len(), 1);
    assert_eq!(removed[0].0, seq_id);
    assert_eq!(sched.num_active(), 0);
}

/// Verify that cleanup_completed() sends a GenerationEvent::Finished with
/// StopReason::Length when a sequence hits its max_tokens limit.
///
/// The previous test dropped `_rx` immediately, so the send was never
/// verified. This test retains the receiver and asserts the event is delivered.
#[test]
fn test_scheduler_cleanup_sends_length_event() {
    let mut sched = BatchScheduler::new(64, 4096, 512, s(0.1));

    let (tx, mut rx) = mpsc::unbounded_channel();
    let seq_id = sched.next_seq_id();
    sched.active.insert(seq_id, ActiveSequence {
        seq_id,
        handle: CacheHandle(seq_id),
        max_tokens: 3,
        temperature: s(0.0),
        top_k: 0,
        top_p: s(1.0),
        seed: None,
        stop_tokens: vec![],
        current_pos: 5,
        generated_tokens: vec![10, 20, 30], // exactly at max_tokens
        event_tx: tx,
        remaining_prefill: Vec::new(),
    });

    let removed = sched.cleanup_completed();
    assert_eq!(removed.len(), 1, "sequence should be removed");
    assert_eq!(sched.num_active(), 0);

    // The Finished event must have been sent to the client channel.
    let event = rx.try_recv().expect("expected GenerationEvent::Finished on rx");
    match event {
        GenerationEvent::Finished { stop_reason, completion_tokens } => {
            assert_eq!(stop_reason, StopReason::Length, "stop reason should be Length");
            assert_eq!(completion_tokens, 3, "completion_tokens should equal generated token count");
        }
        other => panic!("expected Finished event, got: {other:?}"),
    }
}

#[test]
fn test_scheduler_cleanup_on_stop_token() {
    let mut backend = MockBackend::new();
    let _cache = make_cache(&mut backend);
    let mut sched = BatchScheduler::new(64, 4096, 512, s(0.1));

    let (tx, mut rx) = mpsc::unbounded_channel();
    let seq_id = sched.next_seq_id();
    sched.active.insert(seq_id, ActiveSequence {
        seq_id,
        handle: CacheHandle(seq_id),
        max_tokens: 100,
        temperature: s(0.0),
        top_k: 0,
        top_p: s(1.0),
        seed: None,
        stop_tokens: vec![999],
        current_pos: 5,
        generated_tokens: vec![1, 2, 999], // stop token
        event_tx: tx,
        remaining_prefill: Vec::new(),
    });

    let removed = sched.cleanup_completed();
    assert_eq!(removed.len(), 1);

    // Should have sent Finished event.
    let event = rx.try_recv().unwrap();
    assert!(matches!(event, GenerationEvent::Finished { stop_reason: StopReason::Stop, .. }));
}

#[test]
fn test_scheduler_cleanup_on_disconnect() {
    let mut sched = BatchScheduler::new(64, 4096, 512, s(0.1));

    let (tx, rx) = mpsc::unbounded_channel();
    drop(rx); // simulate client disconnect

    let seq_id = sched.next_seq_id();
    sched.active.insert(seq_id, ActiveSequence {
        seq_id,
        handle: CacheHandle(seq_id),
        max_tokens: 100,
        temperature: s(0.0),
        top_k: 0,
        top_p: s(1.0),
        seed: None,
        stop_tokens: vec![],
        current_pos: 5,
        generated_tokens: vec![1],
        event_tx: tx,
        remaining_prefill: Vec::new(),
    });

    let removed = sched.cleanup_completed();
    assert_eq!(removed.len(), 1);
}

#[test]
fn test_admission_rejected_by_block_pool() {
    let mut backend = MockBackend::new();
    // 3 blocks × BLOCK_SIZE(16) = 48 tokens max capacity.
    let cache = PagedKvCacheManager::new(3, 2, 2, 16, &mut backend).unwrap();
    // block_pool_reserve = 0.5 → reserved = ceil(3 * 0.5) = 2 blocks.
    // Available after reserve = 3 - 2 = 1 block = 16 tokens.
    let mut sched = BatchScheduler::new(64, 4096, 512, s(0.5));

    // Prompt of 20 tokens → needs ceil(20/16) = 2 blocks > 1 available.
    let _rx = make_request(&mut sched, 20);

    let decision = schedule(&mut sched, &cache);
    assert!(decision.prefills.is_empty(), "should not admit when blocks insufficient after reserve");
    assert_eq!(decision.total_tokens, 0);
    // Request stays in the prefill queue.
    assert_eq!(sched.num_pending(), 1);
}

#[test]
fn test_block_pool_reserve_prevents_starvation() {
    let mut backend = MockBackend::new();
    // 6 blocks total; reserve = 0.5 → reserved = 3 blocks.
    let cache = PagedKvCacheManager::new(6, 2, 2, 16, &mut backend).unwrap();
    let mut sched = BatchScheduler::new(64, 4096, 512, s(0.5));

    // Insert an active decode sequence (already prefilled, has a generated token).
    let (tx1, _rx1) = mpsc::unbounded_channel();
    let seq_id = sched.next_seq_id();
    sched.active.insert(seq_id, ActiveSequence {
        seq_id,
        handle: CacheHandle(seq_id),
        max_tokens: 100,
        temperature: s(0.0),
        top_k: 0,
        top_p: s(1.0),
        seed: None,
        stop_tokens: vec![999],
        current_pos: 10,
        generated_tokens: vec![42],
        event_tx: tx1,
        remaining_prefill: Vec::new(),
    });

    // Enqueue a new prefill request needing ceil(48/16)=3 blocks.
    // Available after reserve: 6 free - 3 reserved = 3.
    // But 3 blocks needed == 3 available, so it should be admitted at this point.
    // Enqueue a bigger one: 64 tokens → needs 4 blocks > 3 available.
    let _rx2 = make_request(&mut sched, 64);

    let decision = schedule(&mut sched, &cache);
    // Active decode should still be scheduled.
    assert_eq!(decision.decodes.len(), 1, "active decode should still run");
    assert_eq!(decision.decodes[0].seq_id, seq_id);
    // New prefill should be blocked (needs 4 blocks, only 3 available after reserve).
    assert!(decision.prefills.is_empty(), "prefill should be blocked by reserve");
    assert_eq!(sched.num_pending(), 1);
}

#[test]
fn test_max_batch_size_limit() {
    let mut backend = MockBackend::new();
    let cache = make_cache(&mut backend);
    let mut sched = BatchScheduler::new(2, 4096, 512, s(0.1));

    // Admit 3 sequences via prefill, then move them to active decode state.
    let mut rxs = Vec::new();
    for _ in 0..3 {
        rxs.push(make_request(&mut sched, 3));
    }
    // First schedule admits up to max_batch_size=2 prefills.
    let d1 = schedule(&mut sched, &cache);
    assert_eq!(d1.prefills.len(), 2);
    assert_eq!(sched.num_pending(), 1);

    // Give the 2 admitted sequences generated tokens so they become decodes.
    for (_, seq) in sched.active.iter_mut() {
        seq.generated_tokens.push(42);
    }

    // Schedule again: 2 active decodes fill max_batch_size, third still pending.
    let d2 = schedule(&mut sched, &cache);
    assert!(d2.decodes.len() <= 2, "decodes should be capped at max_batch_size");
    assert_eq!(
        d2.decodes.len() + d2.prefills.len(),
        2,
        "total scheduled should not exceed max_batch_size"
    );
}

#[test]
fn test_cleanup_completed_frees_cache_blocks() {
    let mut backend = MockBackend::new();
    let mut cache = PagedKvCacheManager::new(10, 2, 2, 16, &mut backend).unwrap();
    let mut sched = BatchScheduler::new(64, 4096, 512, s(0.1));

    // Allocate a cache handle (takes 1 block from pool).
    let handle = cache.allocate().unwrap();
    let free_before = cache.num_free_blocks();

    // Insert an active sequence that has hit its stop token.
    let (tx, _rx) = mpsc::unbounded_channel();
    let seq_id = sched.next_seq_id();
    sched.active.insert(seq_id, ActiveSequence {
        seq_id,
        handle,
        max_tokens: 100,
        temperature: s(0.0),
        top_k: 0,
        top_p: s(1.0),
        seed: None,
        stop_tokens: vec![999],
        current_pos: 5,
        generated_tokens: vec![1, 2, 999], // stop token
        event_tx: tx,
        remaining_prefill: Vec::new(),
    });

    let removed = sched.cleanup_completed();
    assert_eq!(removed.len(), 1);
    assert_eq!(removed[0].0, seq_id);

    // Free the returned handle and verify blocks returned to pool.
    cache.free(removed[0].1).unwrap();
    let free_after = cache.num_free_blocks();
    assert!(free_after > free_before, "freeing handle should return blocks to pool");
}

fn active(id: u64, tokens: Vec<u32>, pos: usize) -> (ActiveSequence, mpsc::UnboundedReceiver<GenerationEvent>) {
    let (tx, rx) = mpsc::unbounded_channel();
    let seq = ActiveSequence {
        seq_id: id,
        handle: CacheHandle(100 + id),
        max_tokens: 10,
        temperature: s(0.0),
        top_k: 0,
        top_p: s(1.0),
        seed: None,
        stop_tokens: vec![999],
        current_pos: pos,
        generated_tokens: tokens,
        event_tx: tx,
        remaining_prefill: Vec::new(),
    };
    (seq, rx)
}

#[test]
fn plans_follow_the_given_order_and_skip_closed_clients() {
    let mut sched = BatchScheduler::new(64, 4096, 512, s(0.1));
    let mut keep = Vec::new();
    for id in 0..3 {
        let (seq, rx) = active(id, vec![40 + id as u32], 5 + id as usize);
        sched.active.insert(id, seq);
        keep.push(rx);
    }
    // 7 does not exist, and the client of 1 is gone.
    let d = sched.plan(&[2, 7, 1, 0], &[false, false, true, false], &[], 0, 0);
    let jobs: Vec<(u64, u32, u32, u64)> =
        d.decodes.iter().map(|j| (j.seq_id, j.token_id, j.position, j.handle.0)).collect();
    assert_eq!(jobs, vec![(2, 42, 7, 102), (0, 40, 5, 100)]);
    assert_eq!(d.total_tokens, 2);
}

#[test]
fn a_sequence_without_tokens_is_not_decoded() {
    let mut sched = BatchScheduler::new(64, 4096, 512, s(0.1));
    let (seq, _rx) = active(0, vec![], 25);
    sched.active.insert(0, seq);
    let d = sched.plan(&[0], &[false], &[], 0, 0);
    assert!(d.decodes.is_empty());
    assert!(d.prefills.is_empty());
    assert_eq!(d.total_tokens, 0);
    // It is decoded once it has a token.
    sched.active.get_mut(&0).unwrap().generated_tokens.push(7);
    let d = sched.plan(&[0], &[false], &[], 0, 0);
    assert_eq!(d.decodes[0].token_id, 7);
    assert_eq!(d.decodes[0].position, 25);
    assert_eq!(d.total_tokens, 1);
}

#[test]
fn chunks_share_the_prefill_limit_with_new_requests() {
    let mut sched = BatchScheduler::new(64, 4096, 10, s(0.1));
    let (mut seq, _rx) = active(9, vec![], 3);
    seq.remaining_prefill = vec![1, 2, 3, 4, 5, 6, 7];
    sched.active.insert(9, seq);
    let _rx1 = make_request(&mut sched, 5);
    let _rx2 = make_request(&mut sched, 5);
    let d = sched.plan(&[], &[], &[9], 100, 0);
    assert_eq!(d.prefills.len(), 2);
    assert_eq!(d.prefills[0].token_ids, vec![1, 2, 3, 4, 5, 6, 7]);
    assert_eq!(d.prefills[0].positions, vec![3, 4, 5, 6, 7, 8, 9]);
    assert_eq!(d.prefills[1].token_ids, vec![0, 1, 2]);
    assert_eq!(d.prefills[1].positions, vec![0, 1, 2]);
    assert_eq!(d.total_tokens, 10);
    assert_eq!(sched.num_pending(), 1);
    assert_eq!(sched.active.get(&0).unwrap().remaining_prefill, vec![3, 4]);
    assert_eq!(sched.active.get(&9).unwrap().current_pos, 10);
}

#[test]
fn positions_keep_their_low_bits() {
    let mut sched = BatchScheduler::new(64, 4096, 512, s(0.1));
    let (seq, _rx) = active(0, vec![1], 0x1_0000_0007);
    sched.active.insert(0, seq);
    let d = sched.plan(&[0], &[false], &[], 0, 0);
    assert_eq!(d.decodes[0].position, 7);
}

#[test]
fn the_reserve_can_exceed_what_is_free() {
    let mut sched = BatchScheduler::new(64, 4096, 512, s(0.1));
    let _rx = make_request(&mut sched, 1);
    assert!(sched.plan(&[], &[], &[], 3, 5).prefills.is_empty());
    assert_eq!(sched.num_pending(), 1);
    // An empty prompt needs no block.
    let mut sched = BatchScheduler::new(64, 4096, 512, s(0.1));
    let _rx = make_request(&mut sched, 0);
    assert_eq!(sched.plan(&[], &[], &[], 3, 5).prefills.len(), 1);
}

#[test]
fn running_sequences_stay() {
    let mut sched = BatchScheduler::new(64, 4096, 512, s(0.1));
    let (a, _rx_a) = active(0, vec![1, 2], 5);
    let (b, rx_b) = active(1, vec![1, 2], 5);
    let (c, mut rx_c) = active(2, vec![1, 999], 5);
    sched.active.insert(0, a);
    sched.active.insert(1, b);
    sched.active.insert(2, c);
    drop(rx_b);
    let mut removed = sched.cleanup_completed();
    removed.sort_by_key(|r| r.0);
    assert_eq!(removed, vec![(1, CacheHandle(101)), (2, CacheHandle(102))]);
    assert_eq!(sched.num_active(), 1);
    match rx_c.try_recv().unwrap() {
        GenerationEvent::Finished { stop_reason, completion_tokens } => {
            assert_eq!(stop_reason, StopReason::Stop);
            assert_eq!(completion_tokens, 2);
        }
        other => panic!("unexpected event: {other:?}"),
    }
    assert!(rx_c.try_recv().is_err());
}

#[test]
fn the_limit_counts_before_the_stop_token() {
    let (mut seq, _rx) = active(0, vec![5, 999], 2);
    seq.max_tokens = 2;
    assert!(matches!(
        seq.finished_event(),
        Some(GenerationEvent::Finished { stop_reason: StopReason::Length, completion_tokens: 2 })
    ));
    seq.max_tokens = 3;
    assert!(matches!(
        seq.finished_event(),
        Some(GenerationEvent::Finished { stop_reason: StopReason::Stop, .. })
    ));
    seq.generated_tokens.push(6);
    seq.max_tokens = 4;
    assert!(seq.finished_event().is_none());
}

#[test]
fn what_leaves_is_given_in_order() {
    let mut sched = BatchScheduler::new(64, 4096, 512, s(0.1));
    let mut keep = Vec::new();
    for (id, tokens) in [(0, vec![1]), (1, vec![999]), (2, vec![3])] {
        let (seq, rx) = active(id, tokens, 5);
        sched.active.insert(id, seq);
        keep.push(rx);
    }
    // 1 has ended, the client of 2 is gone, and 7 does not exist.
    let gone = sched.remove_completed(&[2, 7, 1, 0], &[true, true, false, false]);
    assert_eq!(gone, vec![(2, CacheHandle(102)), (1, CacheHandle(101))]);
    assert_eq!(sched.num_active(), 1);
    assert!(sched.active.contains_key(&0));
}

#[test]
fn clients_of_ended_sequences_are_told() {
    let mut sched = BatchScheduler::new(64, 4096, 512, s(0.1));
    let mut keep = Vec::new();
    for (id, tokens) in [(0, vec![1]), (1, vec![5, 999]), (2, vec![3; 10])] {
        let (seq, rx) = active(id, tokens, 5);
        sched.active.insert(id, seq);
        keep.push(rx);
    }
    // 0 goes on, and 7 does not exist.
    let told = sched.finished_notices(&[2, 7, 0, 1]);
    assert_eq!(told.len(), 2);
    assert_eq!(told[0].0, 2);
    assert!(matches!(
        told[0].1,
        GenerationEvent::Finished { stop_reason: StopReason::Length, completion_tokens: 10 }
    ));
    assert_eq!(told[1].0, 1);
    assert!(matches!(
        told[1].1,
        GenerationEvent::Finished { stop_reason: StopReason::Stop, completion_tokens: 2 }
    ));
}

#[test]
fn batches_lose_no_prompt_token() {
    let mut sched = BatchScheduler::new(64, 4096, 6, s(0.1));
    let (mut seq, _rx) = active(9, vec![], 2);
    seq.remaining_prefill = vec![11, 12, 13, 14];
    sched.active.insert(9, seq);
    let _rx1 = make_request(&mut sched, 5);
    let d = sched.plan(&[], &[], &[9], 100, 0);
    let jobs = |id: u64| -> Vec<u32> {
        d.prefills.iter().filter(|j| j.seq_id == id).flat_map(|j| j.token_ids.clone()).collect()
    };
    let left = |id: u64| sched.active.get(&id).unwrap().remaining_prefill.clone();
    assert_eq!([jobs(9), left(9)].concat(), vec![11, 12, 13, 14]);
    assert_eq!([jobs(0), left(0)].concat(), vec![0, 1, 2, 3, 4]);
    assert_eq!(sched.active.get(&9).unwrap().current_pos, 6);
    assert_eq!(sched.active.get(&0).unwrap().current_pos, 2);
}

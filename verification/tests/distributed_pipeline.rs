//! The distributed pipeline, driven against simulated workers.
use fracture::base::error::FractureError;
use fracture::base::numeric::Single;
use fracture::coordinator::pipeline::{
    AllocStep, BatchedStep, DistributedPipeline, ForwardStep, FreeStep,
};
use fracture::coordinator::wire::{
    BatchedOutputWire, ForwardInputWire, ForwardOutputWire, TensorWireHeader, WorkerReply,
};
use fracture::coordinator::worker::{LayerAssignment, NodeRole};

fn s(x: f32) -> Single {
    Single::from_bits(x.to_bits())
}

const HIDDEN: usize = 4096;
const VOCAB: usize = 128256;

/// How a simulated worker behaves.
#[derive(Clone, Copy, PartialEq)]
enum Kind {
    /// Gives activations of this width, or logits if it is the tail.
    Normal { tail: bool, width: usize },
    /// Answers a batch as if it were a single sequence.
    Fallback { tail: bool },
    /// Reports an error in a forward pass.
    Faulty,
    /// Refuses to allocate.
    Full,
    /// Answers a forward pass with a heartbeat.
    Confused,
    /// Is not registered.
    Missing,
}

/// Simulated workers, by name, and what they were asked.
struct Net {
    workers: Vec<(String, Kind)>,
    events: Vec<(String, &'static str, u64)>,
}

fn bytes_of(first: usize, n: usize) -> Vec<u8> {
    (first..first + n).flat_map(|i| (i as f32).to_le_bytes()).collect()
}

fn activations(tokens: usize, width: usize) -> ForwardOutputWire {
    ForwardOutputWire::Activations {
        tensor_header: TensorWireHeader {
            ndim: 2,
            shape: vec![tokens as u32, width as u32],
            dtype: 0,
            compression: 0,
            data_len: (tokens * width * 2) as u32,
        },
        tensor_data: vec![0u8; tokens * width * 2],
    }
}

fn failed<T>(message: &str) -> WorkerReply<T> {
    WorkerReply::Failed { message: message.into(), code: "Internal".into() }
}

impl Net {
    fn new(workers: &[(&str, Kind)]) -> Net {
        Net {
            workers: workers.iter().map(|(n, k)| (n.to_string(), *k)).collect(),
            events: Vec::new(),
        }
    }

    fn kind(&self, id: &str) -> Kind {
        match self.workers.iter().find(|(n, _)| n == id) {
            Some((_, k)) => *k,
            None => Kind::Missing,
        }
    }

    fn allocate(&mut self, id: &str, seq: u64) -> WorkerReply<()> {
        if self.kind(id) == Kind::Missing {
            return WorkerReply::Missing;
        }
        self.events.push((id.into(), "CacheAlloc", seq));
        if self.kind(id) == Kind::Full {
            return WorkerReply::Failed {
                message: "GPU OOM during cache allocation".into(),
                code: "OutOfMemory".into(),
            };
        }
        WorkerReply::Answer(())
    }

    fn free(&mut self, id: &str, seq: u64) -> WorkerReply<()> {
        if self.kind(id) == Kind::Missing {
            return WorkerReply::Missing;
        }
        self.events.push((id.into(), "CacheFree", seq));
        WorkerReply::Answer(())
    }

    fn forward(&mut self, id: &str, _input: &ForwardInputWire) -> WorkerReply<ForwardOutputWire> {
        match self.kind(id) {
            Kind::Normal { tail: true, .. } | Kind::Fallback { tail: true } => {
                WorkerReply::Answer(ForwardOutputWire::Logits { data: bytes_of(0, VOCAB) })
            }
            Kind::Normal { tail: false, width } => WorkerReply::Answer(activations(1, width)),
            Kind::Fallback { tail: false } => WorkerReply::Answer(activations(1, HIDDEN)),
            Kind::Faulty => failed("GPU OOM during forward pass"),
            Kind::Confused => WorkerReply::Unexpected { got: "Heartbeat".into() },
            Kind::Full | Kind::Missing => WorkerReply::Missing,
        }
    }

    fn batched(&mut self, id: &str, n: usize) -> WorkerReply<BatchedOutputWire> {
        match self.kind(id) {
            Kind::Normal { tail: true, .. } => WorkerReply::Answer(BatchedOutputWire {
                output: ForwardOutputWire::Logits { data: bytes_of(0, n * VOCAB) },
                logit_offsets: Some((0..n).map(|i| i * VOCAB * 4).collect()),
            }),
            Kind::Normal { tail: false, width } => WorkerReply::Answer(BatchedOutputWire {
                output: activations(4, width),
                logit_offsets: Some(Vec::new()),
            }),
            Kind::Fallback { tail: true } => WorkerReply::Answer(BatchedOutputWire {
                output: ForwardOutputWire::Logits { data: bytes_of(0, n * VOCAB) },
                logit_offsets: None,
            }),
            Kind::Fallback { tail: false } => WorkerReply::Answer(BatchedOutputWire {
                output: activations(3, HIDDEN),
                logit_offsets: None,
            }),
            _ => failed("batched forward failed: GPU error"),
        }
    }
}

fn alloc_cache(p: &mut DistributedPipeline, net: &mut Net, seq: u64) -> Result<(), FractureError> {
    let mut step = p.alloc_begin(seq)?;
    loop {
        match step {
            AllocStep::Ask(i) => {
                let id = p.pipeline_order()[i].clone();
                let reply = net.allocate(&id, seq);
                step = p.alloc_step(seq, i, reply);
            }
            AllocStep::Done => return Ok(()),
            AllocStep::RollBack { allocated, error } => {
                for id in p.pipeline_order()[..allocated].to_vec() {
                    net.free(&id, seq);
                }
                return Err(error);
            }
        }
    }
}

fn free_cache(p: &mut DistributedPipeline, net: &mut Net, seq: u64) -> Result<(), FractureError> {
    let mut step = p.free_begin(seq)?;
    loop {
        match step {
            FreeStep::Ask(i) => {
                let id = p.pipeline_order()[i].clone();
                let reply = net.free(&id, seq);
                step = p.free_step(i, reply);
            }
            FreeStep::Done => return Ok(()),
            FreeStep::Failed(e) => return Err(e),
        }
    }
}

fn forward(
    p: &DistributedPipeline,
    net: &mut Net,
    seq: u64,
    tokens: &[u32],
) -> Result<Vec<f32>, FractureError> {
    let mut step = p.forward_begin(seq, tokens);
    loop {
        match step {
            ForwardStep::Ask { node, input } => {
                let id = p.pipeline_order()[node].clone();
                step = p.forward_step(node, net.forward(&id, &input));
            }
            ForwardStep::Logits(l) => {
                return Ok(l.iter().map(|x| f32::from_bits(x.to_bits())).collect());
            }
            ForwardStep::Failed(e) => return Err(e),
        }
    }
}

fn batched_forward(
    p: &DistributedPipeline,
    net: &mut Net,
    seqs: &[u64],
    tokens: &[u32],
) -> Result<Vec<Vec<f32>>, FractureError> {
    let mut step = p.batched_begin(seqs, tokens);
    loop {
        match step {
            BatchedStep::Ask { node, .. } => {
                let id = p.pipeline_order()[node].clone();
                step = p.batched_step(node, seqs.len(), net.batched(&id, seqs.len()));
            }
            BatchedStep::Logits(l) => {
                return Ok(l
                    .iter()
                    .map(|v| v.iter().map(|x| f32::from_bits(x.to_bits())).collect())
                    .collect());
            }
            BatchedStep::Failed(e) => return Err(e),
        }
    }
}

const MIDDLE: Kind = Kind::Normal { tail: false, width: HIDDEN };
const TAIL: Kind = Kind::Normal { tail: true, width: HIDDEN };

/// A pipeline over simulated workers, with 32 layers in equal parts.
fn setup(workers: &[(&str, Kind)]) -> (DistributedPipeline, Net) {
    let n = workers.len();
    let assignments: Vec<LayerAssignment> = workers
        .iter()
        .enumerate()
        .map(|(i, (id, _))| assignment(id, 32 * i / n, 32 * (i + 1) / n, NodeRole::Head))
        .collect();
    (DistributedPipeline::new(&assignments, HIDDEN).unwrap(), Net::new(workers))
}

fn setup_two_node_pipeline() -> (DistributedPipeline, Net) {
    setup(&[("head", MIDDLE), ("tail", TAIL)])
}

fn setup_single_node_pipeline() -> (DistributedPipeline, Net) {
    setup(&[("solo", TAIL)])
}

fn assignment(id: &str, start: usize, end: usize, role: NodeRole) -> LayerAssignment {
    LayerAssignment {
        node_id: id.into(),
        layer_range: start..end,
        role,
        expected_decode_ms: s(10.0),
        weight_memory_gb: s(5.0),
        cache_memory_gb: s(1.0),
    }
}

#[test]
fn test_pipeline_creation() {
    let assignments = vec![
        assignment("head", 0, 16, NodeRole::Head),
        assignment("tail", 16, 32, NodeRole::Tail),
    ];
    let pipeline = DistributedPipeline::new(&assignments, 4096).unwrap();
    assert_eq!(pipeline.pipeline_order(), &["head", "tail"]);
}

#[test]
fn test_pipeline_three_nodes() {
    let assignments = vec![
        assignment("a", 0, 10, NodeRole::Head),
        assignment("b", 10, 20, NodeRole::Middle),
        assignment("c", 20, 32, NodeRole::Tail),
    ];
    let pipeline = DistributedPipeline::new(&assignments, 4096).unwrap();
    assert_eq!(pipeline.pipeline_order(), &["a", "b", "c"]);
}

#[test]
fn test_pipeline_empty() {
    assert!(DistributedPipeline::new(&[], 4096).is_err());
}

#[test]
fn test_pipeline_non_contiguous() {
    let assignments = vec![
        assignment("a", 0, 10, NodeRole::Head),
        assignment("b", 15, 32, NodeRole::Tail), // gap at 10..15
    ];
    assert!(DistributedPipeline::new(&assignments, 4096).is_err());
}

#[test]
fn test_pipeline_single_worker() {
    let assignments = vec![assignment("solo", 0, 32, NodeRole::Head)];
    let pipeline = DistributedPipeline::new(&assignments, 4096).unwrap();
    assert_eq!(pipeline.pipeline_order(), &["solo"]);
    assert_eq!(pipeline.total_layers(), 32);
}

#[test]
fn test_pipeline_layer_coverage_validation() {
    // Valid: full contiguous coverage
    let assignments = vec![
        assignment("a", 0, 16, NodeRole::Head),
        assignment("b", 16, 32, NodeRole::Tail),
    ];
    let pipeline = DistributedPipeline::new(&assignments, 4096).unwrap();
    assert_eq!(pipeline.total_layers(), 32);

    // Invalid: gap between ranges
    let gap = vec![
        assignment("a", 0, 10, NodeRole::Head),
        assignment("b", 12, 32, NodeRole::Tail),
    ];
    let err = DistributedPipeline::new(&gap, 4096).err().unwrap().to_string();
    assert!(err.contains("non-contiguous"), "expected contiguity error: {err}");

    // Invalid: doesn't start at 0
    let no_zero = vec![assignment("a", 5, 32, NodeRole::Head)];
    let err = DistributedPipeline::new(&no_zero, 4096).err().unwrap().to_string();
    assert!(err.contains("non-contiguous") || err.contains("expected start 0"), "expected start-at-0 error: {err}");

    // Invalid: empty range
    let empty = vec![assignment("a", 0, 0, NodeRole::Head)];
    let err = DistributedPipeline::new(&empty, 4096).err().unwrap().to_string();
    assert!(err.contains("empty layer range"), "expected empty range error: {err}");
}

#[test]
fn test_two_node_forward_returns_logits() {
    let (mut pipeline, mut net) = setup_two_node_pipeline();
    let seq_id = 1;
    alloc_cache(&mut pipeline, &mut net, seq_id).unwrap();

    let logits = forward(&pipeline, &mut net, seq_id, &[128000, 791, 1401]).unwrap();

    // Mock tail returns logits[i] = i as f32
    assert_eq!(logits.len(), 128256);
    assert!((logits[0] - 0.0).abs() < 1e-6);
    assert!((logits[1] - 1.0).abs() < 1e-6);
    assert!((logits[100] - 100.0).abs() < 1e-6);

    free_cache(&mut pipeline, &mut net, seq_id).unwrap();
}

#[test]
fn test_two_node_multi_step_decode() {
    let (mut pipeline, mut net) = setup_two_node_pipeline();
    let seq_id = 42;
    alloc_cache(&mut pipeline, &mut net, seq_id).unwrap();

    let logits = forward(&pipeline, &mut net, seq_id, &[1, 2, 3]).unwrap();
    assert_eq!(logits.len(), 128256);

    // 10 decode steps
    for _ in 0..10u32 {
        let logits = forward(&pipeline, &mut net, seq_id, &[42]).unwrap();
        assert_eq!(logits.len(), 128256);
        // Verify logits are deterministic (same mock returns same data)
        assert!((logits[42] - 42.0).abs() < 1e-6);
    }
    free_cache(&mut pipeline, &mut net, seq_id).unwrap();
}

#[test]
fn test_cache_alloc_and_free() {
    let (mut pipeline, mut net) = setup_two_node_pipeline();

    // Allocate and free multiple sequences
    for seq_id in 1..=5 {
        alloc_cache(&mut pipeline, &mut net, seq_id).unwrap();
    }
    for seq_id in 1..=5 {
        free_cache(&mut pipeline, &mut net, seq_id).unwrap();
    }
}

#[test]
fn test_three_node_pipeline() {
    let (mut pipeline, mut net) = setup(&[("head", MIDDLE), ("middle", MIDDLE), ("tail", TAIL)]);
    alloc_cache(&mut pipeline, &mut net, 1).unwrap();
    let logits = forward(&pipeline, &mut net, 1, &[1, 2, 3]).unwrap();
    assert_eq!(logits.len(), 128256);
    assert!((logits[0] - 0.0).abs() < 1e-6);
    assert!((logits[1000] - 1000.0).abs() < 1e-6);
    let logits = forward(&pipeline, &mut net, 1, &[42]).unwrap();
    assert_eq!(logits.len(), 128256);
}

#[test]
fn test_worker_error_propagates() {
    let (mut pipeline, mut net) = setup(&[("err-worker", Kind::Faulty)]);
    alloc_cache(&mut pipeline, &mut net, 1).unwrap();

    let result = forward(&pipeline, &mut net, 1, &[1, 2]);
    assert!(result.is_err());
    let err_msg = result.unwrap_err().to_string();
    assert!(err_msg.contains("GPU OOM"), "error should contain OOM: {err_msg}");
}

#[test]
fn test_non_tail_returning_logits_is_error() {
    // Head returns logits (wrong)
    let (mut pipeline, mut net) = setup(&[("head", TAIL), ("tail", TAIL)]);
    alloc_cache(&mut pipeline, &mut net, 1).unwrap();

    let result = forward(&pipeline, &mut net, 1, &[1]);
    assert!(result.is_err());
    assert!(result.unwrap_err().to_string().contains("non-tail"));
}

#[test]
fn test_tail_returning_activations_is_error() {
    // Tail returns activations (wrong)
    let (mut pipeline, mut net) = setup(&[("tail", MIDDLE)]);
    alloc_cache(&mut pipeline, &mut net, 1).unwrap();

    let result = forward(&pipeline, &mut net, 1, &[1]);
    assert!(result.is_err());
    assert!(result.unwrap_err().to_string().contains("tail"));
}

#[test]
fn test_pipeline_unexpected_message_type_is_error() {
    let (mut pipeline, mut net) = setup(&[("bad", Kind::Confused)]);
    alloc_cache(&mut pipeline, &mut net, 1).unwrap();

    let result = forward(&pipeline, &mut net, 1, &[1]);
    assert!(result.is_err());
    let err_msg = result.unwrap_err().to_string();
    assert!(
        err_msg.contains("expected ForwardResult") || err_msg.contains("Heartbeat"),
        "error should mention unexpected message type: {err_msg}"
    );
}

#[test]
fn test_activation_shape_mismatch_detected() {
    // Head worker returns activations with hidden_size=8192, but pipeline expects 4096
    let (mut pipeline, mut net) =
        setup(&[("head", Kind::Normal { tail: false, width: 8192 }), ("tail", TAIL)]);
    alloc_cache(&mut pipeline, &mut net, 1).unwrap();

    let result = forward(&pipeline, &mut net, 1, &[1]);
    assert!(result.is_err());
    let err_msg = result.unwrap_err().to_string();
    assert!(
        err_msg.contains("hidden_size") || err_msg.contains("8192"),
        "error should mention shape mismatch: {err_msg}"
    );
}

#[test]
fn test_alloc_cache_unknown_worker_is_error() {
    // Pipeline references "missing" which isn't registered
    let (mut pipeline, mut net) = setup(&[("present", TAIL), ("missing", Kind::Missing)]);
    let result = alloc_cache(&mut pipeline, &mut net, 1);
    assert!(result.is_err());
    assert!(result.unwrap_err().to_string().contains("missing"));
}

#[test]
fn test_free_cache_unknown_worker_is_error() {
    let (mut pipeline, mut net) = setup(&[("present", TAIL), ("ghost", Kind::Missing)]);
    // free_cache for a never-allocated seq_id returns "not allocated" error
    let result = free_cache(&mut pipeline, &mut net, 1);
    assert!(result.is_err());
    assert!(result.unwrap_err().to_string().contains("not allocated"));
}

#[test]
fn test_forward_unknown_worker_is_error() {
    let (pipeline, mut net) = setup(&[("exists", TAIL), ("vanished", Kind::Missing)]);
    // Forward without alloc_cache now fails with cache-not-allocated error
    let result = forward(&pipeline, &mut net, 1, &[1]);
    assert!(result.is_err(), "should fail when cache is not allocated");
    assert!(result.unwrap_err().to_string().contains("cache not allocated"));
}

#[test]
fn test_single_worker_forward_returns_logits() {
    let (mut pipeline, mut net) = setup_single_node_pipeline();
    let seq_id = 1;
    alloc_cache(&mut pipeline, &mut net, seq_id).unwrap();

    // Prefill
    let logits = forward(&pipeline, &mut net, seq_id, &[128000, 791, 1401]).unwrap();
    assert_eq!(logits.len(), 128256);
    assert!((logits[0] - 0.0).abs() < 1e-6);
    assert!((logits[42] - 42.0).abs() < 1e-6);

    // Decode step
    let logits = forward(&pipeline, &mut net, seq_id, &[42]).unwrap();
    assert_eq!(logits.len(), 128256);

    free_cache(&mut pipeline, &mut net, seq_id).unwrap();
}

#[test]
fn test_forward_without_cache_is_error() {
    let (pipeline, mut net) = setup_single_node_pipeline();

    // Forward without alloc_cache
    let result = forward(&pipeline, &mut net, 99, &[1, 2]);
    assert!(result.is_err());
    let err_msg = result.unwrap_err().to_string();
    assert!(
        err_msg.contains("cache not allocated"),
        "expected cache-not-allocated error: {err_msg}"
    );
}

#[test]
fn test_duplicate_cache_alloc_is_error() {
    let (mut pipeline, mut net) = setup_single_node_pipeline();
    let seq_id = 10;

    // First alloc succeeds
    alloc_cache(&mut pipeline, &mut net, seq_id).unwrap();

    // Second alloc for same seq_id fails
    let result = alloc_cache(&mut pipeline, &mut net, seq_id);
    assert!(result.is_err());
    let err_msg = result.unwrap_err().to_string();
    assert!(
        err_msg.contains("duplicate") || err_msg.contains("already allocated"),
        "expected duplicate-alloc error: {err_msg}"
    );

    // Cleanup
    free_cache(&mut pipeline, &mut net, seq_id).unwrap();
}

#[test]
fn test_free_unknown_sequence_is_error() {
    let (mut pipeline, mut net) = setup_single_node_pipeline();

    // Free a seq_id that was never allocated
    let result = free_cache(&mut pipeline, &mut net, 999);
    assert!(result.is_err());
    let err_msg = result.unwrap_err().to_string();
    assert!(
        err_msg.contains("not allocated") || err_msg.contains("already freed"),
        "expected not-allocated error: {err_msg}"
    );
}

#[test]
fn test_double_free_is_error() {
    let (mut pipeline, mut net) = setup_single_node_pipeline();
    let seq_id = 20;

    alloc_cache(&mut pipeline, &mut net, seq_id).unwrap();
    free_cache(&mut pipeline, &mut net, seq_id).unwrap();

    // Second free fails
    let result = free_cache(&mut pipeline, &mut net, seq_id);
    assert!(result.is_err());
    let err_msg = result.unwrap_err().to_string();
    assert!(
        err_msg.contains("not allocated") || err_msg.contains("already freed"),
        "expected already-freed error: {err_msg}"
    );
}

#[test]
fn test_cache_reuse_after_free() {
    let (mut pipeline, mut net) = setup_single_node_pipeline();
    let seq_id = 30;

    // Alloc, use, free
    alloc_cache(&mut pipeline, &mut net, seq_id).unwrap();
    let logits = forward(&pipeline, &mut net, seq_id, &[1]).unwrap();
    assert_eq!(logits.len(), 128256);
    free_cache(&mut pipeline, &mut net, seq_id).unwrap();

    // Re-alloc same seq_id succeeds
    alloc_cache(&mut pipeline, &mut net, seq_id).unwrap();
    let logits = forward(&pipeline, &mut net, seq_id, &[2]).unwrap();
    assert_eq!(logits.len(), 128256);
    free_cache(&mut pipeline, &mut net, seq_id).unwrap();
}

#[test]
fn test_multiple_sequence_isolation() {
    let (mut pipeline, mut net) = setup_single_node_pipeline();
    let seq_a = 100;
    let seq_b = 200;

    // Allocate both sequences
    alloc_cache(&mut pipeline, &mut net, seq_a).unwrap();
    alloc_cache(&mut pipeline, &mut net, seq_b).unwrap();

    let logits_a = forward(&pipeline, &mut net, seq_a, &[1, 2, 3]).unwrap();
    assert_eq!(logits_a.len(), 128256);
    let logits_b = forward(&pipeline, &mut net, seq_b, &[10, 20]).unwrap();
    assert_eq!(logits_b.len(), 128256);

    // Interleaved decode steps
    let logits_a2 = forward(&pipeline, &mut net, seq_a, &[4]).unwrap();
    assert_eq!(logits_a2.len(), 128256);
    let logits_b2 = forward(&pipeline, &mut net, seq_b, &[30]).unwrap();
    assert_eq!(logits_b2.len(), 128256);

    // Free A, B should still work
    free_cache(&mut pipeline, &mut net, seq_a).unwrap();
    let logits_b3 = forward(&pipeline, &mut net, seq_b, &[40]).unwrap();
    assert_eq!(logits_b3.len(), 128256);

    // A is freed, forward should fail
    let result = forward(&pipeline, &mut net, seq_a, &[5]);
    assert!(result.is_err());

    free_cache(&mut pipeline, &mut net, seq_b).unwrap();
}

#[test]
fn test_partial_cache_alloc_rollback() {
    let (mut pipeline, mut net) = setup(&[("head", MIDDLE), ("tail", Kind::Full)]);
    let seq_id = 42;

    // alloc_cache should fail because the tail worker returns OOM
    let result = alloc_cache(&mut pipeline, &mut net, seq_id);
    assert!(result.is_err());
    let err_msg = result.unwrap_err().to_string();
    assert!(
        err_msg.contains("GPU OOM") || err_msg.contains("OutOfMemory"),
        "expected OOM error: {err_msg}"
    );

    // Verify the sequence was NOT marked as allocated
    assert!(
        !pipeline.is_allocated(seq_id),
        "seq should not be marked allocated after partial failure"
    );

    // Verify events: head received CacheAlloc, then CacheFree (rollback)
    let events: Vec<_> = net.events.iter().filter(|e| e.0 == "head").collect();
    assert_eq!(events.len(), 2, "expected 2 events (alloc + rollback free), got: {events:?}");
    assert_eq!((events[0].1, events[0].2), ("CacheAlloc", seq_id));
    assert_eq!((events[1].1, events[1].2), ("CacheFree", seq_id));
}

#[test]
fn test_partial_cache_alloc_rollback_three_nodes() {
    let (mut pipeline, mut net) =
        setup(&[("head", MIDDLE), ("mid", MIDDLE), ("tail", Kind::Full)]);
    let seq_id = 77;

    let result = alloc_cache(&mut pipeline, &mut net, seq_id);
    assert!(result.is_err());
    assert!(!pipeline.is_allocated(seq_id));

    // Both head and mid should have received CacheAlloc then CacheFree (rollback).
    for id in ["head", "mid"] {
        let events: Vec<_> = net.events.iter().filter(|e| e.0 == id).collect();
        assert_eq!(events.len(), 2, "{id}: expected alloc+free, got: {events:?}");
        assert_eq!(events[0].1, "CacheAlloc");
        assert_eq!(events[1].1, "CacheFree");
    }
}

#[test]
fn test_batched_forward_two_nodes_returns_per_sequence_logits() {
    let (mut pipeline, mut net) = setup_two_node_pipeline();
    let seq1 = 100;
    let seq2 = 101;
    alloc_cache(&mut pipeline, &mut net, seq1).unwrap();
    alloc_cache(&mut pipeline, &mut net, seq2).unwrap();

    let all_token_ids = vec![128000, 791, 1401, 42]; // 3 tokens seq1, 1 token seq2
    let per_seq_logits =
        batched_forward(&pipeline, &mut net, &[seq1, seq2], &all_token_ids).unwrap();

    assert_eq!(per_seq_logits.len(), 2, "should get logits for 2 sequences");
    let vocab_size = 128256;
    assert_eq!(per_seq_logits[0].len(), vocab_size, "seq 0 should have vocab_size logits");
    assert_eq!(per_seq_logits[1].len(), vocab_size, "seq 1 should have vocab_size logits");

    // seq 0, logit j → j as f32
    assert_eq!(per_seq_logits[0][0], 0.0);
    assert_eq!(per_seq_logits[0][1], 1.0);

    // seq 1, logit j → (vocab_size + j) as f32
    assert_eq!(per_seq_logits[1][0], vocab_size as f32);
    assert_eq!(per_seq_logits[1][1], (vocab_size + 1) as f32);

    free_cache(&mut pipeline, &mut net, seq1).unwrap();
    free_cache(&mut pipeline, &mut net, seq2).unwrap();
}

#[test]
fn distributed_pipeline_test_batched_forward_single_sequence() {
    let (mut pipeline, mut net) = setup_two_node_pipeline();
    let seq_id = 200;
    alloc_cache(&mut pipeline, &mut net, seq_id).unwrap();
    let per_seq_logits =
        batched_forward(&pipeline, &mut net, &[seq_id], &[1, 2, 3, 4, 5]).unwrap();
    assert_eq!(per_seq_logits.len(), 1);
    assert_eq!(per_seq_logits[0].len(), 128256);
    free_cache(&mut pipeline, &mut net, seq_id).unwrap();
}

#[test]
fn test_batched_forward_without_cache_is_error() {
    let (pipeline, mut net) = setup_two_node_pipeline();
    let result = batched_forward(&pipeline, &mut net, &[999], &[1]);
    assert!(result.is_err());
    assert!(
        result.unwrap_err().to_string().contains("cache not allocated"),
        "should mention missing cache"
    );
}

#[test]
fn test_batched_forward_single_node_pipeline() {
    let (mut pipeline, mut net) = setup_single_node_pipeline();
    let seq_id = 1;
    alloc_cache(&mut pipeline, &mut net, seq_id).unwrap();
    let per_seq_logits = batched_forward(&pipeline, &mut net, &[seq_id], &[1, 2]).unwrap();
    assert_eq!(per_seq_logits.len(), 1);
    assert_eq!(per_seq_logits[0].len(), 128256);
    free_cache(&mut pipeline, &mut net, seq_id).unwrap();
}

#[test]
fn test_batched_forward_three_node_pipeline() {
    let workers = [("head", MIDDLE), ("mid", MIDDLE), ("tail", TAIL)];
    let assignments = vec![
        assignment("head", 0, 10, NodeRole::Head),
        assignment("mid", 10, 20, NodeRole::Middle),
        assignment("tail", 20, 32, NodeRole::Tail),
    ];
    let mut pipeline = DistributedPipeline::new(&assignments, HIDDEN).unwrap();
    let mut net = Net::new(&workers);
    let seq1 = 10;
    let seq2 = 11;
    alloc_cache(&mut pipeline, &mut net, seq1).unwrap();
    alloc_cache(&mut pipeline, &mut net, seq2).unwrap();

    let per_seq_logits = batched_forward(&pipeline, &mut net, &[seq1, seq2], &[1, 2, 3]).unwrap();

    assert_eq!(per_seq_logits.len(), 2);
    assert_eq!(per_seq_logits[0].len(), 128256);
    assert_eq!(per_seq_logits[1].len(), 128256);

    free_cache(&mut pipeline, &mut net, seq1).unwrap();
    free_cache(&mut pipeline, &mut net, seq2).unwrap();
}

#[test]
fn test_batched_forward_fallback_to_forward_result() {
    let (mut pipeline, mut net) = setup(&[
        ("head", Kind::Fallback { tail: false }),
        ("tail", Kind::Fallback { tail: true }),
    ]);
    let seq1 = 50;
    let seq2 = 51;
    alloc_cache(&mut pipeline, &mut net, seq1).unwrap();
    alloc_cache(&mut pipeline, &mut net, seq2).unwrap();

    // Workers answer as for a single sequence; each sequence has an equal part.
    let per_seq_logits = batched_forward(&pipeline, &mut net, &[seq1, seq2], &[1, 2, 3]).unwrap();
    assert_eq!(per_seq_logits.len(), 2);
    assert_eq!(per_seq_logits[0].len(), 128256);
    assert_eq!(per_seq_logits[1].len(), 128256);
    assert_eq!(per_seq_logits[1][0], 128256.0);
}

#[test]
fn test_batched_forward_worker_error_propagates() {
    let (mut pipeline, mut net) = setup(&[("head", Kind::Faulty)]);
    let seq_id = 1;
    alloc_cache(&mut pipeline, &mut net, seq_id).unwrap();
    let result = batched_forward(&pipeline, &mut net, &[seq_id], &[1]);
    assert!(result.is_err());
    let err_msg = result.unwrap_err().to_string();
    assert!(
        err_msg.contains("GPU error"),
        "error should propagate worker's message: {err_msg}"
    );
    free_cache(&mut pipeline, &mut net, seq_id).unwrap();
}

#[test]
fn test_abort_all_sequences_frees_caches() {
    let (mut pipeline, mut net) = setup_two_node_pipeline();

    // Allocate caches for 3 sequences
    alloc_cache(&mut pipeline, &mut net, 1).unwrap();
    alloc_cache(&mut pipeline, &mut net, 2).unwrap();
    alloc_cache(&mut pipeline, &mut net, 3).unwrap();

    assert!(pipeline.is_allocated(1));
    assert!(pipeline.is_allocated(2));
    assert!(pipeline.is_allocated(3));

    // Abort all
    let aborted = pipeline.abort_all_sequences();
    assert_eq!(aborted.len(), 3);
    assert!(aborted.contains(&1));
    assert!(aborted.contains(&2));
    assert!(aborted.contains(&3));

    // All freed
    assert!(!pipeline.is_allocated(1));
    assert!(!pipeline.is_allocated(2));
    assert!(!pipeline.is_allocated(3));
}

#[test]
fn errors_are_worded() {
    let (mut pipeline, mut net) = setup(&[("a", MIDDLE), ("b", Kind::Missing)]);
    let err = alloc_cache(&mut pipeline, &mut net, 1).unwrap_err();
    assert_eq!(err.to_string(), "pipeline error: worker 'b' not found in registry");
    assert_eq!(
        net.events,
        vec![("a".to_string(), "CacheAlloc", 1), ("a".to_string(), "CacheFree", 1)]
    );
    let (mut pipeline, mut net) = setup(&[("a", Kind::Full)]);
    let err = alloc_cache(&mut pipeline, &mut net, 1).unwrap_err();
    assert_eq!(
        err.to_string(),
        "pipeline error: worker 'a' failed CacheAlloc: GPU OOM during cache allocation (code OutOfMemory)"
    );
    let step = pipeline.alloc_step(1, 0, WorkerReply::Unexpected { got: "Pong".into() });
    match step {
        AllocStep::RollBack { allocated, error } => {
            assert_eq!(allocated, 0);
            assert_eq!(
                error.to_string(),
                "protocol error: expected CacheAllocAck from 'a', got Pong"
            );
        }
        other => panic!("unexpected step: {other:?}"),
    }
    let broken = FractureError::Protocol("cut off".into());
    match pipeline.forward_step(0, WorkerReply::Broken(broken)) {
        ForwardStep::Failed(e) => assert_eq!(e.to_string(), "protocol error: cut off"),
        other => panic!("unexpected step: {other:?}"),
    }
}

#[test]
fn freeing_stops_at_a_missing_worker() {
    let (mut pipeline, mut net) = setup(&[("a", MIDDLE), ("b", TAIL)]);
    alloc_cache(&mut pipeline, &mut net, 1).unwrap();
    net.workers[1].1 = Kind::Missing;
    let err = free_cache(&mut pipeline, &mut net, 1).unwrap_err();
    assert_eq!(err.to_string(), "pipeline error: worker 'b' not found in registry");
    // The sequence is gone all the same.
    assert!(!pipeline.is_allocated(1));
}

#[test]
fn an_empty_pipeline_has_nobody_to_ask() {
    let mut pipeline = DistributedPipeline::empty(HIDDEN);
    assert!(matches!(pipeline.alloc_begin(1), Ok(AllocStep::Done)));
    assert!(pipeline.is_allocated(1));
    match pipeline.forward_begin(1, &[1]) {
        ForwardStep::Failed(e) => assert_eq!(
            e.to_string(),
            "pipeline error: pipeline completed without producing logits"
        ),
        other => panic!("unexpected step: {other:?}"),
    }
    assert!(matches!(pipeline.free_begin(1), Ok(FreeStep::Done)));
}

#[test]
fn bad_logit_offsets_are_refused() {
    let (pipeline, _) = setup_single_node_pipeline();
    for offsets in [vec![0], vec![4, 0], vec![0, 9]] {
        let reply = WorkerReply::Answer(BatchedOutputWire {
            output: ForwardOutputWire::Logits { data: vec![0; 8] },
            logit_offsets: Some(offsets),
        });
        match pipeline.batched_step(0, 2, reply) {
            BatchedStep::Failed(e) => assert_eq!(
                e.to_string(),
                "pipeline error: worker 'solo' returned bad logit offsets"
            ),
            other => panic!("unexpected step: {other:?}"),
        }
    }
}

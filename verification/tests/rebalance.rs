//! Rebalancing.
use fracture::base::model_config::ModelConfig;
use fracture::base::numeric::{Double, Single};
use fracture::coordinator::pipeline::DistributedPipeline;
use fracture::coordinator::rebalance::{
    reassign, rebalance_input, rebalanced, reconfigured, PendingGracefulRebalance, RebalanceResult,
};
use fracture::coordinator::registry::{PeerRegistry, WorkerStatus};
use fracture::coordinator::scheduler::{build_result, schedule, NodeFigures, SchedulingMode};
use fracture::coordinator::worker::{LayerAssignment, NodeRole, WorkerCapabilities};
use std::sync::Arc;

fn s(x: f32) -> Single {
    Single::from_bits(x.to_bits())
}

fn d(x: f64) -> Double {
    Double::from_bits(x.to_bits())
}

#[test]
fn test_rebalance_result_has_pipeline_and_assignments() {
    let pipeline = Arc::new(DistributedPipeline::empty(4096));
    let result = RebalanceResult {
        pipeline,
        assignments: vec![],
    };
    assert!(result.assignments.is_empty());
    assert!(result.pipeline.pipeline_order().is_empty());
}

fn test_config() -> ModelConfig {
    ModelConfig {
        hidden_size: 4096,
        num_layers: 32,
        num_q_heads: 32,
        num_kv_heads: 8,
        head_dim: 128,
        intermediate_size: 14336,
        vocab_size: 128256,
        rope_theta: d(500000.0),
        rms_norm_eps: d(1e-5),
        max_seq_len: 8192,
    }
}

#[test]
fn test_graceful_rebalance_ready_when_no_active_sequences() {
    let pending = PendingGracefulRebalance::new(
        test_config(),
        SchedulingMode::EqualSplit,
        4096,
        vec![],
    );
    assert!(!pending.is_ready(5));
    assert!(!pending.is_ready(1));
    assert!(pending.is_ready(0));
}

#[test]
fn test_graceful_rebalance_cancel() {
    let mut pending = PendingGracefulRebalance::new(
        test_config(),
        SchedulingMode::EqualSplit,
        4096,
        vec![],
    );
    assert!(pending.is_ready(0));
    pending.cancel();
    assert!(pending.is_cancelled());
    assert!(!pending.is_ready(0));
}

fn worker(id: &str) -> WorkerCapabilities {
    WorkerCapabilities {
        node_id: id.into(),
        gpu_model: "Test GPU".into(),
        gpu_memory_available: 24_000_000_000,
        compute_capability: (8, 0),
        decode_ms_per_layer: s(1.0),
        prefill_ms_per_layer_128: s(3.0),
    }
}

fn part(id: &str, start: usize, end: usize) -> LayerAssignment {
    LayerAssignment {
        node_id: id.into(),
        layer_range: start..end,
        role: NodeRole::Head,
        expected_decode_ms: s(16.0),
        weight_memory_gb: s(6.0),
        cache_memory_gb: s(1.0),
    }
}

#[test]
fn test_forced_rebalance_excludes_dead_worker() {
    let mut registry = PeerRegistry::<()>::new();
    for id in ["w0", "w1", "w2"] {
        registry.register(worker(id), (), 0).unwrap();
    }
    // Mark middle worker (w1) as dead
    registry.mark_dead("w1");

    // Forced rebalance excluding dead worker
    let input = rebalance_input(
        &registry.all_capabilities(),
        &test_config(),
        SchedulingMode::EqualSplit,
        4096,
        &["w1".to_string()],
    )
    .unwrap();
    let plan = schedule(&input, &[]).unwrap();
    let figures = vec![
        NodeFigures {
            decode_ms: s(16.0),
            weight_memory_gb: s(6.0),
            cache_memory_gb: s(1.0),
        };
        plan.workers.len()
    ];
    let built = build_result(plan, &figures, s(18.0), s(1.0));
    for a in &built.assignments {
        let ack = reassign(&mut registry, a, &test_config(), 4096).unwrap();
        assert_eq!(ack.total_layers, 32);
        assert_eq!((ack.layer_end - ack.layer_start) as usize, a.layer_range.len());
    }
    let result = rebalanced(built.assignments, 4096).unwrap();

    // Pipeline should have 2 stages (w0, w2), covering all 32 layers
    assert_eq!(result.pipeline.pipeline_order().len(), 2);
    assert_eq!(result.assignments.len(), 2);

    // Verify all layers are covered
    let total_layers: usize = result.assignments.iter().map(|a| a.layer_range.len()).sum();
    assert_eq!(total_layers, 32);

    // Verify w1 is not in assignments
    assert!(result.assignments.iter().all(|a| a.node_id != "w1"));
}

#[test]
fn without_workers_there_is_no_rebalance() {
    let err = rebalance_input(
        &vec![worker("a"), worker("b")],
        &test_config(),
        SchedulingMode::EqualSplit,
        4096,
        &["b".to_string(), "a".to_string()],
    )
    .unwrap_err();
    assert_eq!(
        err.to_string(),
        "pipeline error: forced rebalance: no workers available after exclusions"
    );
}

#[test]
fn rebalances_reckon_with_two_ms_per_hop() {
    let input = rebalance_input(
        &vec![worker("a"), worker("b"), worker("c")],
        &test_config(),
        SchedulingMode::Auto,
        4096,
        &["b".to_string()],
    )
    .unwrap();
    assert_eq!(f32::from_bits(input.hop_latency_ms.to_bits()), 2.0);
    let ids: Vec<&str> = input.workers.iter().map(|w| w.node_id.as_str()).collect();
    assert_eq!(ids, vec!["a", "c"]);
    assert!(input.coordinator_compute.is_none());
}

#[test]
fn a_dead_worker_cannot_be_reassigned() {
    let mut registry = PeerRegistry::<()>::new();
    registry.register(worker("w"), (), 0).unwrap();
    registry.mark_dead("w");
    let err = reassign(&mut registry, &part("w", 0, 32), &test_config(), 4096).unwrap_err();
    assert_eq!(
        err.to_string(),
        "pipeline error: forced rebalance: assign 'w' failed: protocol error: cannot assign layers to dead worker 'w'"
    );
}

#[test]
fn gaps_are_found_at_the_end() {
    let err = rebalanced(vec![part("a", 0, 10), part("b", 12, 32)], 4096)
        .err()
        .unwrap();
    assert!(err.to_string().contains("non-contiguous"));
}

#[test]
fn a_worker_that_cannot_be_told_is_given_up() {
    let mut registry = PeerRegistry::<()>::new();
    registry.register(worker("a"), (), 0).unwrap();
    registry.register(worker("b"), (), 0).unwrap();
    reconfigured(&mut registry, "a", true);
    reconfigured(&mut registry, "b", false);
    reconfigured(&mut registry, "nobody", false);
    assert_eq!(registry.get("a").unwrap().status, WorkerStatus::Connected);
    assert_eq!(registry.get("b").unwrap().status, WorkerStatus::Dead);
    assert_eq!(registry.active_count(), 1);
}

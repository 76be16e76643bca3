//! The peer registry.
use fracture::base::numeric::Single;
use fracture::coordinator::registry::{PeerRegistry, WorkerStatus};
use fracture::coordinator::worker::{LayerAssignment, NodeRole, WorkerCapabilities};

fn s(x: f32) -> Single {
    Single::from_bits(x.to_bits())
}

fn f(x: Single) -> f32 {
    f32::from_bits(x.to_bits())
}

fn two_nodes() -> PeerRegistry<()> {
    let mut registry = PeerRegistry::new();
    registry.register(test_caps("head"), (), 0).unwrap();
    registry.register(test_caps("tail"), (), 0).unwrap();
    let part = |id: &str, start: usize, end: usize, role: NodeRole| LayerAssignment {
        node_id: id.into(),
        layer_range: start..end,
        role,
        expected_decode_ms: s(16.0),
        weight_memory_gb: s(6.0),
        cache_memory_gb: s(1.0),
    };
    registry.assign("head", part("head", 0, 16, NodeRole::Head)).unwrap();
    registry.assign("tail", part("tail", 16, 32, NodeRole::Tail)).unwrap();
    registry
}

fn test_caps(id: &str) -> WorkerCapabilities {
    WorkerCapabilities {
        node_id: id.into(),
        gpu_model: "Test".into(),
        gpu_memory_available: 24_000_000_000,
        compute_capability: (8, 0),
        decode_ms_per_layer: s(1.0),
        prefill_ms_per_layer_128: s(3.0),
    }
}

#[test]
fn test_register_and_get() {
    let mut reg = PeerRegistry::<()>::new();
    let conn = ();
    reg.register(test_caps("w1"), conn, 0).unwrap();

    assert_eq!(reg.active_count(), 1);
    let entry = reg.get("w1").unwrap();
    assert_eq!(entry.status, WorkerStatus::Connected);
}

#[test]
fn test_duplicate_register_fails() {
    let mut reg = PeerRegistry::<()>::new();
    reg.register(test_caps("w1"), (), 0).unwrap();
    assert!(reg.register(test_caps("w1"), (), 0).is_err());
}

#[test]
fn test_dead_worker_can_reregister() {
    let mut reg = PeerRegistry::<()>::new();
    reg.register(test_caps("w1"), (), 0).unwrap();
    reg.mark_dead("w1");
    assert!(reg.register(test_caps("w1"), (), 0).is_ok());
}

#[test]
fn test_assign_and_pipeline_order() {
    let mut reg = PeerRegistry::<()>::new();
    reg.register(test_caps("b"), (), 0).unwrap();
    reg.register(test_caps("a"), (), 0).unwrap();

    reg.assign(
        "a",
        LayerAssignment {
            node_id: "a".into(),
            layer_range: 0..16,
            role: NodeRole::Head,
            expected_decode_ms: s(16.0),
            weight_memory_gb: s(6.0),
            cache_memory_gb: s(1.0),
        },
    )
    .unwrap();
    reg.assign(
        "b",
        LayerAssignment {
            node_id: "b".into(),
            layer_range: 16..32,
            role: NodeRole::Tail,
            expected_decode_ms: s(16.0),
            weight_memory_gb: s(6.0),
            cache_memory_gb: s(1.0),
        },
    )
    .unwrap();

    let order = reg.pipeline_order();
    assert_eq!(order, vec!["a", "b"]);
}

#[test]
fn test_reader_handles_returns_ready_workers() {
    let mut reg = PeerRegistry::<()>::new();
    reg.register(test_caps("w1"), (), 0).unwrap();
    reg.register(test_caps("w2"), (), 0).unwrap();

    // No workers are Ready yet (only Connected), so no reader handles.
    assert!(reg.reader_handles().is_empty());

    reg.assign(
        "w1",
        LayerAssignment {
            node_id: "w1".into(),
            layer_range: 0..16,
            role: NodeRole::Head,
            expected_decode_ms: s(16.0),
            weight_memory_gb: s(6.0),
            cache_memory_gb: s(1.0),
        },
    )
    .unwrap();

    let handles = reg.reader_handles();
    assert_eq!(handles.len(), 1);
    assert_eq!(handles[0].0, "w1");
}

#[test]
fn test_mark_dead_sets_status() {
    let mut reg = PeerRegistry::<()>::new();
    reg.register(test_caps("w1"), (), 0).unwrap();
    reg.mark_dead("w1");
    assert_eq!(reg.get("w1").unwrap().status, WorkerStatus::Dead);
}

#[test]
fn test_mark_dead_excludes_from_pipeline_order() {
    let mut reg = PeerRegistry::<()>::new();
    reg.register(test_caps("w1"), (), 0).unwrap();
    reg.register(test_caps("w2"), (), 0).unwrap();

    let assign = |id: &str, start: usize, end: usize| LayerAssignment {
        node_id: id.into(),
        layer_range: start..end,
        role: if start == 0 { NodeRole::Head } else { NodeRole::Tail },
        expected_decode_ms: s(16.0),
        weight_memory_gb: s(6.0),
        cache_memory_gb: s(1.0),
    };
    reg.assign("w1", assign("w1", 0, 16)).unwrap();
    reg.assign("w2", assign("w2", 16, 32)).unwrap();

    assert_eq!(reg.pipeline_order().len(), 2);

    reg.mark_dead("w1");
    let order = reg.pipeline_order();
    assert_eq!(order.len(), 1);
    assert_eq!(order[0], "w2");
}

#[test]
fn test_mark_dead_excludes_from_active_count() {
    let mut reg = PeerRegistry::<()>::new();
    reg.register(test_caps("w1"), (), 0).unwrap();
    assert_eq!(reg.active_count(), 1);

    reg.mark_dead("w1");
    assert_eq!(reg.active_count(), 0);
}

#[test]
fn test_assign_dead_worker_rejected() {
    let mut reg = PeerRegistry::<()>::new();
    reg.register(test_caps("w1"), (), 0).unwrap();
    reg.mark_dead("w1");

    let result = reg.assign(
        "w1",
        LayerAssignment {
            node_id: "w1".into(),
            layer_range: 0..32,
            role: NodeRole::Head,
            expected_decode_ms: s(32.0),
            weight_memory_gb: s(12.0),
            cache_memory_gb: s(2.0),
        },
    );
    assert!(result.is_err());
    assert!(result.unwrap_err().to_string().contains("dead"));
}

#[test]
fn test_lookup_returns_error_for_unknown() {
    let reg = PeerRegistry::<()>::new();
    assert!(reg.lookup("nonexistent").is_err());
}

#[test]
fn test_lookup_returns_entry() {
    let mut reg = PeerRegistry::<()>::new();
    reg.register(test_caps("w1"), (), 0).unwrap();
    let entry = reg.lookup("w1").unwrap();
    assert_eq!(entry.status, WorkerStatus::Connected);
}

/// Verify that lookup() returns an entry whose capabilities match what was
/// passed to register().
#[test]
fn test_lookup_returns_capabilities() {
    let mut reg = PeerRegistry::<()>::new();
    let caps = WorkerCapabilities {
        node_id: "gpu-node-7".into(),
        gpu_model: "NVIDIA A100".into(),
        gpu_memory_available: 80_000_000_000,
        compute_capability: (8, 0),
        decode_ms_per_layer: s(0.5),
        prefill_ms_per_layer_128: s(2.0),
    };
    reg.register(caps.clone(), (), 0).unwrap();

    let entry = reg.lookup("gpu-node-7").unwrap();
    assert_eq!(entry.capabilities.node_id, "gpu-node-7");
    assert_eq!(entry.capabilities.gpu_model, "NVIDIA A100");
    assert_eq!(entry.capabilities.gpu_memory_available, 80_000_000_000);
    assert_eq!(entry.capabilities.compute_capability, (8, 0));
    assert!((f(entry.capabilities.decode_ms_per_layer) - 0.5).abs() < 1e-6);
    assert!((f(entry.capabilities.prefill_ms_per_layer_128) - 2.0).abs() < 1e-6);
}

/// Verify that all_capabilities() excludes workers marked dead.
#[test]
fn test_all_capabilities_filters_dead() {
    let mut reg = PeerRegistry::<()>::new();
    reg.register(test_caps("w1"), (), 0).unwrap();
    reg.register(test_caps("w2"), (), 0).unwrap();
    reg.register(test_caps("w3"), (), 0).unwrap();

    // Mark w2 as dead — it should be excluded from all_capabilities().
    reg.mark_dead("w2");

    let caps = reg.all_capabilities();
    assert_eq!(caps.len(), 2, "dead worker w2 should be excluded");

    let ids: Vec<&str> = caps.iter().map(|c| c.node_id.as_str()).collect();
    assert!(ids.contains(&"w1"), "w1 should be present");
    assert!(ids.contains(&"w3"), "w3 should be present");
    assert!(!ids.contains(&"w2"), "dead w2 should be absent");
}

/// Verify that the duplicate-register error message contains the node_id so
/// operators can identify which worker caused the conflict.
#[test]
fn test_duplicate_register_error_context() {
    let mut reg = PeerRegistry::<()>::new();
    let node_id = "conflicting-worker-42";
    reg.register(test_caps(node_id), (), 0).unwrap();

    let err = reg
        .register(test_caps(node_id), (), 0)
        .unwrap_err();
    let msg = err.to_string();
    assert!(
        msg.contains(node_id),
        "duplicate-register error should mention the node_id '{node_id}', got: {msg}"
    );
}

#[test]
fn test_layer_reassignment_overwrites() {
    let mut reg = PeerRegistry::<()>::new();
    reg.register(test_caps("w1"), (), 0).unwrap();

    // First assignment
    reg.assign(
        "w1",
        LayerAssignment {
            node_id: "w1".into(),
            layer_range: 0..16,
            role: NodeRole::Head,
            expected_decode_ms: s(16.0),
            weight_memory_gb: s(6.0),
            cache_memory_gb: s(1.0),
        },
    )
    .unwrap();
    assert_eq!(reg.get("w1").unwrap().assignment.as_ref().unwrap().layer_range, 0..16);

    // Reassignment overwrites
    reg.assign(
        "w1",
        LayerAssignment {
            node_id: "w1".into(),
            layer_range: 0..32,
            role: NodeRole::Head,
            expected_decode_ms: s(32.0),
            weight_memory_gb: s(12.0),
            cache_memory_gb: s(2.0),
        },
    )
    .unwrap();
    assert_eq!(reg.get("w1").unwrap().assignment.as_ref().unwrap().layer_range, 0..32);
    assert_eq!(reg.get("w1").unwrap().status, WorkerStatus::Ready);
}

#[test]
fn test_record_heartbeat_updates_stats() {
    let mut reg = PeerRegistry::<()>::new();
    reg.register(test_caps("w1"), (), 0).unwrap();
    reg.assign(
        "w1",
        LayerAssignment {
            node_id: "w1".into(), layer_range: 0..32, role: NodeRole::Head,
            expected_decode_ms: s(32.0), weight_memory_gb: s(12.0), cache_memory_gb: s(2.0),
        },
    ).unwrap();

    // Record heartbeat and verify stats are stored
    reg.record_heartbeat("w1", 100, 4_000_000_000, 1);
    assert_eq!(reg.get("w1").unwrap().free_blocks, 100);
    assert_eq!(reg.get("w1").unwrap().gpu_memory_used, 4_000_000_000);
}

#[test]
fn test_min_free_blocks_empty() {
    let reg = PeerRegistry::<()>::new();
    assert_eq!(reg.min_free_blocks(), 0);
}

#[test]
fn test_min_free_blocks_single_worker() {
    let mut reg = PeerRegistry::<()>::new();
    reg.register(test_caps("w1"), (), 0).unwrap();
    let assign = |id: &str, start: usize, end: usize| LayerAssignment {
        node_id: id.into(),
        layer_range: start..end,
        role: if start == 0 { NodeRole::Head } else { NodeRole::Tail },
        expected_decode_ms: s(16.0),
        weight_memory_gb: s(6.0),
        cache_memory_gb: s(1.0),
    };
    reg.assign("w1", assign("w1", 0, 32)).unwrap();
    reg.record_heartbeat("w1", 50, 0, 1);
    assert_eq!(reg.min_free_blocks(), 50);
}

#[test]
fn test_min_free_blocks_bottleneck() {
    let mut reg = PeerRegistry::<()>::new();
    reg.register(test_caps("w1"), (), 0).unwrap();
    reg.register(test_caps("w2"), (), 0).unwrap();

    let assign = |id: &str, start: usize, end: usize| LayerAssignment {
        node_id: id.into(),
        layer_range: start..end,
        role: if start == 0 { NodeRole::Head } else { NodeRole::Tail },
        expected_decode_ms: s(16.0),
        weight_memory_gb: s(6.0),
        cache_memory_gb: s(1.0),
    };
    reg.assign("w1", assign("w1", 0, 16)).unwrap();
    reg.assign("w2", assign("w2", 16, 32)).unwrap();

    reg.record_heartbeat("w1", 200, 0, 1);
    reg.record_heartbeat("w2", 75, 0, 1);

    // Bottleneck is w2 with 75 free blocks
    assert_eq!(reg.min_free_blocks(), 75);
}

#[test]
fn test_min_free_blocks_excludes_dead_workers() {
    let mut reg = PeerRegistry::<()>::new();
    reg.register(test_caps("w1"), (), 0).unwrap();
    reg.register(test_caps("w2"), (), 0).unwrap();

    let assign = |id: &str, start: usize, end: usize| LayerAssignment {
        node_id: id.into(),
        layer_range: start..end,
        role: if start == 0 { NodeRole::Head } else { NodeRole::Tail },
        expected_decode_ms: s(16.0),
        weight_memory_gb: s(6.0),
        cache_memory_gb: s(1.0),
    };
    reg.assign("w1", assign("w1", 0, 16)).unwrap();
    reg.assign("w2", assign("w2", 16, 32)).unwrap();

    reg.record_heartbeat("w1", 200, 0, 1);
    reg.record_heartbeat("w2", 10, 0, 1);

    // Mark the bottleneck as dead — should be excluded
    reg.mark_dead("w2");
    assert_eq!(reg.min_free_blocks(), 200);
}

#[test]
fn test_pipeline_order_excludes_dead_workers() {
    let mut registry = two_nodes();

    // Initially both in pipeline order
    let order = registry.pipeline_order();
    assert_eq!(order.len(), 2);

    // Kill head
    registry.mark_dead("head");
    let order = registry.pipeline_order();
    assert_eq!(order.len(), 1);
    assert_eq!(order[0], "tail");
}

#[test]
fn test_draining_worker_excluded_from_pipeline_order() {
    let mut registry = two_nodes();

    // Both workers in pipeline
    assert_eq!(registry.pipeline_order().len(), 2);

    // Mark head as draining
    registry.mark_draining("head");

    // Draining worker excluded from pipeline order
    let order = registry.pipeline_order();
    assert_eq!(order.len(), 1);
    assert_eq!(order[0], "tail");

    // But still in all_capabilities (for rescheduling)
    let caps = registry.all_capabilities();
    assert_eq!(caps.len(), 2);
}

#[test]
fn test_pending_worker_in_capabilities_not_pipeline() {
    let mut registry = two_nodes();

    // Mark head as pending (simulating a new join before rebalance)
    registry.mark_pending("head");

    // Pending worker NOT in pipeline order
    let order = registry.pipeline_order();
    assert_eq!(order.len(), 1);
    assert_eq!(order[0], "tail");

    // But IS in all_capabilities (scheduler can assign it layers)
    let caps = registry.all_capabilities();
    assert_eq!(caps.len(), 2);

    // pending_workers returns it
    let pending = registry.pending_workers();
    assert_eq!(pending.len(), 1);
    assert_eq!(pending[0], "head");
}

#[test]
fn dead_workers_do_not_drain_or_wait() {
    let mut registry = two_nodes();
    registry.mark_dead("head");
    registry.mark_draining("head");
    assert_eq!(registry.get("head").unwrap().status, WorkerStatus::Dead);
    registry.mark_pending("head");
    assert_eq!(registry.get("head").unwrap().status, WorkerStatus::Dead);
    assert!(registry.pending_workers().is_empty());
    // Nobody to mark.
    registry.mark_draining("nobody");
    assert!(registry.get("nobody").is_none());
}

#[test]
fn silent_workers_time_out() {
    let mut registry = two_nodes();
    registry.record_heartbeat("head", 0, 0, 1_000);
    registry.record_heartbeat("tail", 0, 0, 16_000);
    assert!(registry.check_heartbeats(16_000, 15_000).is_empty());
    assert_eq!(registry.check_heartbeats(16_001, 15_000), vec!["head"]);
    registry.mark_dead("head");
    assert!(registry.check_heartbeats(16_001, 15_000).is_empty());
    // A clock that went back times nobody out.
    assert!(registry.check_heartbeats(0, 0).is_empty());
}

#[test]
fn entries_can_be_changed_in_place() {
    let mut registry = two_nodes();
    registry.get_mut("head").unwrap().free_blocks = 7;
    assert!(registry.get_mut("nobody").is_none());
    assert_eq!(registry.get("head").unwrap().free_blocks, 7);
    assert_eq!(registry.get("tail").unwrap().free_blocks, 0);
    let all: Vec<&str> = registry.iter().iter().map(|(id, _)| id.as_str()).collect();
    assert_eq!(all, vec!["head", "tail"]);
}

#[test]
fn reregistering_forgets_the_old_state() {
    let mut registry = two_nodes();
    registry.record_heartbeat("head", 9, 9, 9);
    registry.mark_dead("head");
    registry.register(test_caps("head"), (), 5).unwrap();
    let entry = registry.get("head").unwrap();
    assert_eq!(entry.status, WorkerStatus::Connected);
    assert!(entry.assignment.is_none());
    assert_eq!(entry.free_blocks, 0);
    assert_eq!(entry.last_heartbeat, 5);
}

#[test]
fn lookup_errors_name_the_worker() {
    let mut registry = two_nodes();
    let assignment = registry.get("head").unwrap().assignment.clone().unwrap();
    let err = registry.assign("nobody", assignment).unwrap_err();
    assert_eq!(err.to_string(), "protocol error: worker 'nobody' not found");
}

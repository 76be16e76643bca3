//! Heartbeats.
use fracture::base::numeric::Single;
use fracture::coordinator::heartbeat::{
    mark_dead_workers, plan_heartbeats, HeartbeatAckPayload, HeartbeatTracker, DEFAULT_INTERVAL,
    DEFAULT_MAX_MISSED,
};
use fracture::coordinator::registry::{PeerRegistry, WorkerStatus};
use fracture::coordinator::worker::{LayerAssignment, NodeRole, WorkerCapabilities};
use std::time::Duration;

fn s(x: f32) -> Single {
    Single::from_bits(x.to_bits())
}

fn test_caps(id: &str) -> WorkerCapabilities {
    WorkerCapabilities {
        node_id: id.into(),
        gpu_model: "Test".into(),
        gpu_memory_available: 24_000_000_000,
        compute_capability: (8, 0),
        decode_ms_per_layer: s(1.0),
        prefill_ms_per_layer_128: s(3.0),
    }
}

fn test_assignment(id: &str) -> LayerAssignment {
    LayerAssignment {
        node_id: id.into(),
        layer_range: 0..32,
        role: NodeRole::Head,
        expected_decode_ms: s(32.0),
        weight_memory_gb: s(12.0),
        cache_memory_gb: s(2.0),
    }
}

fn make_ack(nonce: u64) -> HeartbeatAckPayload {
    HeartbeatAckPayload {
        timestamp_echo: 0,
        nonce_echo: nonce,
        gpu_memory_used: 0,
        active_sequences: 0,
        free_blocks: 0,
    }
}

fn setup_registry_with_worker(id: &str) -> PeerRegistry<()> {
    let mut reg = PeerRegistry::new();
    reg.register(test_caps(id), (), 0).unwrap();
    reg.assign(id, test_assignment(id)).unwrap();
    reg
}

#[test]
fn test_valid_ack_resets_counter() {
    let mut reg = setup_registry_with_worker("w1");
    let mut tracker = HeartbeatTracker::new();

    // Simulate a heartbeat round
    tracker.set_pending_nonce(42);

    // Increment missed (simulating one missed round)
    tracker.increment_missed(&["w1".into()], 3);
    assert_eq!(tracker.missed_count("w1"), 1);

    // Valid ack resets counter
    let ack = make_ack(42);
    assert!(tracker.process_ack(&mut reg, "w1", &ack, 7));
    assert_eq!(tracker.missed_count("w1"), 0);
}

#[test]
fn test_mismatched_nonce_rejected() {
    let mut reg = setup_registry_with_worker("w1");
    let mut tracker = HeartbeatTracker::new();

    tracker.set_pending_nonce(42);
    tracker.increment_missed(&["w1".into()], 3);
    assert_eq!(tracker.missed_count("w1"), 1);

    // Wrong nonce — should NOT reset counter
    let ack = make_ack(999);
    assert!(!tracker.process_ack(&mut reg, "w1", &ack, 7));
    // Counter should still be 1 (not reset)
    assert_eq!(tracker.missed_count("w1"), 1);
}

#[test]
fn test_no_pending_nonce_rejected() {
    let mut reg = setup_registry_with_worker("w1");
    let mut tracker = HeartbeatTracker::new();

    // No heartbeat was sent (no pending nonce)
    let ack = make_ack(42);
    assert!(!tracker.process_ack(&mut reg, "w1", &ack, 7));
}

#[test]
fn test_dead_worker_ack_ignored() {
    let mut reg = setup_registry_with_worker("w1");
    let mut tracker = HeartbeatTracker::new();

    tracker.set_pending_nonce(42);

    // Mark worker as dead
    reg.mark_dead("w1");

    // Even with matching nonce, dead worker is ignored
    let ack = make_ack(42);
    assert!(!tracker.process_ack(&mut reg, "w1", &ack, 7));
}

#[test]
fn test_dead_worker_does_not_revive() {
    let mut reg = setup_registry_with_worker("w1");
    let mut tracker = HeartbeatTracker::new();

    tracker.set_pending_nonce(42);
    reg.mark_dead("w1");

    // Attempt ack
    let ack = make_ack(42);
    tracker.process_ack(&mut reg, "w1", &ack, 7);

    // Worker should still be Dead
    assert_eq!(reg.get("w1").unwrap().status, WorkerStatus::Dead);
}

#[test]
fn test_unknown_worker_ack_rejected() {
    let mut reg = PeerRegistry::<()>::new();
    let mut tracker = HeartbeatTracker::new();

    tracker.set_pending_nonce(42);
    let ack = make_ack(42);
    assert!(!tracker.process_ack(&mut reg, "nonexistent", &ack, 7));
}

#[test]
fn test_increment_missed_tracks_correctly() {
    let mut tracker = HeartbeatTracker::new();

    // Two rounds of missed heartbeats
    let timed_out = tracker.increment_missed(&["w1".into()], 3);
    assert!(timed_out.is_empty());
    assert_eq!(tracker.missed_count("w1"), 1);

    let timed_out = tracker.increment_missed(&["w1".into()], 3);
    assert!(timed_out.is_empty());
    assert_eq!(tracker.missed_count("w1"), 2);

    // Third miss exceeds threshold
    let timed_out = tracker.increment_missed(&["w1".into()], 3);
    assert_eq!(timed_out, vec!["w1"]);
    assert_eq!(tracker.missed_count("w1"), 3);
}

#[test]
fn test_valid_ack_then_miss_then_ack() {
    let mut reg = setup_registry_with_worker("w1");
    let mut tracker = HeartbeatTracker::new();

    // Round 1: heartbeat sent, valid ack
    tracker.set_pending_nonce(100);
    assert!(tracker.process_ack(&mut reg, "w1", &make_ack(100), 7));
    assert_eq!(tracker.missed_count("w1"), 0);

    // Round 2: heartbeat sent, no ack (miss)
    tracker.set_pending_nonce(200);
    tracker.increment_missed(&["w1".into()], 3);
    assert_eq!(tracker.missed_count("w1"), 1);

    // Round 3: heartbeat sent, valid ack — counter resets
    tracker.set_pending_nonce(300);
    assert!(tracker.process_ack(&mut reg, "w1", &make_ack(300), 7));
    assert_eq!(tracker.missed_count("w1"), 0);
}

#[test]
fn test_default_constants() {
    assert_eq!(Duration::from_secs(DEFAULT_INTERVAL), Duration::from_secs(5));
    assert_eq!(DEFAULT_MAX_MISSED, 3);
}

#[test]
fn test_tracker_default() {
    let tracker = HeartbeatTracker::default();
    assert_eq!(tracker.pending_nonce(), None);
    assert_eq!(tracker.missed_count("any"), 0);
}

#[test]
fn test_heartbeat_constants() {
    assert_eq!(Duration::from_secs(DEFAULT_INTERVAL), std::time::Duration::from_secs(5));
    assert_eq!(DEFAULT_MAX_MISSED, 3);
    // 3 missed × 5s = 15s failure detection
    assert_eq!(
        Duration::from_secs(DEFAULT_INTERVAL) * DEFAULT_MAX_MISSED as u32,
        std::time::Duration::from_secs(15)
    );
}

#[test]
fn test_mark_dead_workers_transitions_status() {
    let mut registry = setup_registry_with_worker("doomed");
    assert_eq!(registry.get("doomed").unwrap().status, WorkerStatus::Ready);

    mark_dead_workers(&mut registry, &["doomed".to_string()]);

    assert_eq!(registry.get("doomed").unwrap().status, WorkerStatus::Dead);
    assert_eq!(registry.active_count(), 0);
    assert!(registry.pipeline_order().is_empty());
}

#[test]
fn test_heartbeat_tracker_missed_count_detects_dead() {
    let mut tracker = HeartbeatTracker::new();
    tracker.set_pending_nonce(1);

    // Simulate 3 missed rounds — worker should be flagged.
    assert!(tracker.increment_missed(&["slow".into()], 3).is_empty());
    tracker.set_pending_nonce(2);
    assert!(tracker.increment_missed(&["slow".into()], 3).is_empty());
    tracker.set_pending_nonce(3);
    let dead = tracker.increment_missed(&["slow".into()], 3);
    assert_eq!(dead, vec!["slow"]);
}

#[test]
fn acks_carry_stats_into_the_registry() {
    let mut reg = setup_registry_with_worker("w1");
    let mut tracker = HeartbeatTracker::new();
    tracker.set_pending_nonce(777);
    let ack = HeartbeatAckPayload {
        timestamp_echo: 0,
        nonce_echo: 777,
        gpu_memory_used: 4_000_000_000,
        active_sequences: 1,
        free_blocks: 100,
    };
    assert!(tracker.process_ack(&mut reg, "w1", &ack, 1234));
    let entry = reg.get("w1").unwrap();
    assert_eq!(entry.free_blocks, 100);
    assert_eq!(entry.gpu_memory_used, 4_000_000_000);
    assert_eq!(entry.last_heartbeat, 1234);
}

#[test]
fn rounds_go_to_the_pipeline_with_a_fresh_nonce() {
    let reg = setup_registry_with_worker("w1");
    let (first, targets) = plan_heartbeats(&reg, 99);
    assert_eq!(first.timestamp_ns, 99);
    assert_eq!(targets, vec!["w1"]);
    // Nonces are drawn by chance: eight equal ones in a row do not happen.
    let nonces: Vec<u64> = (0..8).map(|_| plan_heartbeats(&reg, 99).0.nonce).collect();
    assert!(nonces.iter().any(|n| *n != first.nonce));
}

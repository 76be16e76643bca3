//! Sequence states.
use fracture::coordinator::state::{SequenceStateManager, SequenceStatus};

#[test]
fn test_create_sequence() {
    let mut mgr = SequenceStateManager::new();
    let id = mgr.create(128, 256, vec!["a".into(), "b".into()]);

    let seq = mgr.get(id).unwrap();
    assert_eq!(seq.status, SequenceStatus::Prefilling);
    assert_eq!(seq.current_pos, 128);
    assert_eq!(seq.max_tokens, 256);
    assert_eq!(seq.cache_allocated_on, vec!["a", "b"]);
}

#[test]
fn test_sequence_lifecycle() {
    let mut mgr = SequenceStateManager::new();
    let id = mgr.create(10, 100, vec!["w1".into()]);

    // Prefilling -> Decoding
    mgr.begin_decoding(id).unwrap();
    assert_eq!(mgr.get(id).unwrap().status, SequenceStatus::Decoding);

    // Record tokens
    mgr.record_token(id, 42).unwrap();
    mgr.record_token(id, 43).unwrap();
    let seq = mgr.get(id).unwrap();
    assert_eq!(seq.generated_tokens, vec![42, 43]);
    assert_eq!(seq.current_pos, 12); // 10 + 2

    // Complete
    mgr.complete(id).unwrap();
    assert_eq!(mgr.get(id).unwrap().status, SequenceStatus::Complete);
}

#[test]
fn test_invalid_transition_decode_from_complete() {
    let mut mgr = SequenceStateManager::new();
    let id = mgr.create(10, 100, vec![]);
    mgr.begin_decoding(id).unwrap();
    mgr.complete(id).unwrap();

    // Cannot go back to Decoding from Complete
    assert!(mgr.begin_decoding(id).is_err());
}

#[test]
fn test_cannot_record_token_while_prefilling() {
    let mut mgr = SequenceStateManager::new();
    let id = mgr.create(10, 100, vec![]);
    assert!(mgr.record_token(id, 42).is_err());
}

#[test]
fn test_is_at_limit() {
    let mut mgr = SequenceStateManager::new();
    let id = mgr.create(10, 3, vec![]);
    mgr.begin_decoding(id).unwrap();

    assert!(!mgr.is_at_limit(id).unwrap());
    mgr.record_token(id, 1).unwrap();
    mgr.record_token(id, 2).unwrap();
    assert!(!mgr.is_at_limit(id).unwrap());
    mgr.record_token(id, 3).unwrap();
    assert!(mgr.is_at_limit(id).unwrap());
}

#[test]
fn test_active_count() {
    let mut mgr = SequenceStateManager::new();
    let id1 = mgr.create(10, 100, vec![]);
    let id2 = mgr.create(10, 100, vec![]);
    assert_eq!(mgr.active_count(), 2);

    mgr.begin_decoding(id1).unwrap();
    mgr.complete(id1).unwrap();
    assert_eq!(mgr.active_count(), 1);

    mgr.mark_error(id2).unwrap();
    assert_eq!(mgr.active_count(), 0);
}

#[test]
fn test_remove() {
    let mut mgr = SequenceStateManager::new();
    let id = mgr.create(10, 100, vec![]);
    assert!(mgr.remove(id).is_some());
    assert!(mgr.get(id).is_err());
}

#[test]
fn test_unknown_sequence() {
    let mgr = SequenceStateManager::new();
    assert!(mgr.get(999).is_err());
}

#[test]
fn test_sequential_ids() {
    let mut mgr = SequenceStateManager::new();
    let id1 = mgr.create(10, 100, vec![]);
    let id2 = mgr.create(10, 100, vec![]);
    assert_eq!(id2, id1 + 1);
}

#[test]
fn test_cannot_record_token_while_complete() {
    let mut mgr = SequenceStateManager::new();
    let id = mgr.create(10, 100, vec![]);
    mgr.begin_decoding(id).unwrap();
    mgr.complete(id).unwrap();
    assert!(mgr.record_token(id, 42).is_err());
}

#[test]
fn test_cannot_record_token_while_error() {
    let mut mgr = SequenceStateManager::new();
    let id = mgr.create(10, 100, vec![]);
    mgr.mark_error(id).unwrap();
    assert!(mgr.record_token(id, 42).is_err());
}

#[test]
fn test_invalid_transition_decode_from_error() {
    let mut mgr = SequenceStateManager::new();
    let id = mgr.create(10, 100, vec![]);
    mgr.mark_error(id).unwrap();
    assert!(mgr.begin_decoding(id).is_err());
}

#[test]
fn test_invalid_transition_decode_from_decoding() {
    let mut mgr = SequenceStateManager::new();
    let id = mgr.create(10, 100, vec![]);
    mgr.begin_decoding(id).unwrap();
    assert!(mgr.begin_decoding(id).is_err());
}

#[test]
fn test_cache_allocated_on_preserved() {
    let mut mgr = SequenceStateManager::new();
    let id = mgr.create(10, 100, vec!["node-a".into(), "node-b".into()]);
    mgr.begin_decoding(id).unwrap();
    mgr.complete(id).unwrap();
    // cache_allocated_on should still be accessible after completion
    let seq = mgr.get(id).unwrap();
    assert_eq!(seq.cache_allocated_on, vec!["node-a", "node-b"]);
}

#[test]
fn test_cache_allocated_on_drives_cleanup() {
    // Simulates the coordinator pattern: create sequence with node IDs,
    // complete it, then use cache_allocated_on to determine which workers
    // need CacheFree messages.
    let mut mgr = SequenceStateManager::new();
    let id = mgr.create(10, 50, vec!["worker-a".into(), "worker-b".into(), "worker-c".into()]);
    mgr.begin_decoding(id).unwrap();
    mgr.record_token(id, 1).unwrap();
    mgr.complete(id).unwrap();

    // The coordinator reads cache_allocated_on to know where to send CacheFree
    let seq = mgr.get(id).unwrap();
    let nodes_to_free: Vec<String> = seq.cache_allocated_on.clone();
    assert_eq!(nodes_to_free, vec!["worker-a", "worker-b", "worker-c"]);

    // After freeing, remove the sequence
    let removed = mgr.remove(id).unwrap();
    assert_eq!(removed.cache_allocated_on.len(), 3);
    assert!(mgr.get(id).is_err());
}

#[test]
fn removed_ids_are_not_given_again() {
    let mut mgr = SequenceStateManager::new();
    let a = mgr.create(1, 1, vec![]);
    mgr.remove(a).unwrap();
    let b = mgr.create(1, 1, vec![]);
    assert_eq!((a, b), (1, 2));
    // Each call moves the number of active sequences as it should.
    assert_eq!(mgr.active_count(), 1);
    mgr.begin_decoding(b).unwrap();
    mgr.record_token(b, 5).unwrap();
    assert_eq!(mgr.active_count(), 1);
    mgr.complete(b).unwrap();
    assert_eq!(mgr.active_count(), 0);
    mgr.mark_error(b).unwrap();
    assert_eq!(mgr.active_count(), 0);
}

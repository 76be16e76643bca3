//! Election terms.
use fracture::election::term::TermTracker;

#[test]
fn test_initial_term() {
    let tracker = TermTracker::new(0);
    assert_eq!(tracker.current(), 0);
}

#[test]
fn test_increment() {
    let mut tracker = TermTracker::new(0);
    assert_eq!(tracker.increment(), 1);
    assert_eq!(tracker.increment(), 2);
    assert_eq!(tracker.current(), 2);
}

#[test]
fn test_advance_to() {
    let mut tracker = TermTracker::new(0);
    tracker.advance_to(5);
    assert_eq!(tracker.current(), 5);
}

#[test]
fn test_is_acceptable() {
    let tracker = TermTracker::new(3);
    assert!(!tracker.is_acceptable(2));
    assert!(tracker.is_acceptable(3));
    assert!(tracker.is_acceptable(4));
}

#[test]
fn test_is_newer() {
    let tracker = TermTracker::new(3);
    assert!(!tracker.is_newer(2));
    assert!(!tracker.is_newer(3));
    assert!(tracker.is_newer(4));
}

#[test]
fn test_update_if_newer() {
    let mut tracker = TermTracker::new(3);
    assert!(!tracker.update_if_newer(2));
    assert_eq!(tracker.current(), 3);
    assert!(tracker.update_if_newer(5));
    assert_eq!(tracker.current(), 5);
}

//! Election term tracking.
//!
//! Terms are monotonically increasing counters that prevent stale elections.
//! Nodes reject election messages from older terms.
use vstd::prelude::*;

verus! {

/// Monotonic term counter.
#[derive(Debug)]
pub struct TermTracker {
    current: u64,
}

impl TermTracker {
    /// The current term.
    pub closed spec fn value(&self) -> u64 {
        self.current
    }

    pub fn new(initial_term: u64) -> (res: Self)
        ensures
            res.value() == initial_term,
    {
        TermTracker { current: initial_term }
    }

    /// Get the current term.
    pub fn current(&self) -> (res: u64)
        ensures
            res == self.value(),
    {
        self.current
    }

    /// Advance to a new term. Returns the new term.
    /// Terms are strictly increasing.
    pub fn advance_to(&mut self, new_term: u64) -> (res: u64)
        requires
            new_term > old(self).value(),
        ensures
            res == new_term,
            final(self).value() == new_term,
    {
        self.current = new_term;
        new_term
    }

    /// Increment the term by 1. Returns the new term.
    pub fn increment(&mut self) -> (res: u64)
        requires
            old(self).value() < u64::MAX,
        ensures
            res == old(self).value() + 1,
            final(self).value() == res,
    {
        self.current = self.current + 1;
        self.current
    }

    /// Check if a received term is acceptable (>= current).
    pub fn is_acceptable(&self, received_term: u64) -> (res: bool)
        ensures
            res == (received_term >= self.value()),
    {
        received_term >= self.current
    }

    /// Check if a received term is strictly newer (> current).
    pub fn is_newer(&self, received_term: u64) -> (res: bool)
        ensures
            res == (received_term > self.value()),
    {
        received_term > self.current
    }

    /// Update to the received term if it's newer. Returns true if updated.
    pub fn update_if_newer(&mut self, received_term: u64) -> (res: bool)
        ensures
            res == (received_term > old(self).value()),
            final(self).value() == if res {
                received_term
            } else {
                old(self).value()
            },
    {
        if received_term > self.current {
            self.current = received_term;
            true
        } else {
            false
        }
    }
}

} // verus!

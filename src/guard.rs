use vstd::prelude::*;

use std::sync::atomic::{AtomicBool, Ordering};

verus! {

/// Relies on `AtomicBool::store`: it writes the value and does not panic with
/// `Ordering::Release`, the one ordering used here.
#[verifier::external_body]
pub(crate) fn store_flag(flag: &AtomicBool, value: bool)
    opens_invariants none
    no_unwind
{
    flag.store(value, Ordering::Release)
}

/// A software-only wakeup: any thread may trigger it, and the poller takes
/// the trigger when it wakes.
pub struct GuardCondition {
    triggered: AtomicBool,
}

impl GuardCondition {
    /// A guard condition that has not been triggered.
    pub fn new() -> (r: GuardCondition) {
        GuardCondition { triggered: AtomicBool::new(false) }
    }

    /// Signal the guard condition, from any thread.
    pub fn trigger(&self)
        opens_invariants none
        no_unwind
    {
        store_flag(&self.triggered, true);
    }

    /// Whether the guard condition was triggered since the last call; the
    /// trigger is consumed. Other threads may trigger at any moment, so
    /// nothing is promised of the result.
    pub fn take_trigger(&self) -> (r: bool) {
        self.triggered.swap(false, Ordering::AcqRel)
    }
}

} // verus!

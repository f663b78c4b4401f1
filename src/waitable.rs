use vstd::prelude::*;

use std::sync::atomic::{AtomicBool, Ordering};
use std::sync::Arc;

use crate::guard::{store_flag, GuardCondition};
use crate::kind::{RclExecutable, RclExecutableKind, RclrsError};
use crate::poll_set::PollSet;

verus! {

/// One pollable primitive as the poller holds it: the executable, its kind,
/// the flag that its lifecycle handle keeps raised, and the slot that the
/// latest registration gave it.
pub struct Waitable<X> {
    executable: X,
    kind: RclExecutableKind,
    in_use: Arc<AtomicBool>,
    index_in_wait_set: Option<usize>,
}

/// The owner's side of a [`Waitable`]: while it lives the waitable is wanted.
/// Dropping it lowers the shared flag and triggers the guard condition, if one
/// was given, so that a blocked poller wakes and retires the waitable.
pub struct WaitableLifecycle {
    in_use: Arc<AtomicBool>,
    guard_condition: Option<Arc<GuardCondition>>,
}

impl<X> Waitable<X> {
    /// The kind of the wrapped primitive.
    pub closed spec fn spec_kind(&self) -> RclExecutableKind {
        self.kind
    }

    /// The wrapped executable.
    pub closed spec fn inner(&self) -> X {
        self.executable
    }

    /// The slot that the latest registration assigned, if any.
    pub closed spec fn index(&self) -> Option<usize> {
        self.index_in_wait_set
    }

    /// Wrap `executable`, and hand back the lifecycle handle that keeps it in
    /// use. The waitable keeps the kind that `executable` reports now, and
    /// starts out in no poll set.
    pub fn new(executable: X, guard_condition: Option<Arc<GuardCondition>>) -> (r: (
        Waitable<X>,
        WaitableLifecycle,
    )) where X: RclExecutable
        ensures
            r.0.index() == None::<usize>,
            r.0.inner() == executable,
    {
        let kind = executable.kind();
        let in_use = Arc::new(AtomicBool::new(true));
        let waiter = Waitable {
            executable,
            kind,
            in_use: Arc::clone(&in_use),
            index_in_wait_set: None,
        };
        let lifecycle = WaitableLifecycle { in_use, guard_condition };
        (waiter, lifecycle)
    }

    /// The kind of the wrapped primitive.
    pub fn kind(&self) -> (r: RclExecutableKind)
        ensures
            r == self.spec_kind(),
    {
        self.kind
    }

    /// The wrapped executable.
    pub fn executable(&self) -> (r: &X)
        ensures
            *r == self.inner(),
    {
        &self.executable
    }

    /// The slot that the latest registration assigned, if any.
    pub fn slot(&self) -> (r: Option<usize>)
        ensures
            r == self.index(),
    {
        self.index_in_wait_set
    }

    /// Whether the latest registration gave this waitable a slot.
    pub fn in_wait_set(&self) -> (r: bool)
        ensures
            r == self.index().is_some(),
    {
        self.index_in_wait_set.is_some()
    }

    /// Whether the lifecycle handle is still alive. The handle may be dropped
    /// on another thread at any moment, so nothing is promised of the result.
    pub fn in_use(&self) -> (r: bool) {
        self.in_use.load(Ordering::Acquire)
    }

    /// Forget the slot of an earlier cycle.
    pub fn leave_wait_set(&mut self)
        ensures
            final(self).index() == None::<usize>,
            final(self).spec_kind() == old(self).spec_kind(),
            final(self).inner() == old(self).inner(),
    {
        self.index_in_wait_set = None;
    }

    /// The slot assigned in this cycle was found ready by the last wait.
    pub open spec fn spec_is_ready(&self, poll_set: &PollSet) -> bool {
        match self.index() {
            Some(i) => poll_set.spec_is_ready(self.spec_kind(), i),
            None => false,
        }
    }

    /// Whether the slot assigned in this cycle was found ready by the last wait.
    pub fn is_ready(&self, poll_set: &PollSet) -> (r: bool)
        ensures
            r == self.spec_is_ready(poll_set),
    {
        match self.index_in_wait_set {
            Some(index) => poll_set.is_ready(self.kind, index),
            None => false,
        }
    }

    /// Register the primitive in `poll_set` and remember the slot it got.
    /// A poll set with no free slot of this kind is an error, and the waitable
    /// and the poll set are left as they were.
    pub fn add_to_wait_set(&mut self, poll_set: &mut PollSet) -> (r: Result<(), RclrsError>)
        requires
            old(poll_set).wf(),
        ensures
            final(poll_set).wf(),
            final(poll_set).spec_capacity() == old(poll_set).spec_capacity(),
            final(self).spec_kind() == old(self).spec_kind(),
            final(self).inner() == old(self).inner(),
            ({
                let k = old(self).spec_kind();
                let used = old(poll_set).slots(k).len();
                if used < old(poll_set).spec_capacity().of(k) {
                    &&& r is Ok
                    &&& final(self).index() == Some(used as usize)
                    &&& final(poll_set).slots(k) == old(poll_set).slots(k).push(false)
                    &&& forall|j: RclExecutableKind| j != k ==> #[trigger] final(poll_set).slots(j) == old(poll_set).slots(j)
                } else {
                    &&& r == Err::<(), RclrsError>(RclrsError::WaitSetFull { kind: k })
                    &&& *final(poll_set) == *old(poll_set)
                    &&& final(self).index() == old(self).index()
                }
            }),
    {
        let index = poll_set.register(self.kind)?;
        self.index_in_wait_set = Some(index);
        Ok(())
    }
}

/// A waitable that holds no slot, as every waitable that a rebuild retires,
/// reports ready on no poll set, whatever a later wait finds.
pub proof fn lemma_retired_never_ready<X>(waitable: Waitable<X>, poll_set: PollSet)
    requires
        waitable.index() == None::<usize>,
    ensures
        !waitable.spec_is_ready(&poll_set),
{
}

impl Drop for WaitableLifecycle {
    fn drop(&mut self)
        opens_invariants none
        no_unwind
    {
        store_flag(&self.in_use, false);
        match &self.guard_condition {
            Some(guard_condition) => guard_condition.trigger(),
            None => {},
        }
    }
}

} // verus!

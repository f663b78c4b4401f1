use vstd::prelude::*;

use std::sync::Arc;

use crate::guard::GuardCondition;

verus! {

/// Deferred work that must run on the poller thread.
pub trait Executable {
    fn execute(&self);
}

/// A first-in first-out channel of work for the poller thread. Producers
/// `send`, which queues the work and triggers the guard condition so that a
/// blocked poller wakes; the poller takes everything queued with `flush` and
/// runs it in order.
pub struct WaitSetStream<E> {
    queue: Vec<E>,
    guard_condition: Arc<GuardCondition>,
}

impl<E> WaitSetStream<E> {
    /// The queued work, oldest first.
    pub closed spec fn pending(&self) -> Seq<E> {
        self.queue@
    }

    /// The guard condition that `send` triggers.
    pub closed spec fn spec_guard_condition(&self) -> Arc<GuardCondition> {
        self.guard_condition
    }

    /// An empty stream that wakes the poller through `guard_condition`.
    pub fn new(guard_condition: Arc<GuardCondition>) -> (r: Self)
        ensures
            r.pending() == Seq::<E>::empty(),
            r.spec_guard_condition() == guard_condition,
    {
        WaitSetStream { queue: Vec::new(), guard_condition }
    }

    /// Queue `executable` behind everything already queued, and wake the poller.
    pub fn send(&mut self, executable: E)
        ensures
            final(self).pending() == old(self).pending().push(executable),
            final(self).spec_guard_condition() == old(self).spec_guard_condition(),
    {
        self.queue.push(executable);
        self.guard_condition.trigger();
    }

    /// Take everything queued, oldest first; the queue is left empty.
    pub fn flush(&mut self) -> (r: Vec<E>)
        ensures
            r@ == old(self).pending(),
            final(self).pending() == Seq::<E>::empty(),
            final(self).spec_guard_condition() == old(self).spec_guard_condition(),
    {
        let mut taken: Vec<E> = Vec::new();
        std::mem::swap(&mut taken, &mut self.queue);
        taken
    }
}

/// Work sent earlier leaves the stream earlier: after `first` and then
/// `second` are sent, a flush hands `first` out before `second`.
pub proof fn lemma_flush_keeps_send_order<E>(queued: Seq<E>, first: E, second: E)
    ensures
        ({
            let flushed = queued.push(first).push(second);
            &&& flushed[queued.len() as int] == first
            &&& flushed[queued.len() as int + 1] == second
            &&& flushed.subrange(0, queued.len() as int) == queued
        }),
{
    assert(queued.push(first).push(second).subrange(0, queued.len() as int) =~= queued);
}

} // verus!

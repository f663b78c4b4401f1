use vstd::prelude::*;

use crate::count::WaitableCount;
use crate::kind::{RclExecutableKind, RclrsError};

verus! {

/// The set of slots that the poller blocks on: for each kind, a fixed number
/// of slots (its capacity), the slots filled by registration in this cycle,
/// and for each filled slot whether the last wait found it ready.
pub struct PollSet {
    capacity: WaitableCount,
    subscriptions: Vec<bool>,
    guard_conditions: Vec<bool>,
    timers: Vec<bool>,
    clients: Vec<bool>,
    services: Vec<bool>,
    events: Vec<bool>,
}

impl PollSet {
    /// The number of slots of each kind.
    pub closed spec fn spec_capacity(&self) -> WaitableCount {
        self.capacity
    }

    /// The ready flags of the filled slots of `kind`, by slot index.
    pub closed spec fn slots(&self, kind: RclExecutableKind) -> Seq<bool> {
        match kind {
            RclExecutableKind::Subscription => self.subscriptions@,
            RclExecutableKind::GuardCondition => self.guard_conditions@,
            RclExecutableKind::Timer => self.timers@,
            RclExecutableKind::Client => self.clients@,
            RclExecutableKind::Service => self.services@,
            RclExecutableKind::Event => self.events@,
        }
    }

    /// No kind has more filled slots than it has slots.
    pub open spec fn wf(&self) -> bool {
        forall|k: RclExecutableKind| #[trigger] self.slots(k).len() <= self.spec_capacity().of(k)
    }

    /// Nothing is registered in this cycle.
    pub open spec fn is_empty(&self) -> bool {
        forall|k: RclExecutableKind| #[trigger] self.slots(k).len() == 0
    }

    /// Slot `index` of `kind` is filled and the last wait found it ready.
    pub open spec fn spec_is_ready(&self, kind: RclExecutableKind, index: usize) -> bool {
        index < self.slots(kind).len() && self.slots(kind)[index as int]
    }

    /// A poll set sized exactly to `count`, with nothing registered.
    pub fn initialize(count: &WaitableCount) -> (r: PollSet)
        ensures
            r.wf(),
            r.is_empty(),
            r.spec_capacity() == *count,
    {
        PollSet {
            capacity: *count,
            subscriptions: Vec::new(),
            guard_conditions: Vec::new(),
            timers: Vec::new(),
            clients: Vec::new(),
            services: Vec::new(),
            events: Vec::new(),
        }
    }

    /// The number of slots of each kind.
    pub fn capacity(&self) -> (r: WaitableCount)
        ensures
            r == self.spec_capacity(),
    {
        self.capacity
    }

    /// Resize to exactly `count` slots of each kind; every registration is
    /// dropped.
    pub fn resize(&mut self, count: &WaitableCount)
        ensures
            final(self).wf(),
            final(self).is_empty(),
            final(self).spec_capacity() == *count,
    {
        *self = PollSet::initialize(count);
    }

    /// Drop every registration and ready flag, keeping the capacity.
    pub fn clear(&mut self)
        ensures
            final(self).wf(),
            final(self).is_empty(),
            final(self).spec_capacity() == old(self).spec_capacity(),
    {
        let capacity = self.capacity;
        *self = PollSet::initialize(&capacity);
    }

    /// The number of filled slots of `kind`.
    pub fn filled(&self, kind: RclExecutableKind) -> (r: usize)
        ensures
            r == self.slots(kind).len(),
    {
        match kind {
            RclExecutableKind::Subscription => self.subscriptions.len(),
            RclExecutableKind::GuardCondition => self.guard_conditions.len(),
            RclExecutableKind::Timer => self.timers.len(),
            RclExecutableKind::Client => self.clients.len(),
            RclExecutableKind::Service => self.services.len(),
            RclExecutableKind::Event => self.events.len(),
        }
    }

    /// Register one primitive of `kind` in the next free slot of its kind and
    /// return that slot's index. Fails, changing nothing, when every slot of
    /// the kind is taken.
    pub fn register(&mut self, kind: RclExecutableKind) -> (r: Result<usize, RclrsError>)
        requires
            old(self).wf(),
        ensures
            final(self).wf(),
            final(self).spec_capacity() == old(self).spec_capacity(),
            old(self).slots(kind).len() < old(self).spec_capacity().of(kind) ==> {
                &&& r == Ok::<usize, RclrsError>(old(self).slots(kind).len() as usize)
                &&& final(self).slots(kind) == old(self).slots(kind).push(false)
                &&& forall|k: RclExecutableKind| k != kind ==> #[trigger] final(self).slots(k) == old(self).slots(k)
            },
            old(self).slots(kind).len() >= old(self).spec_capacity().of(kind) ==> {
                &&& r == Err::<usize, RclrsError>(RclrsError::WaitSetFull { kind })
                &&& *final(self) == *old(self)
            },
    {
        let used = self.filled(kind);
        if used >= self.capacity.get(kind) {
            return Err(RclrsError::WaitSetFull { kind });
        }
        match kind {
            RclExecutableKind::Subscription => self.subscriptions.push(false),
            RclExecutableKind::GuardCondition => self.guard_conditions.push(false),
            RclExecutableKind::Timer => self.timers.push(false),
            RclExecutableKind::Client => self.clients.push(false),
            RclExecutableKind::Service => self.services.push(false),
            RclExecutableKind::Event => self.events.push(false),
        }
        proof {
            assert forall|k: RclExecutableKind| #[trigger] self.slots(k).len() <= self.spec_capacity().of(k) by {
                assert(old(self).slots(k).len() <= old(self).spec_capacity().of(k));
            }
        }
        Ok(used)
    }

    /// Record the outcome of a wait: slot `index` of `kind` is ready. An index
    /// that is not filled changes nothing.
    pub fn set_ready(&mut self, kind: RclExecutableKind, index: usize)
        requires
            old(self).wf(),
        ensures
            final(self).wf(),
            final(self).spec_capacity() == old(self).spec_capacity(),
            index < old(self).slots(kind).len() ==> final(self).slots(kind) == old(self).slots(kind).update(index as int, true),
            index >= old(self).slots(kind).len() ==> final(self).slots(kind) == old(self).slots(kind),
            forall|k: RclExecutableKind| k != kind ==> #[trigger] final(self).slots(k) == old(self).slots(k),
    {
        if index < self.filled(kind) {
            match kind {
                RclExecutableKind::Subscription => self.subscriptions.set(index, true),
                RclExecutableKind::GuardCondition => self.guard_conditions.set(index, true),
                RclExecutableKind::Timer => self.timers.set(index, true),
                RclExecutableKind::Client => self.clients.set(index, true),
                RclExecutableKind::Service => self.services.set(index, true),
                RclExecutableKind::Event => self.events.set(index, true),
            }
        }
        proof {
            assert forall|k: RclExecutableKind| #[trigger] self.slots(k).len() <= self.spec_capacity().of(k) by {
                assert(old(self).slots(k).len() <= old(self).spec_capacity().of(k));
            }
        }
    }

    /// Whether slot `index` of `kind` is filled and was found ready.
    pub fn is_ready(&self, kind: RclExecutableKind, index: usize) -> (r: bool)
        ensures
            r == self.spec_is_ready(kind, index),
    {
        if index >= self.filled(kind) {
            return false;
        }
        match kind {
            RclExecutableKind::Subscription => self.subscriptions[index],
            RclExecutableKind::GuardCondition => self.guard_conditions[index],
            RclExecutableKind::Timer => self.timers[index],
            RclExecutableKind::Client => self.clients[index],
            RclExecutableKind::Service => self.services[index],
            RclExecutableKind::Event => self.events[index],
        }
    }
}

} // verus!

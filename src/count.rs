use vstd::prelude::*;

use crate::kind::RclExecutableKind;

verus! {

/// How many times `kind` occurs in `kinds`.
pub open spec fn occurrences(kinds: Seq<RclExecutableKind>, kind: RclExecutableKind) -> nat
    decreases kinds.len(),
{
    if kinds.len() == 0 {
        0
    } else {
        occurrences(kinds.drop_last(), kind) + if kinds.last() == kind {
            1nat
        } else {
            0nat
        }
    }
}

/// One counter per primitive kind: how many slots of each kind a poll set has,
/// or how many live waitables of each kind there are.
#[derive(Debug, Clone, Copy, PartialEq, Eq, Structural)]
pub struct WaitableCount {
    pub subscriptions: usize,
    pub guard_conditions: usize,
    pub timers: usize,
    pub clients: usize,
    pub services: usize,
    pub events: usize,
}

impl WaitableCount {
    /// The counter that belongs to `kind`.
    pub open spec fn of(self, kind: RclExecutableKind) -> nat {
        match kind {
            RclExecutableKind::Subscription => self.subscriptions as nat,
            RclExecutableKind::GuardCondition => self.guard_conditions as nat,
            RclExecutableKind::Timer => self.timers as nat,
            RclExecutableKind::Client => self.clients as nat,
            RclExecutableKind::Service => self.services as nat,
            RclExecutableKind::Event => self.events as nat,
        }
    }

    /// This count holds, for each kind, the number of its occurrences in `kinds`.
    pub open spec fn counts(self, kinds: Seq<RclExecutableKind>) -> bool {
        forall|k: RclExecutableKind| #[trigger] self.of(k) == occurrences(kinds, k)
    }

    /// All six counters are zero.
    pub fn new() -> (r: Self)
        ensures
            forall|k: RclExecutableKind| #[trigger] r.of(k) == 0,
    {
        WaitableCount {
            subscriptions: 0,
            guard_conditions: 0,
            timers: 0,
            clients: 0,
            services: 0,
            events: 0,
        }
    }

    /// The counter that belongs to `kind`.
    pub fn get(&self, kind: RclExecutableKind) -> (r: usize)
        ensures
            r as nat == self.of(kind),
    {
        match kind {
            RclExecutableKind::Subscription => self.subscriptions,
            RclExecutableKind::GuardCondition => self.guard_conditions,
            RclExecutableKind::Timer => self.timers,
            RclExecutableKind::Client => self.clients,
            RclExecutableKind::Service => self.services,
            RclExecutableKind::Event => self.events,
        }
    }

    /// Add `count` to the counter of `kind`, leaving the others as they are.
    pub fn add(&mut self, kind: RclExecutableKind, count: usize)
        requires
            old(self).of(kind) + count <= usize::MAX,
        ensures
            final(self).of(kind) == old(self).of(kind) + count,
            forall|k: RclExecutableKind| k != kind ==> #[trigger] final(self).of(k) == old(self).of(k),
    {
        match kind {
            RclExecutableKind::Subscription => self.subscriptions = self.subscriptions + count,
            RclExecutableKind::GuardCondition => self.guard_conditions = self.guard_conditions + count,
            RclExecutableKind::Timer => self.timers = self.timers + count,
            RclExecutableKind::Client => self.clients = self.clients + count,
            RclExecutableKind::Service => self.services = self.services + count,
            RclExecutableKind::Event => self.events = self.events + count,
        }
    }

    /// Whether the two counts agree on every kind.
    pub fn same_as(&self, other: &WaitableCount) -> (r: bool)
        ensures
            r <==> (forall|k: RclExecutableKind| #[trigger] self.of(k) == other.of(k)),
    {
        let r = self.subscriptions == other.subscriptions && self.guard_conditions
            == other.guard_conditions && self.timers == other.timers && self.clients
            == other.clients && self.services == other.services && self.events == other.events;
        proof {
            if !r {
                if self.subscriptions != other.subscriptions {
                    assert(self.of(RclExecutableKind::Subscription) != other.of(RclExecutableKind::Subscription));
                } else if self.guard_conditions != other.guard_conditions {
                    assert(self.of(RclExecutableKind::GuardCondition) != other.of(RclExecutableKind::GuardCondition));
                } else if self.timers != other.timers {
                    assert(self.of(RclExecutableKind::Timer) != other.of(RclExecutableKind::Timer));
                } else if self.clients != other.clients {
                    assert(self.of(RclExecutableKind::Client) != other.of(RclExecutableKind::Client));
                } else if self.services != other.services {
                    assert(self.of(RclExecutableKind::Service) != other.of(RclExecutableKind::Service));
                } else {
                    assert(self.of(RclExecutableKind::Event) != other.of(RclExecutableKind::Event));
                }
            }
        }
        r
    }
}

/// Two counts that agree on every kind are the same value.
pub proof fn lemma_count_ext(a: WaitableCount, b: WaitableCount)
    requires
        forall|k: RclExecutableKind| #[trigger] a.of(k) == b.of(k),
    ensures
        a == b,
{
    assert(a.of(RclExecutableKind::Subscription) == b.of(RclExecutableKind::Subscription));
    assert(a.of(RclExecutableKind::GuardCondition) == b.of(RclExecutableKind::GuardCondition));
    assert(a.of(RclExecutableKind::Timer) == b.of(RclExecutableKind::Timer));
    assert(a.of(RclExecutableKind::Client) == b.of(RclExecutableKind::Client));
    assert(a.of(RclExecutableKind::Service) == b.of(RclExecutableKind::Service));
    assert(a.of(RclExecutableKind::Event) == b.of(RclExecutableKind::Event));
}

/// Appending one kind adds one to its own count and nothing to the others.
pub proof fn lemma_occurrences_push(kinds: Seq<RclExecutableKind>, k: RclExecutableKind, j: RclExecutableKind)
    ensures
        occurrences(kinds.push(k), j) == occurrences(kinds, j) + if k == j { 1nat } else { 0nat },
{
    assert(kinds.push(k).drop_last() =~= kinds);
}

/// A kind occurs no more often than the sequence is long.
pub proof fn lemma_occurrences_bound(kinds: Seq<RclExecutableKind>, k: RclExecutableKind)
    ensures
        occurrences(kinds, k) <= kinds.len(),
    decreases kinds.len(),
{
    if kinds.len() > 0 {
        lemma_occurrences_bound(kinds.drop_last(), k);
    }
}

/// Taking one item out removes one occurrence of its kind and no other.
pub proof fn lemma_occurrences_remove(kinds: Seq<RclExecutableKind>, i: int, j: RclExecutableKind)
    requires
        0 <= i < kinds.len(),
    ensures
        occurrences(kinds, j) == occurrences(kinds.remove(i), j) + if kinds[i] == j { 1nat } else { 0nat },
    decreases kinds.len(),
{
    if i == kinds.len() - 1 {
        assert(kinds.remove(i) =~= kinds.drop_last());
    } else {
        assert(kinds.remove(i).drop_last() =~= kinds.drop_last().remove(i));
        assert(kinds.remove(i).last() == kinds.last());
        lemma_occurrences_remove(kinds.drop_last(), i, j);
    }
}

/// Adding one live waitable changes the count that the poll set must be
/// sized to: a poll set sized for the waitables before cannot serve them
/// after, so the next cycle resizes before it registers.
pub proof fn lemma_adding_forces_resize(
    sized: WaitableCount,
    kinds: Seq<RclExecutableKind>,
    added: RclExecutableKind,
    needed: WaitableCount,
)
    requires
        sized.counts(kinds),
        needed.counts(kinds.push(added)),
    ensures
        sized != needed,
{
    lemma_occurrences_push(kinds, added, added);
    assert(sized.of(added) != needed.of(added));
}

/// Removing one live waitable changes the count that the poll set must be
/// sized to, so the next cycle resizes before it registers.
pub proof fn lemma_removing_forces_resize(
    sized: WaitableCount,
    kinds: Seq<RclExecutableKind>,
    i: int,
    needed: WaitableCount,
)
    requires
        0 <= i < kinds.len(),
        sized.counts(kinds),
        needed.counts(kinds.remove(i)),
    ensures
        sized != needed,
{
    lemma_occurrences_remove(kinds, i, kinds[i]);
    assert(sized.of(kinds[i]) != needed.of(kinds[i]));
}

} // verus!

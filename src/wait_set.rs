use vstd::prelude::*;

use crate::count::{lemma_occurrences_bound, lemma_occurrences_push, occurrences, WaitableCount};
use crate::kind::RclExecutableKind;
use crate::poll_set::PollSet;
use crate::waitable::Waitable;

verus! {

/// The items of `items` whose flag in `live` is raised, in their order.
pub open spec fn retained<A>(items: Seq<A>, live: Seq<bool>) -> Seq<A>
    decreases items.len(),
{
    if items.len() == 0 {
        Seq::empty()
    } else {
        let rest = retained(items.drop_last(), live);
        if live[items.len() - 1] {
            rest.push(items.last())
        } else {
            rest
        }
    }
}

/// The items of `items` whose flag in `live` is lowered, in their order.
pub open spec fn retired<A>(items: Seq<A>, live: Seq<bool>) -> Seq<A>
    decreases items.len(),
{
    if items.len() == 0 {
        Seq::empty()
    } else {
        let rest = retired(items.drop_last(), live);
        if !live[items.len() - 1] {
            rest.push(items.last())
        } else {
            rest
        }
    }
}

/// The executables of a sequence of waitables.
pub open spec fn executables_of<X>(ws: Seq<Waitable<X>>) -> Seq<X> {
    ws.map_values(|w: Waitable<X>| w.inner())
}

/// The kinds of a sequence of waitables.
pub open spec fn kinds_of<X>(ws: Seq<Waitable<X>>) -> Seq<RclExecutableKind> {
    ws.map_values(|w: Waitable<X>| w.spec_kind())
}

/// Keeping or retiring one more item extends the result by that item alone.
pub proof fn lemma_split_step<A>(items: Seq<A>, live: Seq<bool>, i: int)
    requires
        0 <= i < items.len(),
    ensures
        retained(items.take(i + 1), live) == if live[i] {
            retained(items.take(i), live).push(items[i])
        } else {
            retained(items.take(i), live)
        },
        retired(items.take(i + 1), live) == if !live[i] {
            retired(items.take(i), live).push(items[i])
        } else {
            retired(items.take(i), live)
        },
{
    assert(items.take(i + 1).drop_last() =~= items.take(i));
}

/// A prefix holds no more of a kind than the whole sequence.
pub proof fn lemma_occurrences_prefix(kinds: Seq<RclExecutableKind>, n: int, k: RclExecutableKind)
    requires
        0 <= n <= kinds.len(),
    ensures
        occurrences(kinds.take(n), k) <= occurrences(kinds, k),
    decreases kinds.len(),
{
    if n < kinds.len() {
        assert(kinds.take(n) =~= kinds.drop_last().take(n));
        lemma_occurrences_prefix(kinds.drop_last(), n, k);
    } else {
        assert(kinds.take(n) =~= kinds);
    }
}

/// The poller: the waitables it owns and the poll set they are registered in.
pub struct WaitSet<X> {
    waitables: Vec<Waitable<X>>,
    poll_set: PollSet,
}

impl<X> WaitSet<X> {
    /// The waitables, in the order of registration.
    pub closed spec fn members(&self) -> Seq<Waitable<X>> {
        self.waitables@
    }

    /// The executables of the waitables, in order.
    pub open spec fn executables(&self) -> Seq<X> {
        executables_of(self.members())
    }

    /// The kinds of the waitables, in order.
    pub open spec fn kinds(&self) -> Seq<RclExecutableKind> {
        kinds_of(self.members())
    }

    /// The poll set as the last rebuild and wait left it.
    pub closed spec fn spec_poll_set(&self) -> PollSet {
        self.poll_set
    }

    /// The poll set is well formed.
    pub open spec fn wf(&self) -> bool {
        self.spec_poll_set().wf()
    }

    /// The poll set is sized exactly to the waitables, every slot is filled,
    /// and waitable `i` holds the slot that registration gave it: the number
    /// of waitables of its kind that come before it.
    pub open spec fn registered(&self) -> bool {
        &&& self.spec_poll_set().spec_capacity().counts(self.kinds())
        &&& forall|k: RclExecutableKind| #[trigger] self.spec_poll_set().slots(k).len() == occurrences(self.kinds(), k)
        &&& forall|i: int| 0 <= i < self.members().len() ==> #[trigger] self.members()[i].index()
            == Some(occurrences(self.kinds().take(i), self.kinds()[i]) as usize)
    }

    /// A poller with no waitables and an empty poll set.
    pub fn new() -> (r: WaitSet<X>)
        ensures
            r.wf(),
            r.members().len() == 0,
            r.spec_poll_set().is_empty(),
    {
        let count = WaitableCount::new();
        WaitSet { waitables: Vec::new(), poll_set: PollSet::initialize(&count) }
    }

    /// The poll set as the last rebuild and wait left it.
    pub fn poll_set(&self) -> (r: &PollSet)
        ensures
            *r == self.spec_poll_set(),
    {
        &self.poll_set
    }

    /// The number of waitables.
    pub fn len(&self) -> (r: usize)
        ensures
            r == self.members().len(),
    {
        self.waitables.len()
    }

    /// Hand a new waitable to the poller. It gets a slot at the next rebuild.
    pub fn add_waitable(&mut self, waitable: Waitable<X>)
        ensures
            final(self).members().len() == old(self).members().len() + 1,
            final(self).executables() == old(self).executables().push(waitable.inner()),
            final(self).kinds() == old(self).kinds().push(waitable.spec_kind()),
            final(self).members().last().index() == None::<usize>,
            final(self).spec_poll_set() == old(self).spec_poll_set(),
    {
        let mut waitable = waitable;
        waitable.leave_wait_set();
        self.waitables.push(waitable);
        proof {
            assert(self.executables() =~= old(self).executables().push(waitable.inner()));
            assert(self.kinds() =~= old(self).kinds().push(waitable.spec_kind()));
        }
    }

    /// Start a new cycle. `live[i]` is what the in-use flag of waitable `i`
    /// read. The waitables whose flag was lowered leave the poller and are
    /// handed back with no slot; the others stay, in their order. The poll
    /// set is resized to the new count when that differs from its size (the
    /// returned flag says whether it did), and otherwise only cleared. Then
    /// every remaining waitable is registered, which cannot fail, and no slot
    /// is ready yet.
    pub fn rebuild_with(&mut self, live: &Vec<bool>) -> (r: (Vec<Waitable<X>>, bool))
        requires
            old(self).wf(),
            live@.len() == old(self).members().len(),
        ensures
            final(self).wf(),
            final(self).registered(),
            final(self).executables() == retained(old(self).executables(), live@),
            final(self).kinds() == retained(old(self).kinds(), live@),
            executables_of(r.0@) == retired(old(self).executables(), live@),
            forall|i: int| 0 <= i < r.0@.len() ==> #[trigger] r.0@[i].index() == None::<usize>,
            forall|i: int, p: PollSet| 0 <= i < r.0@.len() ==> !#[trigger] r.0@[i].spec_is_ready(&p),
            r.1 == (old(self).spec_poll_set().spec_capacity() != final(self).spec_poll_set().spec_capacity()),
            forall|k: RclExecutableKind, i: usize| !#[trigger] final(self).spec_poll_set().spec_is_ready(k, i),
    {
        let ghost orig = self.waitables@;
        let ghost n = orig.len();
        let mut pending: Vec<Waitable<X>> = Vec::new();
        std::mem::swap(&mut pending, &mut self.waitables);
        let mut kept: Vec<Waitable<X>> = Vec::new();
        let mut removed: Vec<Waitable<X>> = Vec::new();
        let mut count = WaitableCount::new();
        let mut i: usize = 0;
        while i < live.len()
            invariant
                n == live@.len(),
                orig.len() == n,
                0 <= i <= n,
                pending@ == orig.subrange(i as int, n as int),
                executables_of(kept@) == retained(executables_of(orig).take(i as int), live@),
                kinds_of(kept@) == retained(kinds_of(orig).take(i as int), live@),
                executables_of(removed@) == retired(executables_of(orig).take(i as int), live@),
                forall|j: int| 0 <= j < removed@.len() ==> #[trigger] removed@[j].index() == None::<usize>,
                count.counts(kinds_of(kept@)),
                kept@.len() <= i,
            decreases n - i,
        {
            let ghost before_kept = kept@;
            let ghost before_removed = removed@;
            let mut w = pending.remove(0);
            assert(w == orig[i as int]);
            proof {
                lemma_split_step(executables_of(orig), live@, i as int);
                lemma_split_step(kinds_of(orig), live@, i as int);
            }
            if live[i] {
                let k = w.kind();
                proof {
                    lemma_occurrences_bound(kinds_of(kept@), k);
                }
                count.add(k, 1);
                kept.push(w);
                proof {
                    assert(kinds_of(kept@) =~= kinds_of(before_kept).push(k));
                    assert(executables_of(kept@) =~= executables_of(before_kept).push(w.inner()));
                    assert forall|j: RclExecutableKind| #[trigger] count.of(j) == occurrences(kinds_of(kept@), j) by {
                        lemma_occurrences_push(kinds_of(before_kept), k, j);
                    }
                }
            } else {
                w.leave_wait_set();
                removed.push(w);
                proof {
                    assert(executables_of(removed@) =~= executables_of(before_removed).push(w.inner()));
                }
            }
            assert(pending@ =~= orig.subrange(i + 1, n as int));
            i = i + 1;
        }
        proof {
            assert(executables_of(orig).take(n as int) =~= executables_of(orig));
            assert(kinds_of(orig).take(n as int) =~= kinds_of(orig));
        }
        let ghost kinds = kinds_of(kept@);
        let ghost kept0 = kept@;
        let ghost m = kept0.len();
        let resized = !self.poll_set.capacity().same_as(&count);
        if resized {
            self.poll_set.resize(&count);
        } else {
            proof {
                crate::count::lemma_count_ext(self.poll_set.spec_capacity(), count);
            }
            self.poll_set.clear();
        }
        let total = kept.len();
        let mut j: usize = 0;
        while kept.len() > 0
            invariant
                total == m,
                kept0.len() == m,
                kinds == kinds_of(kept0),
                0 <= j <= m,
                kept@ == kept0.subrange(j as int, m as int),
                self.waitables@.len() == j,
                executables_of(self.waitables@) == executables_of(kept0).take(j as int),
                kinds_of(self.waitables@) == kinds.take(j as int),
                self.poll_set.wf(),
                self.poll_set.spec_capacity() == count,
                count.counts(kinds),
                forall|k: RclExecutableKind| #[trigger] self.poll_set.slots(k).len() == occurrences(kinds.take(j as int), k),
                forall|k: RclExecutableKind, s: int| 0 <= s < self.poll_set.slots(k).len() ==> !#[trigger] self.poll_set.slots(k)[s],
                forall|t: int| 0 <= t < j ==> #[trigger] self.waitables@[t].index()
                    == Some(occurrences(kinds.take(t), kinds[t]) as usize),
            decreases m - j,
        {
            let ghost before = self.waitables@;
            let ghost slots_before = self.poll_set;
            let mut w = kept.remove(0);
            assert(w == kept0[j as int]);
            let ghost k = w.spec_kind();
            assert(k == kinds[j as int]);
            proof {
                assert(kinds.take(j + 1).drop_last() =~= kinds.take(j as int));
                lemma_occurrences_prefix(kinds, j + 1, k);
                assert(count.of(k) == occurrences(kinds, k));
            }
            let res = w.add_to_wait_set(&mut self.poll_set);
            assert(res is Ok);
            self.waitables.push(w);
            proof {
                assert(executables_of(self.waitables@) =~= executables_of(kept0).take(j + 1));
                assert(kinds_of(self.waitables@) =~= kinds.take(j + 1));
                assert forall|q: RclExecutableKind| #[trigger] self.poll_set.slots(q).len() == occurrences(kinds.take(j + 1), q) by {
                    lemma_occurrences_push(kinds.take(j as int), k, q);
                    assert(kinds.take(j as int).push(k) =~= kinds.take(j + 1));
                }
                assert forall|q: RclExecutableKind, s: int| 0 <= s < self.poll_set.slots(q).len() implies !#[trigger] self.poll_set.slots(q)[s] by {
                    if q != k {
                        assert(self.poll_set.slots(q) == slots_before.slots(q));
                    } else {
                        assert(self.poll_set.slots(q) == slots_before.slots(q).push(false));
                    }
                }
                assert forall|t: int| 0 <= t < j + 1 implies #[trigger] self.waitables@[t].index()
                    == Some(occurrences(kinds.take(t), kinds[t]) as usize) by {
                    if t < j {
                        assert(self.waitables@[t] == before[t]);
                    }
                }
            }
            assert(kept@ =~= kept0.subrange(j + 1, m as int));
            j = j + 1;
        }
        proof {
            assert(kinds.take(m as int) =~= kinds);
            assert(executables_of(kept0).take(m as int) =~= executables_of(kept0));
            assert(self.kinds() == kinds);
            assert forall|k: RclExecutableKind, s: usize| !#[trigger] self.spec_poll_set().spec_is_ready(k, s) by {
                if s < self.poll_set.slots(k).len() {
                    assert(!self.poll_set.slots(k)[s as int]);
                }
            }
        }
        (removed, resized)
    }

    /// Start a new cycle, reading each waitable's in-use flag; see
    /// [`WaitSet::rebuild_with`]. The flags may be lowered on other threads
    /// at any moment, so what is promised holds for the flags as they were read.
    pub fn rebuild(&mut self) -> (r: (Vec<Waitable<X>>, bool))
        requires
            old(self).wf(),
        ensures
            final(self).wf(),
            final(self).registered(),
            exists|live: Seq<bool>|
                {
                    &&& live.len() == old(self).members().len()
                    &&& #[trigger] retained(old(self).executables(), live) == final(self).executables()
                    &&& retained(old(self).kinds(), live) == final(self).kinds()
                    &&& retired(old(self).executables(), live) == executables_of(r.0@)
                },
            forall|i: int| 0 <= i < r.0@.len() ==> #[trigger] r.0@[i].index() == None::<usize>,
            forall|i: int, p: PollSet| 0 <= i < r.0@.len() ==> !#[trigger] r.0@[i].spec_is_ready(&p),
            r.1 == (old(self).spec_poll_set().spec_capacity() != final(self).spec_poll_set().spec_capacity()),
            forall|k: RclExecutableKind, i: usize| !#[trigger] final(self).spec_poll_set().spec_is_ready(k, i),
    {
        let mut live: Vec<bool> = Vec::new();
        let mut i: usize = 0;
        while i < self.waitables.len()
            invariant
                live@.len() == i,
                i <= self.waitables@.len(),
            decreases self.waitables@.len() - i,
        {
            live.push(self.waitables[i].in_use());
            i = i + 1;
        }
        self.rebuild_with(&live)
    }

    /// The positions of the waitables whose slot the last wait found ready,
    /// in increasing order.
    pub fn ready_positions(&self) -> (r: Vec<usize>)
        ensures
            forall|a: int, b: int| 0 <= a < b < r@.len() ==> r@[a] < r@[b],
            forall|p: usize| r@.contains(p) <==> (p < self.members().len() && #[trigger] self.members()[p as int].spec_is_ready(&self.spec_poll_set())),
    {
        let mut r: Vec<usize> = Vec::new();
        let mut i: usize = 0;
        while i < self.waitables.len()
            invariant
                i <= self.waitables@.len(),
                forall|a: int, b: int| 0 <= a < b < r@.len() ==> r@[a] < r@[b],
                forall|a: int| 0 <= a < r@.len() ==> r@[a] < i,
                forall|p: usize| r@.contains(p) <==> (p < i && #[trigger] self.members()[p as int].spec_is_ready(&self.spec_poll_set())),
            decreases self.waitables@.len() - i,
        {
            let ghost before = r@;
            if self.waitables[i].is_ready(&self.poll_set) {
                r.push(i);
                proof {
                    assert forall|p: usize| r@.contains(p) <==> (p < i + 1 && #[trigger] self.members()[p as int].spec_is_ready(&self.spec_poll_set())) by {
                        if p == i {
                            assert(r@[before.len() as int] == p);
                        }
                        if before.contains(p) {
                            let w = choose|w: int| 0 <= w < before.len() && before[w] == p;
                            assert(r@[w] == p);
                        }
                        if r@.contains(p) {
                            let w = choose|w: int| 0 <= w < r@.len() && r@[w] == p;
                            if w < before.len() {
                                assert(before[w] == p);
                            }
                        }
                    }
                }
            }
            i = i + 1;
        }
        r
    }

    /// The executable of waitable `i`.
    pub fn executable(&self, i: usize) -> (r: &X)
        requires
            i < self.members().len(),
        ensures
            *r == self.members()[i as int].inner(),
    {
        self.waitables[i].executable()
    }

    /// The slot that the latest registration gave waitable `i`, if any.
    pub fn slot(&self, i: usize) -> (r: Option<usize>)
        requires
            i < self.members().len(),
        ensures
            r == self.members()[i as int].index(),
    {
        self.waitables[i].slot()
    }

    /// Record the outcome of a wait: slot `index` of `kind` is ready.
    pub fn set_ready(&mut self, kind: RclExecutableKind, index: usize)
        requires
            old(self).wf(),
        ensures
            final(self).wf(),
            final(self).members() == old(self).members(),
            final(self).spec_poll_set().spec_capacity() == old(self).spec_poll_set().spec_capacity(),
            index < old(self).spec_poll_set().slots(kind).len() ==> final(self).spec_poll_set().slots(kind)
                == old(self).spec_poll_set().slots(kind).update(index as int, true),
            index >= old(self).spec_poll_set().slots(kind).len() ==> final(self).spec_poll_set().slots(kind)
                == old(self).spec_poll_set().slots(kind),
            forall|k: RclExecutableKind| k != kind ==> #[trigger] final(self).spec_poll_set().slots(k)
                == old(self).spec_poll_set().slots(k),
    {
        self.poll_set.set_ready(kind, index);
    }
}

} // verus!

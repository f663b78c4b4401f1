use std::sync::atomic::{AtomicUsize, Ordering};
use std::sync::Arc;

use rclrs::{
    errors_of, GuardCondition, PollSet, RclExecutable, RclExecutableHandle, RclExecutableKind, RclrsError,
    WaitSet, Waitable, WaitableCount,
};

struct Probe {
    kind: RclExecutableKind,
    runs: Arc<AtomicUsize>,
    outcome: Result<(), RclrsError>,
}

impl RclExecutable for Probe {
    fn execute(&mut self) -> Result<(), RclrsError> {
        self.runs.fetch_add(1, Ordering::SeqCst);
        self.outcome.clone()
    }

    fn kind(&self) -> RclExecutableKind {
        self.kind
    }
}

fn probe(kind: RclExecutableKind, runs: &Arc<AtomicUsize>) -> Probe {
    Probe { kind, runs: Arc::clone(runs), outcome: Ok(()) }
}

#[test]
fn handle_kinds() {
    assert_eq!(RclExecutableHandle::Subscription(()).kind(), RclExecutableKind::Subscription);
    assert_eq!(RclExecutableHandle::GuardCondition(()).kind(), RclExecutableKind::GuardCondition);
    assert_eq!(RclExecutableHandle::Timer(()).kind(), RclExecutableKind::Timer);
    assert_eq!(RclExecutableHandle::Client(()).kind(), RclExecutableKind::Client);
    assert_eq!(RclExecutableHandle::Service(()).kind(), RclExecutableKind::Service);
    assert_eq!(RclExecutableHandle::Event(()).kind(), RclExecutableKind::Event);
}

#[test]
fn count_starts_at_zero_and_adds_per_kind() {
    let mut count = WaitableCount::new();
    assert_eq!(count, WaitableCount { subscriptions: 0, guard_conditions: 0, timers: 0, clients: 0, services: 0, events: 0 });
    count.add(RclExecutableKind::Timer, 3);
    count.add(RclExecutableKind::Event, 1);
    count.add(RclExecutableKind::Timer, 2);
    assert_eq!(count.get(RclExecutableKind::Timer), 5);
    assert_eq!(count.get(RclExecutableKind::Event), 1);
    assert_eq!(count.get(RclExecutableKind::Client), 0);
    assert!(!count.same_as(&WaitableCount::new()));
    let mut other = WaitableCount::new();
    other.add(RclExecutableKind::Event, 1);
    other.add(RclExecutableKind::Timer, 5);
    assert!(count.same_as(&other));
}

#[test]
fn fifth_waitable_needs_resize() {
    let mut four = WaitableCount::new();
    four.add(RclExecutableKind::Client, 4);
    let mut poll_set = PollSet::initialize(&four);
    for expected in 0..4usize {
        assert_eq!(poll_set.register(RclExecutableKind::Client), Ok(expected));
    }
    assert_eq!(
        poll_set.register(RclExecutableKind::Client),
        Err(RclrsError::WaitSetFull { kind: RclExecutableKind::Client })
    );
    assert_eq!(poll_set.filled(RclExecutableKind::Client), 4);
    let mut five = four;
    five.add(RclExecutableKind::Client, 1);
    poll_set.resize(&five);
    assert_eq!(poll_set.filled(RclExecutableKind::Client), 0);
    for expected in 0..5usize {
        assert_eq!(poll_set.register(RclExecutableKind::Client), Ok(expected));
    }
    assert_eq!(poll_set.capacity(), five);
}

#[test]
fn ready_flags_follow_slots() {
    let mut count = WaitableCount::new();
    count.add(RclExecutableKind::Service, 2);
    let mut poll_set = PollSet::initialize(&count);
    assert_eq!(poll_set.register(RclExecutableKind::Service), Ok(0));
    assert_eq!(poll_set.register(RclExecutableKind::Service), Ok(1));
    poll_set.set_ready(RclExecutableKind::Service, 1);
    poll_set.set_ready(RclExecutableKind::Service, 7);
    assert!(!poll_set.is_ready(RclExecutableKind::Service, 0));
    assert!(poll_set.is_ready(RclExecutableKind::Service, 1));
    assert!(!poll_set.is_ready(RclExecutableKind::Service, 7));
    assert!(!poll_set.is_ready(RclExecutableKind::Timer, 1));
    poll_set.clear();
    assert!(!poll_set.is_ready(RclExecutableKind::Service, 1));
    assert_eq!(poll_set.capacity(), count);
}

#[test]
fn rebuild_counts_live_waitables_and_resizes_on_change() {
    let runs = Arc::new(AtomicUsize::new(0));
    let mut wait_set: WaitSet<Probe> = WaitSet::new();
    let (w1, l1) = Waitable::new(probe(RclExecutableKind::Subscription, &runs), None);
    let (w2, _l2) = Waitable::new(probe(RclExecutableKind::Subscription, &runs), None);
    let (w3, _l3) = Waitable::new(probe(RclExecutableKind::Timer, &runs), None);
    assert!(!w1.in_wait_set());
    assert!(w1.in_use());
    wait_set.add_waitable(w1);
    wait_set.add_waitable(w2);
    wait_set.add_waitable(w3);

    let (removed, resized) = wait_set.rebuild();
    assert!(removed.is_empty());
    assert!(resized);
    let mut expected = WaitableCount::new();
    expected.add(RclExecutableKind::Subscription, 2);
    expected.add(RclExecutableKind::Timer, 1);
    assert_eq!(wait_set.poll_set().capacity(), expected);
    assert_eq!(wait_set.poll_set().filled(RclExecutableKind::Subscription), 2);

    // Nothing changed: the next cycle only clears.
    let (removed, resized) = wait_set.rebuild();
    assert!(removed.is_empty());
    assert!(!resized);

    // One lifecycle dropped: the next cycle resizes.
    drop(l1);
    let (removed, resized) = wait_set.rebuild();
    assert_eq!(removed.len(), 1);
    assert!(!removed[0].in_use());
    assert!(resized);
    assert_eq!(wait_set.len(), 2);
    expected = WaitableCount::new();
    expected.add(RclExecutableKind::Subscription, 1);
    expected.add(RclExecutableKind::Timer, 1);
    assert_eq!(wait_set.poll_set().capacity(), expected);

    // One added: the next cycle resizes again.
    let (w4, _l4) = Waitable::new(probe(RclExecutableKind::Client, &runs), None);
    wait_set.add_waitable(w4);
    let (_, resized) = wait_set.rebuild();
    assert!(resized);
    assert_eq!(wait_set.poll_set().capacity().get(RclExecutableKind::Client), 1);
}

#[test]
fn dropped_lifecycle_is_never_ready_after_rebuild() {
    let runs = Arc::new(AtomicUsize::new(0));
    let guard = Arc::new(GuardCondition::new());
    let mut wait_set: WaitSet<Probe> = WaitSet::new();
    let (w1, l1) = Waitable::new(probe(RclExecutableKind::Timer, &runs), Some(Arc::clone(&guard)));
    let (w2, _l2) = Waitable::new(probe(RclExecutableKind::Timer, &runs), None);
    wait_set.add_waitable(w1);
    wait_set.add_waitable(w2);
    wait_set.rebuild();
    wait_set.set_ready(RclExecutableKind::Timer, 0);
    wait_set.set_ready(RclExecutableKind::Timer, 1);
    assert_eq!(wait_set.ready_positions(), vec![0, 1]);

    assert!(!guard.take_trigger());
    drop(l1);
    assert!(guard.take_trigger());
    assert!(!guard.take_trigger());

    let (removed, _) = wait_set.rebuild();
    assert_eq!(removed.len(), 1);
    assert!(!removed[0].in_wait_set());
    wait_set.set_ready(RclExecutableKind::Timer, 0);
    wait_set.set_ready(RclExecutableKind::Timer, 1);
    assert!(!removed[0].is_ready(wait_set.poll_set()));
    assert_eq!(wait_set.ready_positions(), vec![0]);
    assert_eq!(wait_set.len(), 1);
}

#[test]
fn only_ready_waitables_are_found_and_errors_are_folded() {
    let runs = Arc::new(AtomicUsize::new(0));
    let mut wait_set: WaitSet<Probe> = WaitSet::new();
    let (w1, _l1) = Waitable::new(probe(RclExecutableKind::Service, &runs), None);
    let (w2, _l2) = Waitable::new(probe(RclExecutableKind::Client, &runs), None);
    let (w3, _l3) = Waitable::new(probe(RclExecutableKind::Service, &runs), None);
    let (w4, _l4) = Waitable::new(probe(RclExecutableKind::Timer, &runs), None);
    wait_set.add_waitable(w1);
    wait_set.add_waitable(w2);
    wait_set.add_waitable(w3);
    wait_set.add_waitable(w4);
    wait_set.rebuild();
    assert!(wait_set.ready_positions().is_empty());
    wait_set.set_ready(RclExecutableKind::Service, 1);
    wait_set.set_ready(RclExecutableKind::Client, 0);
    assert_eq!(wait_set.ready_positions(), vec![1, 2]);
    assert_eq!(wait_set.slot(2), Some(1));
    assert_eq!(wait_set.slot(3), Some(0));
    assert_eq!(wait_set.executable(2).kind, RclExecutableKind::Service);
    assert_eq!(wait_set.executable(1).kind, RclExecutableKind::Client);
}

#[test]
fn errors_are_folded_in_order_without_spurious_wakeups() {
    let outcomes = vec![
        Ok(()),
        Err(RclrsError::Middleware { code: 3 }),
        Err(RclrsError::TakeFailed),
        Err(RclrsError::WaitSetFull { kind: RclExecutableKind::Timer }),
        Ok(()),
    ];
    assert_eq!(
        errors_of(outcomes),
        vec![
            RclrsError::Middleware { code: 3 },
            RclrsError::WaitSetFull { kind: RclExecutableKind::Timer }
        ]
    );
    assert!(errors_of(vec![Ok(()), Err(RclrsError::TakeFailed)]).is_empty());
    assert!(errors_of(Vec::new()).is_empty());
}

#[test]
fn waitable_registration_fails_without_room() {
    let runs = Arc::new(AtomicUsize::new(0));
    let (mut w, _l) = Waitable::new(probe(RclExecutableKind::Event, &runs), None);
    assert_eq!(w.kind(), RclExecutableKind::Event);
    let mut poll_set = PollSet::initialize(&WaitableCount::new());
    assert_eq!(w.add_to_wait_set(&mut poll_set), Err(RclrsError::WaitSetFull { kind: RclExecutableKind::Event }));
    assert!(!w.in_wait_set());
    let mut one = WaitableCount::new();
    one.add(RclExecutableKind::Event, 1);
    poll_set.resize(&one);
    assert_eq!(w.add_to_wait_set(&mut poll_set), Ok(()));
    assert!(w.in_wait_set());
    assert!(!w.is_ready(&poll_set));
    poll_set.set_ready(RclExecutableKind::Event, 0);
    assert!(w.is_ready(&poll_set));
    assert_eq!(w.slot(), Some(0));
    assert_eq!(w.executable().kind, RclExecutableKind::Event);
    w.leave_wait_set();
    assert!(!w.is_ready(&poll_set));
}

#[test]
fn take_outcomes() {
    assert_eq!(rclrs::take_outcome(Ok(())), Ok(true));
    assert_eq!(rclrs::take_outcome(Err(RclrsError::TakeFailed)), Ok(false));
    assert_eq!(
        rclrs::take_outcome(Err(RclrsError::Middleware { code: 7 })),
        Err(RclrsError::Middleware { code: 7 })
    );
}

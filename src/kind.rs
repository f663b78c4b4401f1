use vstd::prelude::*;

verus! {

/// Errors reported by the executor core.
#[derive(Debug, Clone, PartialEq, Eq)]
pub enum RclrsError {
    /// The name `name` holds a nul byte, the first at this byte position, and
    /// cannot be handed to the middleware.
    StringContainsNul { position: usize, name: String },
    /// A primitive was registered into a poll set that has no free slot of
    /// its kind: the poll set must be resized first.
    WaitSetFull { kind: RclExecutableKind },
    /// A take found nothing to take: a spurious wakeup.
    TakeFailed,
    /// Any other failure reported by the middleware, with its return code.
    Middleware { code: i32 },
}

/// What one take on a ready primitive amounts to: `Ok(true)` when something
/// was taken, `Ok(false)` when nothing was there (a spurious wakeup, which is
/// no error), and any other error as it came.
pub fn take_outcome(result: Result<(), RclrsError>) -> (r: Result<bool, RclrsError>)
    ensures
        match result {
            Ok(()) => r == Ok::<bool, RclrsError>(true),
            Err(RclrsError::TakeFailed) => r == Ok::<bool, RclrsError>(false),
            Err(e) => r == Err::<bool, RclrsError>(e),
        },
{
    match result {
        Ok(()) => Ok(true),
        Err(RclrsError::TakeFailed) => Ok(false),
        Err(e) => Err(e),
    }
}

/// The errors among `outcomes` that are worth reporting, in order: every
/// error but a take that found nothing.
pub open spec fn reported(outcomes: Seq<Result<(), RclrsError>>) -> Seq<RclrsError>
    decreases outcomes.len(),
{
    if outcomes.len() == 0 {
        Seq::empty()
    } else {
        let prev = reported(outcomes.drop_last());
        match outcomes.last() {
            Err(e) => if e is TakeFailed {
                prev
            } else {
                prev.push(e)
            },
            Ok(()) => prev,
        }
    }
}

/// Fold the outcomes of the primitives run in one cycle into the errors to
/// report, keeping their order; spurious wakeups are dropped.
pub fn errors_of(outcomes: Vec<Result<(), RclrsError>>) -> (r: Vec<RclrsError>)
    ensures
        r@ == reported(outcomes@),
{
    let ghost all = outcomes@;
    let mut rest = outcomes;
    let mut errors: Vec<RclrsError> = Vec::new();
    let ghost n = all.len();
    let total = rest.len();
    let mut i: usize = 0;
    while rest.len() > 0
        invariant
            n == all.len(),
            total == n,
            rest@ == all.subrange(i as int, n as int),
            i <= n,
            errors@ == reported(all.take(i as int)),
        decreases n - i,
    {
        let outcome = rest.remove(0);
        assert(outcome == all[i as int]);
        proof {
            assert(all.take(i + 1).drop_last() =~= all.take(i as int));
        }
        match take_outcome(outcome) {
            Err(e) => errors.push(e),
            Ok(_) => {},
        }
        assert(rest@ =~= all.subrange(i + 1, n as int));
        i = i + 1;
    }
    proof {
        assert(all.take(n as int) =~= all);
    }
    errors
}

/// The closed set of primitive kinds that share one poll set.
#[derive(Debug, Clone, Copy, PartialEq, Eq, Structural, Hash)]
pub enum RclExecutableKind {
    Subscription,
    GuardCondition,
    Timer,
    Client,
    Service,
    Event,
}

/// The handle of a primitive, tagged with its kind, as the poll set needs it
/// for registration.
pub enum RclExecutableHandle<P> {
    Subscription(P),
    GuardCondition(P),
    Timer(P),
    Client(P),
    Service(P),
    Event(P),
}

impl<P> RclExecutableHandle<P> {
    /// The kind that a handle's variant stands for.
    pub open spec fn spec_kind(&self) -> RclExecutableKind {
        match self {
            RclExecutableHandle::Subscription(_) => RclExecutableKind::Subscription,
            RclExecutableHandle::GuardCondition(_) => RclExecutableKind::GuardCondition,
            RclExecutableHandle::Timer(_) => RclExecutableKind::Timer,
            RclExecutableHandle::Client(_) => RclExecutableKind::Client,
            RclExecutableHandle::Service(_) => RclExecutableKind::Service,
            RclExecutableHandle::Event(_) => RclExecutableKind::Event,
        }
    }

    /// Get the equivalent [`RclExecutableKind`] for this primitive.
    pub fn kind(&self) -> (r: RclExecutableKind)
        ensures
            r == self.spec_kind(),
    {
        match self {
            RclExecutableHandle::Subscription(_) => RclExecutableKind::Subscription,
            RclExecutableHandle::GuardCondition(_) => RclExecutableKind::GuardCondition,
            RclExecutableHandle::Timer(_) => RclExecutableKind::Timer,
            RclExecutableHandle::Client(_) => RclExecutableKind::Client,
            RclExecutableHandle::Service(_) => RclExecutableKind::Service,
            RclExecutableHandle::Event(_) => RclExecutableKind::Event,
        }
    }
}

/// The public API for executing a primitive of the middleware.
pub trait RclExecutable {
    /// Trigger this executable to run.
    fn execute(&mut self) -> Result<(), RclrsError>;

    /// Indicate what kind of executable this is.
    fn kind(&self) -> RclExecutableKind;
}

} // verus!

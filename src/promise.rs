use vstd::prelude::*;

use futures::channel::oneshot::{Canceled, Receiver, Sender};

verus! {

/// `futures::channel::oneshot::Sender`, carried through as an opaque value.
#[verifier::external_type_specification]
#[verifier::external_body]
#[verifier::reject_recursive_types(T)]
pub struct ExSender<T>(Sender<T>);

/// `futures::channel::oneshot::Receiver`, carried through as an opaque value.
#[verifier::external_type_specification]
#[verifier::external_body]
#[verifier::reject_recursive_types(T)]
pub struct ExReceiver<T>(Receiver<T>);

/// `futures::channel::oneshot::Canceled`, the error of a promise whose
/// sender was dropped; declared because the receiver's `Future` impl names it.
#[verifier::external_type_specification]
#[verifier::external_body]
pub struct ExCanceled(Canceled);

/// The caller's side of one call: it resolves once, with the response, or
/// fails when its sender is dropped unresolved.
pub type Promise<T> = Receiver<T>;

/// The engine's side of one call: the one write into its [`Promise`].
pub type PromiseSender<T> = Sender<T>;

/// Relies on `futures::channel::oneshot::channel`: a new sender and receiver
/// that are linked to each other and to nothing else.
#[verifier::external_body]
pub(crate) fn promise_channel<T>() -> (r: (PromiseSender<T>, Promise<T>)) {
    futures::channel::oneshot::channel()
}

/// Relies on `futures::channel::oneshot::Sender::send`: it consumes the
/// sender, and when the receiver is gone it hands the value back unchanged.
#[verifier::external_body]
pub(crate) fn fulfil<T>(sender: PromiseSender<T>, value: T) -> (r: Result<(), T>)
    ensures
        r is Err ==> r->Err_0 == value,
{
    sender.send(value)
}

} // verus!

//! The notification capability that the registry stores and invokes.

use core::task::Waker;
use vstd::prelude::*;

verus! {

/// `core::task::Waker`, carried through the registry as an opaque value: the
/// registry stores it, hands it back to be invoked, and never looks inside.
#[verifier::external_type_specification]
#[verifier::external_body]
pub struct ExWaker(core::task::Waker);

/// Calls `core::task::Waker::wake_by_ref`, which notifies the task behind
/// `waker` and returns nothing. No claim is made about what the notification
/// does.
#[verifier::external_body]
pub(crate) fn notify(waker: &Waker) {
    waker.wake_by_ref()
}

} // verus!

//! Why an actor operation fails.
use vstd::prelude::*;

verus! {

/// Errors of the actor layer.
#[derive(Clone, Debug, PartialEq, Eq)]
pub enum Error {
    /// The message was refused, or the handler failed.
    Core(crate::message::error::Error),
    /// The pool refused.
    Shm(crate::artifact::error::Error),
    /// The task failed: the handler did, or every attempt died.
    Failed,
    /// The task was cancelled.
    Cancelled,
    /// The ask was answered without a body.
    NoReply,
    /// The reply is not the one to this ask.
    BadReply { kind: u16, got: u64, expected: u64 },
    /// There is no actor to run.
    NoActor,
    /// There already is an actor with this id.
    DuplicateActor(u64),
}

} // verus!

//! Errors of the harness.
use vstd::prelude::*;

verus! {

/// What can go wrong in the harness.
#[derive(Debug, Clone, Copy, PartialEq, Eq, Structural)]
pub enum DtmError {
    /// A typed value does not have the shape its kind asks for.
    MalformedValue,
    /// The expected action did not arrive before the wait ran out.
    Mismatch,
    /// A blocking call exceeded its limit.
    Timeout,
    /// The control channel was closed before a request could be sent.
    SendError,
    /// The reply handle was dropped before an answer came.
    RecvError,
    /// A reply did not answer the request it was paired with, or a
    /// rendezvous slot was filled twice.
    InvariantViolation,
}

} // verus!

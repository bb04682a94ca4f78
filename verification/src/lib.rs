//! A state-flush scheduling engine.
//!
//! Each registered state type owns a channel that holds a committed current
//! value, a pending next value and a flush flag. Every tick resolves the
//! channels in an order derived from the declared dependencies between state
//! types: an optional compute phase derives the pending value from other
//! channels' pending values, a trigger phase decides whether the channel
//! flushes, the flush phases report which registered hooks fire, and a final
//! apply phase commits pending values and publishes flush events.

pub mod app;
pub mod channel;
pub mod pattern;
pub mod schedule;
pub mod storage;

use vstd::prelude::*;

verus! {

/// Errors raised by the engine. Structural and configuration errors are
/// reported at registration or build time; reading an absent value is a
/// recoverable per-tick result.
#[derive(Clone, Copy, Debug, PartialEq, Eq, Structural)]
pub enum StateError {
    /// A state type was re-registered with an incompatible configuration,
    /// or its configuration refers to a state type that does not exist.
    RegistrationConflict,
    /// The declared dependency edges cannot be ordered consistently.
    CycleError,
    /// The requested current or next value is absent.
    MissingValue,
}

/// Whether an optional value is present; a present current value means the
/// state type is enabled, a present next value that it will be enabled.
pub open spec fn present(v: Option<u64>) -> bool {
    match v {
        Some(_) => true,
        None => false,
    }
}

/// Equality of optional values, the domain equality used by change detection.
pub fn opt_eq(a: Option<u64>, b: Option<u64>) -> (r: bool)
    ensures
        r == (a == b),
{
    match (a, b) {
        (None, None) => true,
        (Some(x), Some(y)) => x == y,
        _ => false,
    }
}

} // verus!

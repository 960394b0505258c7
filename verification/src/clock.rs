//! The engine's only contact with the outside world: reading the monotonic
//! clock. Nothing is promised of the values read — they depend on the time
//! of the call — so everything computed from them is verified for every
//! possible reading.

use vstd::prelude::*;

verus! {

/// `std::time::Instant` carried opaquely through the call stack.
#[verifier::external_type_specification]
#[verifier::external_body]
pub struct ExInstant(std::time::Instant);

/// Relies on std::time::Instant::now: one reading of the monotonic clock.
/// The value depends on when the call happens, so nothing is promised of it.
#[verifier::external_body]
pub(crate) fn instant_now() -> std::time::Instant {
    std::time::Instant::now()
}

/// Relies on std::time::Instant::elapsed and std::time::Duration::as_nanos:
/// the nanoseconds from `start` to the clock's present reading. The value
/// depends on when the call happens, so nothing is promised of it.
#[verifier::external_body]
pub(crate) fn elapsed_nanos(start: &std::time::Instant) -> u128 {
    start.elapsed().as_nanos()
}

} // verus!

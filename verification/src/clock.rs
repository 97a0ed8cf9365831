//! Wall-clock readings for query diagnostics.

use vstd::prelude::*;

verus! {

/// Declares std::time::Instant so that a timestamp can pass between the
/// two readings; the value is opaque to the verifier.
#[verifier::external_type_specification]
#[verifier::external_body]
pub struct ExInstant(std::time::Instant);

/// Relies on std::time::Instant::now for an opaque monotonic timestamp.
/// Nothing is promised of the value: it depends on the clock.
#[verifier::external_body]
pub(crate) fn instant_now() -> std::time::Instant {
    std::time::Instant::now()
}

/// Relies on std::time::Instant::elapsed for the time since `start`, here
/// converted to whole microseconds. Nothing is promised of the value: it
/// depends on the clock.
#[verifier::external_body]
pub(crate) fn elapsed_micros(start: &std::time::Instant) -> u64 {
    start.elapsed().as_micros() as u64
}

} // verus!

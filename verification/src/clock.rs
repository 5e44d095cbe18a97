//! The wall clock, behind trusted declarations: the search budget is
//! enforced against it.

use vstd::prelude::*;

verus! {

#[verifier::external_type_specification]
#[verifier::external_body]
pub struct ExInstant(std::time::Instant);

/// Relies on `std::time::Instant::now`: an opaque reading of the monotonic
/// clock. Nothing can be promised of a clock reading.
#[verifier::external_body]
pub(crate) fn clock_now() -> std::time::Instant {
    std::time::Instant::now()
}

/// Relies on `std::time::Instant::elapsed`: the time since `start`, here
/// converted to whole milliseconds, saturating at `u64::MAX`. Nothing can be
/// promised of a clock reading.
#[verifier::external_body]
pub(crate) fn elapsed_millis(start: &std::time::Instant) -> u64 {
    u64::try_from(start.elapsed().as_millis()).unwrap_or(u64::MAX)
}

} // verus!

//! Reading the clock, for searches that run against a time budget.
use vstd::prelude::*;

verus! {

/// Declares `std::time::Instant` to Verus as an opaque type.
#[verifier::external_type_specification]
#[verifier::external_body]
pub struct ExInstant(std::time::Instant);

/// `Instant::now`: the current moment. Nothing is promised of it.
#[verifier::external_body]
pub fn now() -> std::time::Instant {
    std::time::Instant::now()
}

/// `Instant::elapsed`: the time since `start`. Nothing is promised of it.
#[verifier::external_body]
pub fn elapsed(start: &std::time::Instant) -> std::time::Duration {
    start.elapsed()
}

/// `Duration::as_millis`: whole milliseconds of `d`. Nothing is promised
/// of it, as the duration itself is opaque.
#[verifier::external_body]
pub fn as_millis(d: &std::time::Duration) -> u128 {
    d.as_millis()
}

/// At least `ms` milliseconds have passed since `start`.
pub fn expired(start: &std::time::Instant, ms: u64) -> bool {
    let passed = elapsed(start);
    as_millis(&passed) >= ms as u128
}

} // verus!

//! The monotonic clock that read timeouts are measured on.

use vstd::prelude::*;

verus! {

#[verifier::external_type_specification]
#[verifier::external_body]
pub struct ExInstant(std::time::Instant);

/// The current instant (`Instant::now`).
#[verifier::external_body]
pub(crate) fn clock_start() -> std::time::Instant {
    std::time::Instant::now()
}

/// The time since `start` (`Instant::elapsed`). Nothing is promised of the
/// value: the clock is the machine's.
#[verifier::external_body]
fn since(start: &std::time::Instant) -> std::time::Duration {
    start.elapsed()
}

/// The whole microseconds of `duration` (`Duration::as_micros`).
#[verifier::external_body]
fn micros(duration: &std::time::Duration) -> u128 {
    duration.as_micros()
}

/// Microseconds since `start`, at most `u64::MAX`.
pub(crate) fn elapsed_us(start: &std::time::Instant) -> u64 {
    let us = micros(&since(start));
    if us > u64::MAX as u128 {
        u64::MAX
    } else {
        us as u64
    }
}

} // verus!

//! Trusted boundary to the monotonic clock, used only to report the
//! wall-clock duration of the sweep loop.
use vstd::prelude::*;

use std::time::{Duration, Instant};

verus! {

#[verifier::external_type_specification]
#[verifier::external_body]
pub struct ExInstant(Instant);

/// Relies on std's Instant::now: a point on the monotonic clock.
#[verifier::external_body]
pub(crate) fn time_now() -> Instant {
    Instant::now()
}

/// Relies on std's Instant::elapsed: the time passed since the point
/// was taken.
#[verifier::external_body]
pub(crate) fn time_elapsed(t: &Instant) -> Duration {
    t.elapsed()
}

/// Relies on std's Duration::as_micros: the duration in whole
/// microseconds, truncated into 64 bits.
#[verifier::external_body]
pub(crate) fn duration_micros(d: &Duration) -> u64 {
    d.as_micros() as u64
}

} // verus!

//! The clock that compactions are timed with.

use std::time::{Duration, Instant};

use vstd::prelude::*;

verus! {

/// A reading of the monotonic clock of std.
#[verifier::external_type_specification]
#[verifier::external_body]
pub struct ExInstant(Instant);

/// Calls `Instant::now` of std. Nothing is claimed of the reading.
#[verifier::external_body]
pub(crate) fn now() -> (reading: Instant) {
    Instant::now()
}

/// Calls `Instant::elapsed` of std, the time that has passed since `started`. Nothing is claimed of
/// it.
#[verifier::external_body]
pub(crate) fn elapsed_since(started: &Instant) -> (elapsed: Duration) {
    started.elapsed()
}

} // verus!

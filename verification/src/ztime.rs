//! A clockless instant, for targets without a clock.
use vstd::prelude::*;

verus! {

/// A point in time on a target with no clock: every instant is the same.
#[derive(Clone, Copy)]
pub struct Instant;

/// The zero-length duration: std's `core::time::Duration::ZERO`. Nothing is
/// stated of the result; `Duration` is opaque here.
#[verifier::external_body]
fn zero_duration() -> core::time::Duration {
    core::time::Duration::ZERO
}

impl Instant {
    pub fn now() -> (r: Self)
        ensures
            r == Instant,
    {
        Instant
    }

    /// Always the zero duration.
    pub fn elapsed(&self) -> core::time::Duration {
        zero_duration()
    }
}

} // verus!

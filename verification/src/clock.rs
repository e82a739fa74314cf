//! The monotonic clock the scheduler reads its time points from.

use vstd::prelude::*;
use std::time::Instant;

verus! {

#[verifier::external_type_specification]
#[verifier::external_body]
pub struct ExInstant(Instant);

/// Calls `std::time::Instant::now`; nothing is claimed of the instant it
/// returns.
#[verifier::external_body]
fn instant_now() -> Instant {
    Instant::now()
}

/// Calls `std::time::Instant::elapsed` on `origin` and gives the elapsed
/// time in nanoseconds; nothing is claimed of it, since it depends on when
/// the call is made.
#[verifier::external_body]
fn elapsed_nanos(origin: &Instant) -> u64 {
    origin.elapsed().as_nanos() as u64
}

/// A clock whose readings are nanoseconds since the clock was created.
pub struct Clock {
    origin: Instant,
}

impl Clock {
    /// A clock started now.
    pub fn new() -> Clock {
        Clock { origin: instant_now() }
    }

    /// The current reading.
    pub fn now(&self) -> u64 {
        elapsed_nanos(&self.origin)
    }
}

} // verus!

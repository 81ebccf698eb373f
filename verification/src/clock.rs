//! A monotonic clock reading nanoseconds since its creation.

use vstd::prelude::*;
use std::time::Instant;

verus! {

#[verifier::external_type_specification]
#[verifier::external_body]
pub struct ExInstant(std::time::Instant);

/// `Instant::now`: the current instant (nothing is claimed of it).
#[verifier::external_body]
fn instant_now() -> Instant {
    Instant::now()
}

/// `Instant::elapsed` in nanoseconds (`Duration::as_nanos`); the value
/// depends on the time of the call, so nothing is claimed of it.
#[verifier::external_body]
fn elapsed_nanos(t: &Instant) -> u128 {
    t.elapsed().as_nanos()
}

/// Nanoseconds from `then` to `now`, zero when `now` is earlier (as
/// `Instant::elapsed` saturates).
pub open spec fn elapsed_ns(now: u128, then: u128) -> int {
    if now >= then {
        now - then
    } else {
        0
    }
}

/// A clock counting nanoseconds from the moment it was made: its readings
/// start at zero then and never go back.
#[derive(Clone, Copy)]
pub struct Clock {
    origin: Instant,
    last: u128,
}

impl Clock {
    /// The latest reading of the clock.
    pub closed spec fn last_reading(&self) -> u128 {
        self.last
    }

    pub fn new() -> (r: Self)
        ensures
            r.last_reading() == 0,
    {
        Clock { origin: instant_now(), last: 0 }
    }

    /// Nanoseconds since the clock was made; never less than an earlier
    /// reading (as `Instant` is monotonic, the larger value is the new one).
    pub fn now_ns(&mut self) -> (r: u128)
        ensures
            r >= old(self).last_reading(),
            final(self).last_reading() == r,
    {
        let t = elapsed_nanos(&self.origin);
        if t > self.last {
            self.last = t;
        }
        self.last
    }
}

} // verus!

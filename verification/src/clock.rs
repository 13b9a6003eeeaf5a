//! The clocks by which entries of the store age.

use std::time::{Duration, Instant, UNIX_EPOCH};
use vstd::prelude::*;

verus! {

/// `std::time::Instant`: a reading of the monotonic clock of the machine.
/// Nothing inside it is seen.
#[verifier::external_type_specification]
#[verifier::external_body]
pub struct ExInstant(std::time::Instant);

/// `std::time::Instant::now`: the reading of the monotonic clock now. Nothing
/// is claimed of the value.
pub assume_specification[ std::time::Instant::now ]() -> (r: std::time::Instant);

/// `std::time::Instant::elapsed`: the time that has passed on the monotonic
/// clock since the reading. Nothing is claimed of the value.
pub assume_specification[ std::time::Instant::elapsed ](since: &std::time::Instant) -> (r:
    std::time::Duration);

/// `std::time::Duration::as_millis`: the whole milliseconds in a duration.
/// Nothing is claimed of the value.
pub assume_specification[ std::time::Duration::as_millis ](d: &std::time::Duration) -> (r: u128);

/// `std::time::SystemTime::elapsed`, called on `UNIX_EPOCH`: the time that has
/// passed since the Unix epoch by the system clock, or nothing where the
/// system clock stands before the epoch. Nothing is claimed of the value.
#[verifier::external_body]
fn since_epoch() -> (r: Option<Duration>) {
    UNIX_EPOCH.elapsed().ok()
}

/// A number of milliseconds as 64 bits hold it: the number itself, or the
/// largest value where 64 bits do not hold it.
fn millis_of(ms: u128) -> (held: u64)
    ensures
        held == if ms <= u64::MAX { ms as u64 } else { u64::MAX },
{
    if ms > 0xffff_ffff_ffff_ffff { 0xffff_ffff_ffff_ffff } else { ms as u64 }
}

/// The reading of the system clock now, in milliseconds since the Unix
/// epoch.
///
/// A clock that stands before the epoch reads 0, and one that is further
/// from the epoch than 64 bits hold reads the largest value. The reading
/// depends on the moment of the call and on nothing else.
pub fn now_millis() -> (now: u64) {
    match since_epoch() {
        Some(d) => millis_of(d.as_millis()),
        None => 0,
    }
}

/// A clock for a running server. It is set by the system clock when it is
/// started, and goes on by the monotonic clock from there: its readings are
/// milliseconds since the Unix epoch, and do not follow the system clock
/// where that is set anew.
#[derive(Debug, Clone, Copy)]
pub struct Clock {
    origin: Instant,
    started_at: u64,
}

impl Clock {
    /// The reading at which the clock was started.
    pub closed spec fn started_at(&self) -> u64 {
        self.started_at
    }

    /// Starts a clock.
    pub fn start() -> (clock: Clock) {
        Clock { origin: Instant::now(), started_at: now_millis() }
    }

    /// The reading of the clock now: the reading at which it was started and
    /// the milliseconds that have passed since, or the largest value where 64
    /// bits do not hold the sum.
    pub fn now(&self) -> (now: u64)
        ensures
            now >= self.started_at(),
    {
        let passed = millis_of(self.origin.elapsed().as_millis());
        self.started_at.saturating_add(passed)
    }
}

} // verus!

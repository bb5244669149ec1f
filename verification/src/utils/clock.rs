//! Clocks, in milliseconds: the wall clock, and a clock that never goes
//! back.
use vstd::prelude::*;
use std::time::{Instant, SystemTime};

verus! {

#[verifier::external_type_specification]
#[verifier::external_body]
pub struct ExInstant(Instant);

#[verifier::external_type_specification]
#[verifier::external_body]
pub struct ExSystemTime(SystemTime);

/// `SystemTime::now()`: the wall clock. Nothing is promised of it.
#[verifier::external_body]
fn wall_now() -> SystemTime {
    SystemTime::now()
}

/// `SystemTime::duration_since(UNIX_EPOCH)`, in whole milliseconds (0 for
/// a time before the epoch). Nothing is promised of the value.
#[verifier::external_body]
fn millis_since_epoch(t: &SystemTime) -> u64 {
    t.duration_since(std::time::UNIX_EPOCH).map(|d| d.as_millis() as u64).unwrap_or(0)
}

/// The wall clock, in milliseconds since the Unix epoch.
pub(crate) fn now_millis() -> u64 {
    let t = wall_now();
    millis_since_epoch(&t)
}

/// `Instant::now()`: the monotonic clock. Nothing is promised of it.
#[verifier::external_body]
fn instant_now() -> Instant {
    Instant::now()
}

/// `Instant::elapsed`, in whole milliseconds. Nothing is promised of the
/// value.
#[verifier::external_body]
fn millis_elapsed(origin: &Instant) -> u64 {
    origin.elapsed().as_millis() as u64
}

/// A clock that never goes back: the wall-clock time at which it was
/// started, moved on by the monotonic time since. Its readings are
/// milliseconds since the Unix epoch for as long as the system clock is not
/// set.
pub struct Clock {
    origin: Instant,
    origin_millis: u64,
}

impl Clock {
    /// The wall-clock time at which the clock was started.
    pub closed spec fn started_at(&self) -> u64 {
        self.origin_millis
    }

    /// Starts a clock.
    pub fn start() -> (r: Clock) {
        let origin = instant_now();
        let origin_millis = now_millis();
        Clock { origin, origin_millis }
    }

    /// The time now: never before the start.
    pub fn now(&self) -> (r: u64)
        ensures
            r >= self.started_at(),
    {
        self.origin_millis.saturating_add(millis_elapsed(&self.origin))
    }
}

} // verus!

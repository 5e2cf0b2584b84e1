use std::time::{Duration, Instant};

use vstd::prelude::*;

verus! {

#[verifier::external_type_specification]
#[verifier::external_body]
pub struct ExInstant(Instant);

/// `Instant::now`: the current time.
#[verifier::external_body]
fn instant_now() -> Instant {
    Instant::now()
}

/// `Instant::elapsed`: the time since `t`.
#[verifier::external_body]
fn instant_elapsed(t: &Instant) -> Duration {
    t.elapsed()
}

/// `Duration::as_nanos`: the length of `d` in whole nanoseconds.
#[verifier::external_body]
fn duration_as_nanos(d: &Duration) -> u128 {
    d.as_nanos()
}

/// A point in time that a search must not run past.
#[derive(Clone, Copy)]
pub struct Deadline {
    /// When the clock started.
    pub t_s: Instant,
    /// The time allowed, in milliseconds.
    pub time_limit_ms: u64,
}

impl Deadline {
    /// Starts the clock now, allowing `time_limit_ms` milliseconds.
    pub fn new(time_limit_ms: u64) -> (d: Self)
        ensures
            d.time_limit_ms == time_limit_ms,
    {
        Deadline { t_s: instant_now(), time_limit_ms }
    }

    /// Nanoseconds since the clock started.
    pub fn elapsed_ns(&self) -> u128 {
        let elapsed = instant_elapsed(&self.t_s);
        duration_as_nanos(&elapsed)
    }

    /// Whether more than the allowed time has passed.
    pub fn is_expired(&self) -> (r: bool) {
        expired_after(self.elapsed_ns(), self.time_limit_ms)
    }
}

/// Whether `elapsed_ns` nanoseconds are more than `time_limit_ms` milliseconds.
pub fn expired_after(elapsed_ns: u128, time_limit_ms: u64) -> (r: bool)
    ensures
        r == (elapsed_ns > time_limit_ms * 1_000_000),
{
    elapsed_ns > (time_limit_ms as u128) * 1_000_000
}

} // verus!

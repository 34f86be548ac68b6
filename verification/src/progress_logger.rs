//! A timer that tells when a periodic progress message is due. Printing the
//! message is left to the caller.
use vstd::prelude::*;
use std::time::{Duration, Instant};

verus! {

#[verifier::external_type_specification]
#[verifier::external_body]
pub struct ExInstant(Instant);

/// `Instant::now`: the current time. Nothing is claimed.
#[verifier::external_body]
fn instant_now() -> Instant {
    Instant::now()
}

/// `Instant::elapsed`: the time since `start`. Nothing is claimed.
#[verifier::external_body]
fn instant_elapsed(start: &Instant) -> Duration {
    start.elapsed()
}

/// `Duration::as_nanos`: the whole nanoseconds of a duration. Nothing is
/// claimed: `Duration` is opaque here, so the count is not tied to it.
#[verifier::external_body]
fn duration_nanos(d: &Duration) -> u128 {
    d.as_nanos()
}

/// Tracks when progress was last reported, so that reports come at most once
/// per interval.
pub struct PeriodicLogger {
    interval_nanos: u128,
    last_log_at: Instant,
}

impl PeriodicLogger {
    /// The interval between reports, in whole nanoseconds.
    pub closed spec fn spec_interval_nanos(&self) -> nat {
        self.interval_nanos as nat
    }

    /// When progress was last reported.
    pub closed spec fn spec_last_log_at(&self) -> Instant {
        self.last_log_at
    }

    /// A logger whose reports come at most once per `interval_nanos`
    /// nanoseconds, with its timer starting now.
    pub fn new(interval_nanos: u128) -> (logger: Self)
        ensures
            logger.spec_interval_nanos() == interval_nanos,
    {
        PeriodicLogger { interval_nanos, last_log_at: instant_now() }
    }

    /// Whether a report is due after `elapsed_nanos` nanoseconds since the last
    /// one: exactly when they reach the interval, in which case the timer
    /// restarts; otherwise nothing changes.
    pub fn heartbeat_after(&mut self, elapsed_nanos: u128) -> (due: bool)
        ensures
            due == (elapsed_nanos >= old(self).spec_interval_nanos()),
            final(self).spec_interval_nanos() == old(self).spec_interval_nanos(),
            !due ==> final(self).spec_last_log_at() == old(self).spec_last_log_at(),
    {
        if elapsed_nanos >= self.interval_nanos {
            self.last_log_at = instant_now();
            true
        } else {
            false
        }
    }

    /// Whether a report is due: the time since the last report is read from
    /// the clock, and the answer is that of `heartbeat_after` for it.
    pub fn heartbeat(&mut self) -> (due: bool)
        ensures
            final(self).spec_interval_nanos() == old(self).spec_interval_nanos(),
            !due ==> final(self).spec_last_log_at() == old(self).spec_last_log_at(),
    {
        let elapsed = instant_elapsed(&self.last_log_at);
        let elapsed_nanos = duration_nanos(&elapsed);
        self.heartbeat_after(elapsed_nanos)
    }

    /// Restarts the timer after an unconditional report.
    pub fn immediate(&mut self)
        ensures
            final(self).spec_interval_nanos() == old(self).spec_interval_nanos(),
    {
        self.last_log_at = instant_now();
    }

    /// Restarts the timer without a report.
    pub fn reset(&mut self)
        ensures
            final(self).spec_interval_nanos() == old(self).spec_interval_nanos(),
    {
        self.last_log_at = instant_now();
    }

    /// The time since the last report.
    pub fn elapsed_since_last_log(&self) -> Duration {
        instant_elapsed(&self.last_log_at)
    }
}

} // verus!

//! Pacing timers.  The clock itself is outside what can be reasoned
//! about, so each timer splits into a verified decision over plain
//! millisecond counts and small trusted clock reads.  The decisions
//! (`pause_left`, `period_expired`, `millis_gained`) carry exact
//! contracts and are verified for every clock value; the methods wire
//! them to the clock and state whatever holds of any reading.

use vstd::prelude::*;

verus! {

#[verifier::external_type_specification]
#[verifier::external_body]
pub struct ExInstant(std::time::Instant);

/// Relies on `std::time::Instant::now`: a sample of the monotonic clock.
/// Nothing can be promised of a clock sample.
#[verifier::external_body]
fn instant_now() -> (r: std::time::Instant) {
    std::time::Instant::now()
}

/// Relies on `std::time::Instant::elapsed`: the time since the sample
/// was taken, saturating to zero rather than failing on clock anomalies.
/// Nothing can be promised of a clock reading.
#[verifier::external_body]
fn instant_elapsed(t: &std::time::Instant) -> (r: std::time::Duration) {
    t.elapsed()
}

/// Relies on `core::time::Duration::as_millis`: the duration as a whole
/// number of milliseconds.
#[verifier::external_body]
fn duration_as_millis(d: std::time::Duration) -> (r: u128) {
    d.as_millis()
}

/// Whole milliseconds since the sample was taken.
fn millis_since(t: &std::time::Instant) -> (r: u128) {
    duration_as_millis(instant_elapsed(t))
}

/// How much of a pause of `pause` milliseconds is left once `elapsed`
/// milliseconds of it have passed.
pub fn pause_left(pause: u64, elapsed: u128) -> (r: u64)
    ensures
        r as u128 == if elapsed >= pause as u128 { 0u128 } else { (pause as u128 - elapsed) as u128 },
{
    if elapsed >= pause as u128 {
        0
    } else {
        pause - elapsed as u64
    }
}

/// Whether a period of `period` milliseconds has fully passed after
/// `elapsed` milliseconds.
pub fn period_expired(period: u64, elapsed: u128) -> (r: bool)
    ensures
        r == (elapsed > period as u128),
{
    elapsed > period as u128
}

/// The forward step between two running millisecond totals; zero when
/// the clock stood still or stepped back.
pub fn millis_gained(total_now: u128, total_before: u128) -> (r: u128)
    ensures
        r == if total_now >= total_before { (total_now - total_before) as u128 } else { 0u128 },
{
    if total_now >= total_before {
        total_now - total_before
    } else {
        0
    }
}

/// Paces the client's sends.  The timer only decides how long the caller
/// should still sleep; the sleeping itself belongs to the caller that
/// owns the thread.
pub struct SleepTimer {
    /// The configured pause between sends, in milliseconds.
    pub time_millis: u64,
    /// When the current pacing interval started.
    pub instant: std::time::Instant,
}

impl SleepTimer {
    pub fn new(sleep_in_millis: u64) -> (r: SleepTimer)
        ensures
            r.time_millis == sleep_in_millis,
    {
        SleepTimer { time_millis: sleep_in_millis, instant: instant_now() }
    }

    /// Milliseconds of the configured pause not yet spent since the last
    /// mark: `pause_left` of the pause and the clock reading, so never
    /// more than the pause itself.
    pub fn remaining_millis(&self) -> (r: u64)
        ensures
            r <= self.time_millis,
    {
        let e = millis_since(&self.instant);
        pause_left(self.time_millis, e)
    }

    /// Starts the next pacing interval.
    pub fn mark(&mut self)
        ensures
            final(self).time_millis == old(self).time_millis,
    {
        self.instant = instant_now();
    }
}

/// Fires at most once per configured period: the server loop broadcasts
/// on each firing.
pub struct WaitTimer {
    /// The configured period, in milliseconds.
    pub time_millis: u64,
    /// When the period started.
    pub instant: std::time::Instant,
}

impl WaitTimer {
    pub fn new(millis: u64) -> (r: WaitTimer)
        ensures
            r.time_millis == millis,
    {
        WaitTimer { time_millis: millis, instant: instant_now() }
    }

    /// Fires exactly when `period_expired` says the period has passed
    /// since the last firing, and then starts the next period; on a
    /// non-firing call the timer is left exactly as it was.
    pub fn continue_execution(&mut self) -> (r: bool)
        ensures
            final(self).time_millis == old(self).time_millis,
            !r ==> *final(self) == *old(self),
    {
        let e = millis_since(&self.instant);
        if period_expired(self.time_millis, e) {
            self.instant = instant_now();
            true
        } else {
            false
        }
    }
}

/// Reports the milliseconds that passed between consecutive calls, as
/// far as the clock tells them.
pub struct ElapsedTimer {
    /// Total milliseconds seen up to the previous call.
    pub total_millis: u128,
    /// When the timer was created.
    pub instant: std::time::Instant,
}

impl ElapsedTimer {
    pub fn new() -> (r: ElapsedTimer)
        ensures
            r.total_millis == 0,
    {
        ElapsedTimer { total_millis: 0, instant: instant_now() }
    }

    /// Milliseconds since the previous call, or since construction for
    /// the first call: the running total advances to the new clock
    /// reading and the result is exactly the step it took, saturated at
    /// zero.
    pub fn elapsed(&mut self) -> (r: u128)
        ensures
            final(self).instant == old(self).instant,
            r == if final(self).total_millis >= old(self).total_millis {
                (final(self).total_millis - old(self).total_millis) as u128
            } else {
                0u128
            },
    {
        let e = millis_since(&self.instant);
        let r = millis_gained(e, self.total_millis);
        self.total_millis = e;
        r
    }
}

} // verus!

//! A restartable timer over a millisecond clock.
//!
//! A timer never reads the clock behind the caller's back in the functions
//! whose name ends in `_at`: those take the clock reading as an argument and
//! are exact. The functions without the suffix read the wall clock once and
//! hand the reading to their `_at` twin.

use vstd::prelude::*;
use std::time::Duration;
use std::time::SystemTime;

verus! {

#[verifier::external_type_specification]
#[verifier::external_body]
pub struct ExSystemTime(std::time::SystemTime);

/// `SystemTime` is `Copy`: its `clone` hands back the same instant.
pub assume_specification[ <SystemTime as Clone>::clone ](t: &SystemTime) -> (r: SystemTime)
    ensures
        r == *t,
;

/// The current wall-clock time, from `SystemTime::now`. Nothing is claimed of
/// the value.
#[verifier::external_body]
pub(crate) fn system_now() -> SystemTime {
    SystemTime::now()
}

/// The time elapsed between the Unix epoch and `t`, from
/// `SystemTime::duration_since`; `None` where `t` lies before the epoch.
/// Nothing is claimed of the value.
#[verifier::external_body]
pub(crate) fn since_epoch(t: &SystemTime) -> Option<Duration> {
    t.duration_since(std::time::UNIX_EPOCH).ok()
}

/// `Duration::as_millis`: the whole milliseconds in a duration. Nothing is
/// claimed of the value.
pub assume_specification[ Duration::as_millis ](d: &Duration) -> (ms: u128);

/// Milliseconds since the Unix epoch on the wall clock, saturating at
/// `u64::MAX`, and 0 for a clock that reads before the epoch.
pub fn now_millis() -> u64 {
    let t = system_now();
    let since = match since_epoch(&t) {
        Some(d) => Some(d.as_millis()),
        None => None,
    };
    clock_reading(since)
}

/// The clock reading that stands for a moment, given the whole milliseconds
/// between the Unix epoch and that moment, or `None` for a moment before the
/// epoch: the number of milliseconds, `u64::MAX` where it is larger than that,
/// and 0 for `None`.
pub fn clock_reading(since: Option<u128>) -> (r: u64)
    ensures
        r == match since {
            Some(ms) => if ms > u64::MAX {
                u64::MAX
            } else {
                ms as u64
            },
            None => 0u64,
        },
{
    match since {
        Some(ms) => {
            if ms > u64::MAX as u128 {
                u64::MAX
            } else {
                ms as u64
            }
        },
        None => 0,
    }
}

/// A timer: the clock reading at which it was last started, its period, and
/// whether it is armed. All times are in milliseconds.
pub struct Timer {
    start: u64,
    duration: u64,
    enabled: bool,
}

/// What a timer holds.
pub struct TimerView {
    /// Clock reading at the last start.
    pub start: u64,
    /// Period.
    pub duration: u64,
    /// A disabled timer never expires.
    pub enabled: bool,
}

/// Time that has passed on the clock between `start` and `now`; zero where the
/// clock reads earlier than `start`.
pub open spec fn elapsed(start: u64, now: u64) -> int {
    if now >= start {
        now - start
    } else {
        0
    }
}

impl TimerView {
    /// Whether at least `margin` percent of the period have passed at `now`.
    /// A disabled timer has never expired.
    pub open spec fn expired_at(self, now: u64, margin: u32) -> bool {
        self.enabled && elapsed(self.start, now) * 100 >= self.duration * margin
    }
}

impl View for Timer {
    type V = TimerView;

    closed spec fn view(&self) -> TimerView {
        TimerView { start: self.start, duration: self.duration, enabled: self.enabled }
    }
}

impl Timer {
    /// An armed timer of period `dur` that starts at the clock reading `now`.
    pub fn started_at(now: u64, dur: u64) -> (t: Timer)
        ensures
            t@ == (TimerView { start: now, duration: dur, enabled: true }),
    {
        Timer { start: now, duration: dur, enabled: true }
    }

    /// Starts a timer of period `dur` milliseconds now.
    pub fn new(dur: u64) -> (t: Timer)
        ensures
            t@.duration == dur,
            t@.enabled,
    {
        Timer::started_at(now_millis(), dur)
    }

    /// Starts a timer of period `millis` milliseconds now.
    pub fn from_millis(millis: u64) -> (t: Timer)
        ensures
            t@.duration == millis,
            t@.enabled,
    {
        Timer::new(millis)
    }

    /// A timer that has already run out: armed, with period zero.
    pub fn new_expired() -> (t: Timer)
        ensures
            t@.duration == 0,
            t@.enabled,
            forall|now: u64, margin: u32| t@.expired_at(now, margin),
    {
        let t = Timer::from_millis(0);
        assert forall|now: u64, margin: u32| t@.expired_at(now, margin) by {
            assert(t@.duration * margin == 0) by (nonlinear_arith)
                requires
                    t@.duration == 0,
            ;
        }
        t
    }

    /// The period, in milliseconds.
    pub fn get_timeout(&self) -> (dur: u64)
        ensures
            dur == self@.duration,
    {
        self.duration
    }

    /// Whether the timer has run out at the clock reading `now`: it is armed and
    /// at least `margin` percent of its period have passed since it started.
    pub fn expired_at(&self, now: u64, margin: u32) -> (r: bool)
        requires
            0 < margin <= 100,
        ensures
            r == self@.expired_at(now, margin),
    {
        if !self.enabled {
            return false;
        }
        let passed: u64 = if now >= self.start {
            now - self.start
        } else {
            0
        };
        assert(passed * 100 <= u64::MAX * 100) by (nonlinear_arith)
            requires
                passed <= u64::MAX,
        ;
        assert(self.duration * margin <= u64::MAX * 100) by (nonlinear_arith)
            requires
                self.duration <= u64::MAX,
                margin <= 100,
        ;
        (passed as u128) * 100 >= (self.duration as u128) * (margin as u128)
    }

    /// Whether the timer has run out by now. `margin` is the percentage of the
    /// period that must have passed. Whatever the clock reads, the result is
    /// `expired_at` for that reading: always false for a disabled timer, always
    /// true for an armed one of period zero.
    pub fn expired(&self, margin: u32) -> (r: bool)
        requires
            0 < margin <= 100,
        ensures
            exists|now: u64| r == #[trigger] self@.expired_at(now, margin),
            !self@.enabled ==> !r,
            self@.enabled && self@.duration == 0 ==> r,
    {
        let now = now_millis();
        proof {
            assert(self@.duration == 0 ==> self@.duration * margin == 0) by (nonlinear_arith);
        }
        self.expired_at(now, margin)
    }

    /// Disarms the timer.
    pub fn disable(&mut self)
        ensures
            final(self)@ == (TimerView { enabled: false, ..old(self)@ }),
    {
        self.enabled = false;
    }

    /// Whether the timer is disarmed.
    pub fn is_disabled(&self) -> (r: bool)
        ensures
            r == !self@.enabled,
    {
        !self.enabled
    }

    /// Arms the timer and restarts it at the clock reading `now`, with the
    /// period it had.
    pub fn reset_at(&mut self, now: u64)
        ensures
            final(self)@ == (TimerView { start: now, duration: old(self)@.duration, enabled: true }),
    {
        self.enabled = true;
        self.start = now;
    }

    /// Arms the timer and restarts it now, with the period it had.
    pub fn reset(&mut self)
        ensures
            final(self)@.enabled,
            final(self)@.duration == old(self)@.duration,
    {
        self.reset_at(now_millis());
    }

    /// As `reset_at`, with the new period `dur`.
    pub fn reset_with_at(&mut self, dur: u64, now: u64)
        ensures
            final(self)@ == (TimerView { start: now, duration: dur, enabled: true }),
    {
        self.duration = dur;
        self.reset_at(now);
    }

    /// As `reset`, with the new period `dur`.
    pub fn reset_with(&mut self, dur: u64)
        ensures
            final(self)@.enabled,
            final(self)@.duration == dur,
    {
        self.reset_with_at(dur, now_millis());
    }
}

} // verus!

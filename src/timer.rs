use vstd::prelude::*;
use std::time::{Duration, Instant};

verus! {

#[verifier::external_type_specification]
#[verifier::external_body]
pub struct ExInstant(Instant);

/// Relies on std's `Instant::now`: reads the monotonic clock; nothing is promised of the value.
#[verifier::external_body]
fn clock_now() -> (r: Instant) {
    Instant::now()
}

/// Relies on std's `Instant::elapsed`: the time since `start`; nothing is promised of the value.
#[verifier::external_body]
fn elapsed_since(start: &Instant) -> (r: Duration) {
    start.elapsed()
}

/// Relies on std's `Duration::as_millis`: the whole milliseconds of `d`, as a `u128`.
#[verifier::external_body]
fn whole_millis(d: &Duration) -> (r: u128) {
    d.as_millis()
}

/// Whether `elapsed_ms` whole milliseconds reach a threshold of `threshold` milliseconds.
pub open spec fn deadline_passed(elapsed_ms: int, threshold: int) -> bool {
    elapsed_ms >= threshold
}

/// Decides a deadline from the whole milliseconds elapsed.
pub fn deadline_reached(elapsed_ms: u128, threshold: u32) -> (r: bool)
    ensures
        r == deadline_passed(elapsed_ms as int, threshold as int),
{
    elapsed_ms >= threshold as u128
}

/// Once a deadline has passed it stays passed: more elapsed time never un-expires it.
pub proof fn law_deadline_stays_passed(e1: int, e2: int, threshold: int)
    requires
        e1 <= e2,
        deadline_passed(e1, threshold),
    ensures
        deadline_passed(e2, threshold),
{
}

/// A wall-clock deadline: expires once `time_threshold_` milliseconds have passed since it started.
pub struct TimeKeeper {
    pub start_time_: Instant,
    pub time_threshold_: u32,
}

impl TimeKeeper {
    /// Starts the clock now.
    pub fn new(time_threshold: u32) -> (r: TimeKeeper)
        ensures
            r.time_threshold_ == time_threshold,
    {
        TimeKeeper { start_time_: clock_now(), time_threshold_: time_threshold }
    }

    /// Whether the threshold has been reached; a threshold of zero is reached at once.
    pub fn isTimeOver(&self) -> (r: bool)
        ensures
            exists|elapsed_ms: int|
                elapsed_ms >= 0 && r == deadline_passed(elapsed_ms, self.time_threshold_ as int),
            self.time_threshold_ == 0 ==> r,
    {
        let diff = elapsed_since(&self.start_time_);
        let ms = whole_millis(&diff);
        let r = deadline_reached(ms, self.time_threshold_);
        proof {
            assert(r == deadline_passed(ms as int, self.time_threshold_ as int));
        }
        r
    }
}

} // verus!

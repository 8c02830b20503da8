use vstd::prelude::*;
use std::time::{Duration, SystemTime};

verus! {

/// std::time::SystemTime, carried opaque: nothing is read inside it.
#[verifier::external_type_specification]
#[verifier::external_body]
pub struct ExSystemTime(SystemTime);

/// Relies on std::time::SystemTime::now: the current wall-clock time.
#[verifier::external_body]
fn system_time_now() -> (r: SystemTime) {
    SystemTime::now()
}

/// Relies on std::time::SystemTime::elapsed: the time since `t`, or none when
/// the clock has gone back past it.
#[verifier::external_body]
fn time_since(t: &SystemTime) -> (r: Option<Duration>) {
    t.elapsed().ok()
}

/// Relies on std::time::Duration::as_millis: whole milliseconds of `d`.
#[verifier::external_body]
fn duration_millis(d: &Duration) -> (r: u128) {
    d.as_millis()
}

/// Measures wall-clock time from its start.
pub struct DebugTimer {
    now: SystemTime,
}

impl DebugTimer {
    pub fn start() -> (r: DebugTimer) {
        DebugTimer { now: system_time_now() }
    }

    /// Milliseconds since the start; zero when the clock went back.
    pub fn elapsed(&self) -> (r: u128) {
        match time_since(&self.now) {
            Some(d) => duration_millis(&d),
            None => 0,
        }
    }
}

/// The sum of two sizes.
pub fn add(left: usize, right: usize) -> (r: usize)
    requires
        left + right <= usize::MAX,
    ensures
        r == left + right,
{
    left + right
}

} // verus!

//! The time of day, as the index stamps its events.

use std::time::{SystemTime, UNIX_EPOCH};
use vstd::prelude::*;

verus! {

/// `std::time::SystemTime`, a reading of the system clock; nothing is known of its value.
#[verifier::external_type_specification]
#[verifier::external_body]
pub struct ExSystemTime(std::time::SystemTime);

/// `std::time::SystemTimeError`, the error of `SystemTime::duration_since`; nothing is
/// known of its value.
#[verifier::external_type_specification]
#[verifier::external_body]
pub struct ExSystemTimeError(std::time::SystemTimeError);

/// `SystemTime::now` reads the system clock; nothing is promised of what it returns.
pub assume_specification[ std::time::SystemTime::now ]() -> (t: std::time::SystemTime)
;

/// `SystemTime::duration_since` gives the time that passed from `earlier`
/// to `t`, or an error where `earlier` is the later one.
pub assume_specification[ std::time::SystemTime::duration_since ](
    t: &std::time::SystemTime,
    earlier: std::time::SystemTime,
) -> (r: Result<std::time::Duration, std::time::SystemTimeError>)
;

/// `Duration::as_secs` gives the whole seconds of a duration.
pub assume_specification[ std::time::Duration::as_secs ](d: &std::time::Duration) -> (s: u64)
;

/// `std::time::UNIX_EPOCH`, the time from which the index counts its seconds.
#[verifier::external_body]
fn unix_epoch() -> (t: SystemTime) {
    UNIX_EPOCH
}

/// The seconds that have passed since the Unix epoch, by the system clock;
/// zero where the clock stands before the epoch.
pub fn now_ts() -> (seconds: u64) {
    let since_epoch = match SystemTime::now().duration_since(unix_epoch()) {
        Ok(d) => Some(d.as_secs()),
        Err(_) => None,
    };
    seconds_or_zero(since_epoch)
}

/// The seconds to stamp an event with, given what the clock says has passed
/// since the epoch: those seconds, or zero where the clock stands before it.
pub fn seconds_or_zero(since_epoch: Option<u64>) -> (seconds: u64)
    ensures
        seconds == match since_epoch {
            Some(s) => s,
            None => 0,
        },
{
    match since_epoch {
        Some(s) => s,
        None => 0,
    }
}

} // verus!

//! The clock that stamps writes.

use std::time::{Duration, SystemTime, SystemTimeError};
use vstd::prelude::*;

verus! {

/// `std::time::SystemTime`: a reading of the system clock. Nothing is known
/// of what a value holds.
#[verifier::external_type_specification]
#[verifier::external_body]
pub struct ExSystemTime(SystemTime);

/// `std::time::SystemTimeError`: what `duration_since` returns where the
/// earlier time is the later one. Nothing is known of what a value holds.
#[verifier::external_type_specification]
#[verifier::external_body]
pub struct ExSystemTimeError(SystemTimeError);

/// `SystemTime::UNIX_EPOCH`: the start of 1970 in UTC, as a clock reading.
/// The value is opaque here, so nothing is stated of it.
#[verifier::external_body]
fn unix_epoch() -> SystemTime {
    SystemTime::UNIX_EPOCH
}

/// `SystemTime::now` reads the system clock. Nothing is promised of the
/// reading: it differs from call to call.
pub assume_specification[ SystemTime::now ]() -> (now: SystemTime)
;

/// `SystemTime::duration_since` gives the time that has passed since
/// `earlier`, or an error where `earlier` is later than `time`. Which of the
/// two comes back depends on the two readings, of which nothing is known.
pub assume_specification[ SystemTime::duration_since ](
    time: &SystemTime,
    earlier: SystemTime,
) -> (elapsed: Result<Duration, SystemTimeError>)
;

/// `Duration::as_micros` gives the whole microseconds of a duration. Nothing
/// is promised of the number: the duration is opaque here.
pub assume_specification[ Duration::as_micros ](duration: &Duration) -> (micros: u128)
;

/// The current time in microseconds since the Unix epoch, or zero where the
/// system clock stands before the epoch.
pub fn generate_timestamp() -> (micros: u128) {
    let elapsed = match SystemTime::now().duration_since(unix_epoch()) {
        Ok(elapsed) => Some(elapsed.as_micros()),
        Err(_) => None,
    };
    timestamp_from(elapsed)
}

/// The timestamp that a reading of the clock stands for: the microseconds
/// that have passed since the Unix epoch, or zero where the clock stands
/// before the epoch and there is no such number.
pub open spec fn timestamp_of(elapsed: Option<u128>) -> u128 {
    match elapsed {
        Some(micros) => micros,
        None => 0,
    }
}

/// Turns a reading of the clock into a timestamp. `elapsed` is the number of
/// microseconds since the Unix epoch, or `None` where the clock stands
/// before the epoch.
pub fn timestamp_from(elapsed: Option<u128>) -> (micros: u128)
    ensures
        micros == timestamp_of(elapsed),
{
    match elapsed {
        Some(micros) => micros,
        None => 0,
    }
}

/// The whole milliseconds of `micros` microseconds, or the largest `i64`
/// where they are more than an `i64` can count.
pub open spec fn millis_of(micros: u128) -> i64 {
    if micros / 1000 > i64::MAX {
        i64::MAX
    } else {
        (micros / 1000) as i64
    }
}

/// Turns microseconds into whole milliseconds.
pub fn millis_from(micros: u128) -> (millis: i64)
    ensures
        millis == millis_of(micros),
{
    let millis: u128 = micros / 1000;
    if millis > 0x7fff_ffff_ffff_ffff {
        0x7fff_ffff_ffff_ffff
    } else {
        millis as i64
    }
}

/// The current time in milliseconds since the Unix epoch, or zero where the
/// system clock stands before the epoch. Whatever the clock reads, the
/// number is not negative.
pub fn current_millis() -> (millis: i64)
    ensures
        millis >= 0,
{
    millis_from(generate_timestamp())
}

} // verus!

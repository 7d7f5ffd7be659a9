//! The wall clock, as far as time stamps need it.

use std::time::{Duration, SystemTime, SystemTimeError, UNIX_EPOCH};
use vstd::prelude::*;

verus! {

/// `std::time::SystemTime`: a reading of the system clock. Nothing is known
/// of what a value holds.
#[verifier::external_type_specification]
#[verifier::external_body]
pub struct ExSystemTime(SystemTime);

/// `std::time::SystemTimeError`: what comparing two clock readings fails
/// with where the second is the later one.
#[verifier::external_type_specification]
#[verifier::external_body]
pub struct ExSystemTimeError(SystemTimeError);

/// `std::time::SystemTime::now` reads the system clock. Nothing is claimed
/// of the reading: two calls may return anything.
pub assume_specification[ SystemTime::now ]() -> (now: SystemTime)
;

/// Calls `std::time::SystemTime::duration_since` on `at`, with
/// `std::time::UNIX_EPOCH` for the earlier time. The call measures the time
/// from the start of 1970 in UTC to `at` and fails where `at` lies before
/// it. Nothing is claimed of which it does.
#[verifier::external_body]
fn since_unix_epoch(at: &SystemTime) -> (elapsed: Result<Duration, SystemTimeError>) {
    at.duration_since(UNIX_EPOCH)
}

/// `core::time::Duration::as_secs` gives the whole seconds of a duration.
/// Nothing is claimed of the number.
pub assume_specification[ Duration::as_secs ](duration: &Duration) -> (secs: u64)
;

/// The clock read earlier than the start of 1970.
#[derive(Debug, Clone, Copy, PartialEq, Eq)]
pub struct ClockBeforeEpoch;

/// What a comparison of the clock with the start of 1970 comes to: the
/// whole seconds themselves where the clock was past it, and
/// [`ClockBeforeEpoch`] where the comparison failed.
pub fn epoch_seconds_of(elapsed: Result<u64, SystemTimeError>) -> (r: Result<
    u64,
    ClockBeforeEpoch,
>)
    ensures
        match elapsed {
            Ok(seconds) => r == Ok::<u64, ClockBeforeEpoch>(seconds),
            Err(_) => r == Err::<u64, ClockBeforeEpoch>(ClockBeforeEpoch),
        },
{
    match elapsed {
        Ok(seconds) => Ok(seconds),
        Err(_) => Err(ClockBeforeEpoch),
    }
}

/// The whole seconds that have gone by since the start of 1970 in UTC,
/// by the system clock.
///
/// What comes back is what the clock says at the moment of the call, so
/// nothing is promised of it, not even that a later call returns more.
/// [`epoch_seconds_of`] says what is made of the clock's answer.
pub fn epoch_seconds() -> Result<u64, ClockBeforeEpoch> {
    let now = SystemTime::now();
    let elapsed: Result<u64, SystemTimeError> = match since_unix_epoch(&now) {
        Ok(elapsed) => Ok(elapsed.as_secs()),
        Err(error) => Err(error),
    };
    epoch_seconds_of(elapsed)
}

} // verus!

//! The clock.

use std::time::{Duration, SystemTime, SystemTimeError, UNIX_EPOCH};
use vstd::prelude::*;

verus! {

#[verifier::external_type_specification]
#[verifier::external_body]
pub struct ExSystemTime(SystemTime);

#[verifier::external_type_specification]
#[verifier::external_body]
pub struct ExSystemTimeError(SystemTimeError);

/// Calls `SystemTime::now`. Nothing is known of what the clock says.
#[verifier::external_body]
fn now() -> SystemTime {
    SystemTime::now()
}

/// Calls `SystemTime::duration_since` with the Unix epoch, which fails for a
/// time before the epoch.
#[verifier::external_body]
fn since_epoch(time: &SystemTime) -> Result<Duration, SystemTimeError> {
    time.duration_since(UNIX_EPOCH)
}

/// Calls `Duration::as_micros`.
#[verifier::external_body]
fn as_micros(duration: &Duration) -> u128 {
    duration.as_micros()
}

/// Microseconds since the Unix epoch, as the clock of the machine has them;
/// 0 where the clock stands before the epoch.
pub fn unix_timestamp_micros() -> u128 {
    let time = now();
    let elapsed: Option<u128> = match since_epoch(&time) {
        Ok(duration) => Some(as_micros(&duration)),
        Err(_) => None,
    };
    timestamp_from(elapsed)
}

/// The timestamp for what the clock gave: the microseconds that have passed
/// since the Unix epoch, or 0 where the clock gave none because it stands
/// before the epoch.
pub fn timestamp_from(elapsed: Option<u128>) -> (r: u128)
    ensures
        r == match elapsed {
            Some(micros) => micros,
            None => 0,
        },
{
    match elapsed {
        Some(micros) => micros,
        None => 0,
    }
}

} // verus!

//! The system clock, read in whole seconds.

use std::time::{SystemTime, SystemTimeError};
use vstd::prelude::*;

verus! {

/// `std::time::SystemTime`: a point in time as the system clock counts it.
#[verifier::external_type_specification]
#[verifier::external_body]
pub struct ExSystemTime(SystemTime);

/// `std::time::SystemTimeError`: what `duration_since` returns when the
/// second point in time is later than the first.
#[verifier::external_type_specification]
#[verifier::external_body]
pub struct ExSystemTimeError(SystemTimeError);

/// `SystemTime::now` reads the clock. Nothing is promised of the value.
pub assume_specification[ SystemTime::now ]() -> (t: SystemTime);

/// `SystemTime::duration_since` measures the time from `earlier` to `t`, or
/// fails if `earlier` is the later one. Nothing is promised of the value.
pub assume_specification[ SystemTime::duration_since ](t: &SystemTime, earlier: SystemTime) -> (r:
    Result<std::time::Duration, SystemTimeError>);

/// `Duration::as_secs` gives the whole seconds of a duration. Nothing is
/// promised of the value.
pub assume_specification[ std::time::Duration::as_secs ](d: &std::time::Duration) -> (s: u64);

/// `SystemTime::UNIX_EPOCH`: the point in time from which seconds are
/// counted.
#[verifier::external_body]
fn epoch() -> (t: SystemTime) {
    SystemTime::UNIX_EPOCH
}

/// The seconds that have passed since the Unix epoch, or 0 if the clock
/// stands before it.
pub(crate) fn unix_seconds() -> (now: u64) {
    match SystemTime::now().duration_since(epoch()) {
        Ok(d) => d.as_secs(),
        Err(_) => 0,
    }
}

} // verus!

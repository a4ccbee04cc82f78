//! The time of a read, in whole seconds since the epoch.

use std::time::SystemTime;
use core::time::Duration;
use vstd::prelude::*;

verus! {

/// The system clock's point in time; nothing is known of what it holds.
#[verifier::external_type_specification]
#[verifier::external_body]
pub struct ExSystemTime(SystemTime);

/// `SystemTime::now` reads the system clock. Nothing is claimed of the time
/// that it returns.
pub assume_specification[ SystemTime::now ]() -> (t: SystemTime)
;

/// `Duration::as_secs` gives the whole seconds of a duration. Nothing is
/// claimed of the number.
pub assume_specification[ Duration::as_secs ](d: &Duration) -> (s: u64)
;

/// `SystemTime::duration_since`, against `UNIX_EPOCH`: the time elapsed since
/// the epoch, or `None` where `t` lies before it. Nothing is claimed of the
/// duration.
#[verifier::external_body]
fn since_epoch(t: &SystemTime) -> (r: Option<Duration>) {
    match t.duration_since(std::time::UNIX_EPOCH) {
        Ok(d) => Some(d),
        Err(_) => None,
    }
}

/// The current time in whole seconds since the epoch; zero where the clock
/// stands before the epoch.
pub fn get_now() -> u64 {
    let t = SystemTime::now();
    let elapsed: Option<u64> = match since_epoch(&t) {
        Some(d) => Some(d.as_secs()),
        None => None,
    };
    seconds_or_zero(elapsed)
}

/// The seconds that count as the time of a read: those elapsed since the
/// epoch, and zero where the clock stands before it (`None`).
pub open spec fn read_time(elapsed: Option<u64>) -> u64 {
    match elapsed {
        Some(secs) => secs,
        None => 0,
    }
}

/// The time of a read, given the seconds elapsed since the epoch, or `None`
/// where the clock stands before it.
pub fn seconds_or_zero(elapsed: Option<u64>) -> (r: u64)
    ensures
        r == read_time(elapsed),
{
    match elapsed {
        Some(secs) => secs,
        None => 0,
    }
}

} // verus!

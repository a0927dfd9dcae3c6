//! Wall-clock time, held as milliseconds since the Unix epoch.

use std::time::{SystemTime, UNIX_EPOCH};
use vstd::prelude::*;

verus! {

/// Calls `SystemTime::now` and measures it from the Unix epoch with
/// `duration_since`, in whole milliseconds (`Duration::as_millis`): `Ok` of
/// the time since the epoch, or `Err` of the time before it when the clock
/// reads earlier. The reading depends on the clock, so nothing is stated of
/// it.
#[verifier::external_body]
fn clock_reading() -> (r: Result<u128, u128>) {
    match SystemTime::now().duration_since(UNIX_EPOCH) {
        Ok(d) => Ok(d.as_millis()),
        Err(e) => Err(e.duration().as_millis()),
    }
}

/// A clock reading as signed milliseconds since the epoch: negative for a
/// time before it, and held to the range of `i64`.
pub open spec fn reading_millis(reading: Result<u128, u128>) -> int {
    match reading {
        Ok(ms) => if ms <= i64::MAX {
            ms as int
        } else {
            i64::MAX as int
        },
        Err(ms) => if ms <= i64::MAX {
            -(ms as int)
        } else {
            -(i64::MAX as int)
        },
    }
}

/// The signed milliseconds of a clock reading.
pub fn millis_from_reading(reading: Result<u128, u128>) -> (r: i64)
    ensures
        r as int == reading_millis(reading),
{
    match reading {
        Ok(ms) => if ms <= i64::MAX as u128 {
            ms as i64
        } else {
            i64::MAX
        },
        Err(ms) => if ms <= i64::MAX as u128 {
            -(ms as i64)
        } else {
            -i64::MAX
        },
    }
}

/// The current time in milliseconds since the Unix epoch (negative when the
/// clock reads a time before it). Nothing is stated of the value: it is the
/// clock's.
pub(crate) fn now_millis() -> (r: i64)
    ensures
        exists|reading: Result<u128, u128>| r as int == reading_millis(reading),
{
    millis_from_reading(clock_reading())
}

/// Calls `SystemTime::now` and measures it from the Unix epoch in
/// nanoseconds (zero if the clock reads a time before the epoch); nothing
/// is stated of the reading.
#[verifier::external_body]
pub(crate) fn now_nanos() -> (r: u128) {
    SystemTime::now().duration_since(UNIX_EPOCH).unwrap_or_default().as_nanos()
}

} // verus!

//! The wall clock, read at the edge of the library.

use vstd::prelude::*;

verus! {

/// Relies on `std::time::SystemTime::now` and `duration_since(UNIX_EPOCH)`:
/// microseconds since the Unix epoch, 0 for a clock set before it. Nothing
/// is promised of the value, nor of two readings.
#[verifier::external_body]
pub(crate) fn now_micros() -> (r: u64) {
    std::time::SystemTime::now()
        .duration_since(std::time::UNIX_EPOCH)
        .map(|d| d.as_micros() as u64)
        .unwrap_or(0)
}

/// Current Unix timestamp in whole seconds.
pub fn chrono_timestamp() -> (r: i64)
    ensures
        r >= 0,
{
    let us = now_micros();
    (us / 1_000_000) as i64
}

} // verus!

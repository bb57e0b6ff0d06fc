//! Trusted access to the system clock through chrono. Both values depend on
//! the moment of the call, so nothing relates two calls to each other.

use vstd::prelude::*;

verus! {

/// Relies on chrono's `Local::now` and `DateTime::format` with
/// `%Y-%m-%d %H:%M:%S`: the local wall-clock time rendered with every field
/// zero-padded, the year to at least four digits, so the result holds at
/// least nineteen characters. The value depends on the clock.
#[verifier::external_body]
pub(crate) fn now_local_string() -> (r: String)
    ensures
        r@.len() >= 19,
{
    chrono::Local::now().format("%Y-%m-%d %H:%M:%S").to_string()
}

/// Relies on chrono's `Utc::now` and `DateTime::timestamp_millis`:
/// milliseconds since the Unix epoch. Nothing is promised of the value.
#[verifier::external_body]
pub(crate) fn now_unix_millis() -> (r: i64) {
    chrono::Utc::now().timestamp_millis()
}

} // verus!

//! Instants in time, as nanoseconds since the Unix epoch (UTC), read from text
//! through chrono.

use vstd::prelude::*;

verus! {

pub const NANOS_PER_SEC: i128 = 1_000_000_000;

/// Seconds and nanoseconds since the Unix epoch of a naive date and time read with
/// `format`, taken as UTC.
pub uninterp spec fn naive_utc_instant(text: Seq<char>, format: Seq<char>) -> Option<(i64, u32)>;

/// Seconds and nanoseconds since the Unix epoch of a date and time with a UTC offset
/// read with `format`.
pub uninterp spec fn offset_instant(text: Seq<char>, format: Seq<char>) -> Option<(i64, u32)>;

/// Relies on chrono's `NaiveDateTime::parse_from_str`, the result taken as UTC: its
/// `timestamp` and `timestamp_subsec_nanos`, or `None` where chrono reports an error.
#[verifier::external_body]
pub fn parse_naive_utc(text: &str, format: &str) -> (r: Option<(i64, u32)>)
    ensures
        r == naive_utc_instant(text@, format@),
{
    match chrono::NaiveDateTime::parse_from_str(text, format) {
        Ok(t) => Some((t.and_utc().timestamp(), t.and_utc().timestamp_subsec_nanos())),
        Err(_) => None,
    }
}

/// Relies on chrono's `DateTime::parse_from_str`, which reads the offset from the text:
/// its `timestamp` and `timestamp_subsec_nanos`, or `None` where chrono reports an error.
#[verifier::external_body]
pub fn parse_with_offset(text: &str, format: &str) -> (r: Option<(i64, u32)>)
    ensures
        r == offset_instant(text@, format@),
{
    match chrono::DateTime::parse_from_str(text, format) {
        Ok(t) => Some((t.timestamp(), t.timestamp_subsec_nanos())),
        Err(_) => None,
    }
}

/// Nanoseconds since the epoch of a time given in seconds and nanoseconds.
pub open spec fn nanos_of(t: (i64, u32)) -> int {
    t.0 * NANOS_PER_SEC + t.1
}

pub fn instant_nanos(t: (i64, u32)) -> (r: i128)
    ensures
        r == nanos_of(t),
{
    assert(t.0 * NANOS_PER_SEC <= i64::MAX * NANOS_PER_SEC) by (nonlinear_arith)
        requires t.0 <= i64::MAX;
    assert(t.0 * NANOS_PER_SEC >= i64::MIN * NANOS_PER_SEC) by (nonlinear_arith)
        requires t.0 >= i64::MIN;
    t.0 as i128 * NANOS_PER_SEC + t.1 as i128
}

} // verus!

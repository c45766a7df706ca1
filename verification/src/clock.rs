//! The wall clock, read through std, and RFC 3339 timestamps, written and read through
//! chrono.

use vstd::prelude::*;

verus! {

/// std's error for a clock that reads before the time it is measured against.
#[verifier::external_type_specification]
#[verifier::external_body]
pub struct ExSystemTimeError(std::time::SystemTimeError);

/// Calls std's `SystemTime::elapsed` on `UNIX_EPOCH`: `Ok` with the time since the
/// epoch, or `Err` when the clock reads before it. The reading depends on the
/// machine's clock; nothing is stated of it.
#[verifier::external_body]
fn time_since_epoch() -> (r: Result<std::time::Duration, std::time::SystemTimeError>) {
    std::time::UNIX_EPOCH.elapsed()
}

/// Calls std's `SystemTimeError::duration`: how far the clock read before the
/// time it was measured against. Nothing is stated of the opaque duration.
#[verifier::external_body]
fn time_before(e: &std::time::SystemTimeError) -> (r: std::time::Duration) {
    e.duration()
}

/// Calls std's `Duration::as_millis`: the whole milliseconds of the duration. The
/// duration is opaque here, so nothing is stated of the number.
#[verifier::external_body]
fn whole_millis(d: &std::time::Duration) -> (r: u128) {
    d.as_millis()
}

/// A reading of the clock in whole milliseconds: `Ok` with the milliseconds since
/// the Unix epoch, or `Err` with those before it.
fn read_clock_millis() -> (r: Result<u128, u128>) {
    match time_since_epoch() {
        Ok(d) => Ok(whole_millis(&d)),
        Err(e) => Err(whole_millis(&time_before(&e))),
    }
}

/// Milliseconds since the Unix epoch for a clock reading (negative before it), held
/// to the range of `i64` (whose lowest value is left out, so that the range is
/// symmetric).
pub open spec fn millis_of_reading(c: Result<u128, u128>) -> i64 {
    match c {
        Ok(m) => if m <= i64::MAX {
            m as i64
        } else {
            i64::MAX
        },
        Err(m) => if m <= i64::MAX {
            (0 - m) as i64
        } else {
            (0 - i64::MAX) as i64
        },
    }
}

/// The current time in milliseconds since the Unix epoch, negative when the clock
/// reads before it: `millis_of_reading` of some reading of the clock.
pub fn now_millis() -> (r: i64)
    ensures
        exists|c: Result<u128, u128>| r == #[trigger] millis_of_reading(c),
{
    let c = read_clock_millis();
    let r: i64 = match c {
        Ok(m) => if m <= 9223372036854775807u128 {
            m as i64
        } else {
            9223372036854775807i64
        },
        Err(m) => if m <= 9223372036854775807u128 {
            0 - (m as i64)
        } else {
            -9223372036854775807i64
        },
    };
    assert(r == millis_of_reading(c));
    r
}

/// What chrono's `to_rfc3339` writes for the UTC time `millis` milliseconds after the
/// Unix epoch, or nothing when chrono cannot represent that time.
pub uninterp spec fn rfc3339_text(millis: i64) -> Option<Seq<char>>;

/// Calls `chrono::DateTime::from_timestamp_millis` and writes the time with
/// `to_rfc3339`; the result is `rfc3339_text(millis)`, a function of the argument
/// alone (the time is in UTC). Its form is not stated here.
#[verifier::external_body]
pub fn rfc3339_from_millis(millis: i64) -> (r: Option<String>)
    ensures
        match r {
            Some(t) => rfc3339_text(millis) == Some(t@),
            None => rfc3339_text(millis) is None,
        },
{
    match chrono::DateTime::from_timestamp_millis(millis) {
        Some(t) => Some(t.to_rfc3339()),
        None => None,
    }
}

/// The milliseconds since the Unix epoch of the time chrono's `parse_from_rfc3339`
/// reads from the text, or nothing when it refuses the text.
pub uninterp spec fn rfc3339_millis(text: Seq<char>) -> Option<i64>;

/// Calls `chrono::DateTime::parse_from_rfc3339` and gives the time's
/// `timestamp_millis`; the result is `rfc3339_millis(text)`, a function of the text
/// alone. Which texts chrono accepts is not stated here.
#[verifier::external_body]
pub fn millis_from_rfc3339(text: &str) -> (r: Option<i64>)
    ensures
        r == rfc3339_millis(text@),
{
    match chrono::DateTime::parse_from_rfc3339(text) {
        Ok(t) => Some(t.timestamp_millis()),
        Err(_) => None,
    }
}

} // verus!

//! The time model of the library.
//!
//! An instant is a count of whole seconds since 1970-01-01T00:00:00Z, a calendar day is
//! a count of whole days since 1970-01-01, both in UTC and both as `i64`. Turning text
//! into either, and a day into text, is left to `humantime` and `chrono`.

use vstd::prelude::*;
use chrono::format::ParseError;
use chrono::NaiveDate;
use std::time::UNIX_EPOCH;

verus! {

/// The error that `chrono` reports for text that is no date.
#[verifier::external_type_specification]
#[verifier::external_body]
pub struct ExParseError(ParseError);

/// Whole seconds from 1970-01-01T00:00:00Z to the instant that
/// `humantime::parse_rfc3339_weak` reads from `text`, or `None` where it rejects `text`.
pub uninterp spec fn rfc3339_weak_seconds(text: Seq<char>) -> Option<u64>;

/// Days from 1970-01-01 to the date that `chrono::NaiveDate::parse_from_str` reads from
/// `text` under the format `fmt`, or `None` where it rejects `text`.
pub uninterp spec fn parsed_date(text: Seq<char>, fmt: Seq<char>) -> Option<int>;

/// The text that `chrono` writes for the day `date` under the format `fmt`, or `None`
/// where `chrono` has no such day or cannot write the format.
pub uninterp spec fn formatted_date(date: int, fmt: Seq<char>) -> Option<Seq<char>>;

/// The characters of an optional string.
pub open spec fn opt_chars(s: Option<String>) -> Option<Seq<char>> {
    match s {
        Some(v) => Some(v@),
        None => None,
    }
}

/// The day number of a parsing result, without the reason of a failure.
pub open spec fn opt_day(r: Result<i64, ParseError>) -> Option<int> {
    match r {
        Ok(v) => Some(v as int),
        Err(_) => None,
    }
}

/// Reads an instant written as `2018-02-14 00:28:07`, with `T` or a space between date
/// and time, through `humantime::parse_rfc3339_weak`.
///
/// Believed of that function: it returns the same instant for the same text; an instant
/// it accepts is never before 1970 nor after the last second of year 9999 (on a target
/// with 32-bit pointers it accepts less, up to 2038-01-19T03:14:07); it does not panic.
/// A fraction of a second, where the text has one, is cut off here.
#[verifier::external_body]
pub(crate) fn parse_timestamp(text: &str) -> (secs: Option<u64>)
    ensures
        secs == rfc3339_weak_seconds(text@),
        secs matches Some(v) ==> v <= MAX_TIMESTAMP,
{
    match humantime::parse_rfc3339_weak(text) {
        Ok(t) => t.duration_since(UNIX_EPOCH).ok().map(|d| d.as_secs()),
        Err(_) => None,
    }
}

/// Reads a calendar date from `text` under the `strftime`-like format `fmt`, through
/// `chrono::NaiveDate::parse_from_str`, and counts its days from 1970-01-01.
///
/// Believed of that function: it returns the same date for the same text and format,
/// and an error instead of a panic for text or a format that it cannot read.
#[verifier::external_body]
pub(crate) fn parse_date(text: &str, fmt: &str) -> (day: Result<i64, ParseError>)
    ensures
        opt_day(day) == parsed_date(text@, fmt@),
{
    match NaiveDate::parse_from_str(text, fmt) {
        Ok(d) => Ok(i64::from(d.to_epoch_days())),
        Err(e) => Err(e),
    }
}

/// Writes the day `date` under the format `fmt`, through `chrono::NaiveDate::format`.
///
/// Believed of that function: it writes the same text for the same day and format, in
/// English whatever the machine's locale. A day that `chrono` cannot hold, or a format
/// that it cannot write, gives `None` here.
#[verifier::external_body]
pub(crate) fn format_date(date: i64, fmt: &str) -> (text: Option<String>)
    ensures
        opt_chars(text) == formatted_date(date as int, fmt@),
{
    let day = NaiveDate::from_epoch_days(i32::try_from(date).ok()?)?;
    let mut out = String::new();
    day.format(fmt).write_to(&mut out).ok()?;
    Some(out)
}

/// Number of seconds in one calendar day.
pub const SECS_PER_DAY: i64 = 86_400;

/// The latest instant that the timestamp parser can return: the last second of year 9999.
pub const MAX_TIMESTAMP: u64 = 253_402_300_799;

/// The day that holds instant `t`.
pub open spec fn day_of(t: int) -> int {
    t / 86_400
}

/// The first instant of day `d`.
pub open spec fn day_start(d: int) -> int {
    d * 86_400
}

/// A day holds exactly the instants from its start up to the start of the next day.
pub proof fn lemma_day_holds(t: int, d: int)
    ensures
        day_of(t) == d <==> day_start(d) <= t < day_start(d + 1),
{
}

/// The day of an instant never decreases as the instant grows.
pub proof fn lemma_day_of_monotone(a: int, b: int)
    requires
        a <= b,
    ensures
        day_of(a) <= day_of(b),
{
}

/// Calendar day of the instant `t`, rounding towards the past for instants before 1970.
pub fn date_of(t: i64) -> (d: i64)
    ensures
        d == day_of(t as int),
{
    if t >= 0 {
        t / SECS_PER_DAY
    } else {
        let back: i64 = (-(t + 1)) / SECS_PER_DAY;
        -back - 1
    }
}

/// Calendar day of an instant given in the wider type that sums of instants and durations need.
pub fn date_of_wide(t: i128) -> (d: i64)
    requires
        i64::MIN as int - 1 <= t <= i64::MAX as int + 2 * (u32::MAX as int),
    ensures
        d == day_of(t as int),
{
    if t >= 0 {
        (t / 86_400) as i64
    } else {
        let back: i128 = (-(t + 1)) / 86_400;
        (-back - 1) as i64
    }
}

/// The day that follows `date`.
pub fn day_after(date: i64) -> (next: i64)
    requires
        date < i64::MAX,
    ensures
        next == date + 1,
{
    date + 1
}

/// The first instant of `date`, or `None` where it lies outside `i64`.
pub fn midnight(date: i64) -> (t: Option<i64>)
    ensures
        t matches Some(v) ==> v == day_start(date as int),
        t is None <==> !(i64::MIN <= day_start(date as int) <= i64::MAX),
{
    date.checked_mul(SECS_PER_DAY)
}

} // verus!

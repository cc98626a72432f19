//! Times as text.
use vstd::prelude::*;

use crate::text::opt_text;

verus! {

/// The milliseconds since the Unix epoch that an RFC 3339 date and time stands for; `None` for any
/// other text.
pub uninterp spec fn rfc3339_parsed(s: Seq<char>) -> Option<i64>;

/// `chrono::DateTime::parse_from_rfc3339`, taken in milliseconds: whatever the text stands for is
/// named, as RFC 3339 has many forms.
#[verifier::external_body]
pub(crate) fn parse_rfc3339_millis(s: &str) -> (r: Option<i64>)
    ensures
        r == rfc3339_parsed(s@),
{
    match chrono::DateTime::parse_from_rfc3339(s) {
        Ok(time) => Some(time.timestamp_millis()),
        Err(_) => None,
    }
}

/// A time in milliseconds since the Unix epoch as RFC 3339 text in UTC with milliseconds; `None`
/// where it is out of the calendar's range.
pub uninterp spec fn rfc3339_printed(millis: i64) -> Option<Seq<char>>;

/// The year 10000 in milliseconds since the Unix epoch: times before it are written with four digits for
/// the year.
pub const FIVE_DIGIT_YEARS: i64 = 253_402_300_800_000;

/// `chrono::DateTime::from_timestamp_millis` and `to_rfc3339_opts`: the text is named. From 1970 up to the
/// year 9999 there is a text, and `chrono::DateTime::parse_from_rfc3339` reads the same time out of it.
#[verifier::external_body]
fn print_rfc3339_millis(millis: i64) -> (r: Option<String>)
    ensures
        opt_text(r) == rfc3339_printed(millis),
        match r {
            Some(s) => 0 <= millis < FIVE_DIGIT_YEARS ==> rfc3339_parsed(s@) == Some(millis),
            None => millis < 0 || millis >= FIVE_DIGIT_YEARS,
        },
{
    match chrono::DateTime::from_timestamp_millis(millis) {
        Some(time) => Some(time.to_rfc3339_opts(chrono::SecondsFormat::Millis, true)),
        None => None,
    }
}

/// A time as RFC 3339 text, empty where it is out of range.
pub open spec fn rfc3339_seq(millis: i64) -> Seq<char> {
    match rfc3339_printed(millis) {
        Some(s) => s,
        None => Seq::empty(),
    }
}

/// A time in milliseconds since the Unix epoch as RFC 3339 text in UTC with milliseconds. From 1970 up to
/// the year 9999 the text stands for the time again.
pub fn rfc3339_millis(millis: i64) -> (r: String)
    ensures
        r@ == rfc3339_seq(millis),
        0 <= millis < FIVE_DIGIT_YEARS ==> rfc3339_parsed(r@) == Some(millis),
{
    match print_rfc3339_millis(millis) {
        Some(s) => s,
        None => String::new(),
    }
}

/// RFC 3339 text as the same moment in UTC with milliseconds, or `None` where it is malformed.
pub uninterp spec fn rfc3339_utc(s: Seq<char>) -> Option<Seq<char>>;

/// `chrono::DateTime::parse_from_rfc3339`, `with_timezone` and `to_rfc3339_opts`: the text is named, and
/// there is one exactly where the first of them takes the text.
#[verifier::external_body]
pub(crate) fn normalize_rfc3339(s: &str) -> (r: Option<String>)
    ensures
        opt_text(r) == rfc3339_utc(s@),
        r is Some == rfc3339_parsed(s@) is Some,
{
    match chrono::DateTime::parse_from_rfc3339(s) {
        Ok(time) => Some(
            time.with_timezone(&chrono::Utc).to_rfc3339_opts(chrono::SecondsFormat::Millis, true),
        ),
        Err(_) => None,
    }
}

/// The first second of the calendar, which begins with the year -262143, since the Unix epoch.
pub const CALENDAR_START: i64 = -8_334_601_228_800;

/// The last second of the calendar, which ends with the year 262142, since the Unix epoch.
pub const CALENDAR_END: i64 = 8_210_266_876_799;

/// A time in seconds since the Unix epoch in milliseconds; `None` where it is out of the calendar's
/// range.
pub open spec fn calendar_millis(secs: i64) -> Option<i64> {
    if CALENDAR_START <= secs <= CALENDAR_END {
        Some((secs * 1000) as i64)
    } else {
        None
    }
}

/// `chrono::DateTime::from_timestamp` and `timestamp_millis`: a time within the calendar is a thousand
/// times its seconds, and there is no other.
#[verifier::external_body]
pub(crate) fn millis_of_seconds(secs: i64) -> (r: Option<i64>)
    ensures
        r == calendar_millis(secs),
{
    match chrono::DateTime::from_timestamp(secs, 0) {
        Some(time) => Some(time.timestamp_millis()),
        None => None,
    }
}

} // verus!

//! Reading the `date` of a preamble as seconds since the Unix epoch.

use vstd::prelude::*;

use crate::text::{trim, trim_str};

verus! {

/// The instant that a text names as a timestamp with an offset (RFC 3339),
/// in seconds since the Unix epoch.
pub uninterp spec fn timestamp_seconds(s: Seq<char>) -> Option<i64>;

/// The instant that a text names as a civil date and time, read in UTC.
pub uninterp spec fn civil_datetime_seconds(s: Seq<char>) -> Option<i64>;

/// The instant that a text names as a civil date, at midnight UTC.
pub uninterp spec fn civil_date_seconds(s: Seq<char>) -> Option<i64>;

/// Relies on `jiff::Timestamp`'s `FromStr`: the instant the text names, if it
/// is a timestamp with an offset.
#[verifier::external_body]
fn parse_timestamp(s: &str) -> (r: Option<i64>)
    ensures
        r == timestamp_seconds(s@),
{
    s.parse::<jiff::Timestamp>().ok().map(|t| t.as_second())
}

/// Relies on `jiff::civil::DateTime`'s `FromStr` and `to_zoned` in UTC.
#[verifier::external_body]
fn parse_civil_datetime(s: &str) -> (r: Option<i64>)
    ensures
        r == civil_datetime_seconds(s@),
{
    s.parse::<jiff::civil::DateTime>().ok().and_then(|d| d.to_zoned(jiff::tz::TimeZone::UTC).ok()).map(|z| z.timestamp().as_second())
}

/// Relies on `jiff::civil::Date`'s `FromStr` and `to_zoned` in UTC.
#[verifier::external_body]
fn parse_civil_date(s: &str) -> (r: Option<i64>)
    ensures
        r == civil_date_seconds(s@),
{
    s.parse::<jiff::civil::Date>().ok().and_then(|d| d.to_zoned(jiff::tz::TimeZone::UTC).ok()).map(|z| z.timestamp().as_second())
}

/// The instant a preamble date names: the trimmed text read as a timestamp,
/// else as a civil date and time, else as a civil date.
pub open spec fn date_of(s: Seq<char>) -> Option<i64> {
    let t = trim(s);
    match timestamp_seconds(t) {
        Some(x) => Some(x),
        None => match civil_datetime_seconds(t) {
            Some(x) => Some(x),
            None => civil_date_seconds(t),
        },
    }
}

/// Reads a preamble date in the formats `date_of` tries, in that order.
pub fn parse_date_string(s: &str) -> (r: Option<i64>)
    ensures
        r == date_of(s@),
{
    let t = trim_str(s);
    match parse_timestamp(t.as_str()) {
        Some(x) => Some(x),
        None => match parse_civil_datetime(t.as_str()) {
            Some(x) => Some(x),
            None => parse_civil_date(t.as_str()),
        },
    }
}

/// When a note was created: its preamble date if that reads, else the file's
/// birth time if known, else its modification time.
pub open spec fn created_of(date: Option<Seq<char>>, birth: Option<i64>, modified: i64) -> i64 {
    match date {
        Some(d) if date_of(d) is Some => date_of(d)->0,
        _ => match birth {
            Some(b) => b,
            None => modified,
        },
    }
}

} // verus!

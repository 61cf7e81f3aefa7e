//! Timestamps from text.

use vstd::prelude::*;

verus! {

/// What `chrono::DateTime::parse_from_str` makes of `input` under `format`:
/// the seconds since the Unix epoch of the instant it reads, or nothing where
/// it rejects the text.
pub uninterp spec fn datetime_seconds(input: Seq<char>, format: Seq<char>) -> Option<i64>;

/// What `chrono::NaiveDate::parse_from_str` makes of `input` under `format`:
/// the seconds since the Unix epoch of midnight UTC on the day it reads, or
/// nothing where it rejects the text.
pub uninterp spec fn date_seconds(input: Seq<char>, format: Seq<char>) -> Option<i64>;

/// The seconds since the Unix epoch that `input` stands for under `format`:
/// read as a date and time with an offset, or else as a calendar date at
/// midnight UTC.
pub open spec fn epoch_seconds(input: Seq<char>, format: Seq<char>) -> Option<i64> {
    match datetime_seconds(input, format) {
        Some(seconds) => Some(seconds),
        None => date_seconds(input, format),
    }
}

/// `chrono::DateTime::parse_from_str`, its result taken as seconds since the
/// Unix epoch. It succeeds exactly where `datetime_seconds` has a value, and
/// then returns that value.
#[verifier::external_body]
fn parse_datetime(input: &str, format: &str) -> (parsed: Result<i64, chrono::format::ParseError>)
    ensures
        parsed matches Ok(seconds) ==> datetime_seconds(input@, format@) == Some(seconds),
        parsed is Err ==> datetime_seconds(input@, format@) is None,
{
    match chrono::DateTime::parse_from_str(input, format) {
        Ok(instant) => Ok(instant.with_timezone(&chrono::Utc).timestamp()),
        Err(error) => Err(error),
    }
}

/// `chrono::NaiveDate::parse_from_str`, its result taken at midnight UTC as
/// seconds since the Unix epoch. It succeeds exactly where `date_seconds` has
/// a value, and then returns that value.
#[verifier::external_body]
fn parse_date(input: &str, format: &str) -> (parsed: Result<i64, chrono::format::ParseError>)
    ensures
        parsed matches Ok(seconds) ==> date_seconds(input@, format@) == Some(seconds),
        parsed is Err ==> date_seconds(input@, format@) is None,
{
    match chrono::NaiveDate::parse_from_str(input, format) {
        Ok(day) => Ok(day.and_time(chrono::NaiveTime::MIN).and_utc().timestamp()),
        Err(error) => Err(error),
    }
}

/// Reads `input_string` under `format_string` as seconds since the Unix epoch.
/// A text with an offset is read as that instant; any other text is read as a
/// calendar date and stands for its midnight in UTC.
pub fn string_to_nanoseconds_epoch(input_string: &str, format_string: &str) -> (parsed: Result<
    i64,
    chrono::format::ParseError,
>)
    ensures
        parsed matches Ok(seconds) ==> epoch_seconds(input_string@, format_string@) == Some(
            seconds,
        ),
        parsed is Err ==> epoch_seconds(input_string@, format_string@) is None,
{
    match parse_datetime(input_string, format_string) {
        Ok(seconds) => Ok(seconds),
        Err(_) => parse_date(input_string, format_string),
    }
}

} // verus!

//! Dates and times: the few questions put to the calendar.
//!
//! The calendar itself is chrono's. Each question has a name here, and the
//! contracts of the callers speak of the names.

use chrono::{DateTime, NaiveDate, NaiveDateTime, NaiveTime, Utc};
use vstd::prelude::*;

verus! {

/// The second a day written `YYYY-MM-DD` begins at, in UTC; what is wrong with
/// the text if it is no such day.
pub uninterp spec fn day_start_of(day: Seq<char>) -> Result<i64, Seq<char>>;

/// A second, or what is wrong, as plain values.
pub open spec fn second_view(r: Result<i64, String>) -> Result<i64, Seq<char>> {
    match r {
        Ok(at) => Ok(at),
        Err(why) => Err(why@),
    }
}

/// The second a moment written `YYYY-MM-DDTHH:MM:SS` stands for, read as UTC;
/// none if the text is no such moment.
pub uninterp spec fn moment_of(text: Seq<char>) -> Option<i64>;

/// A second of UTC written in a format; none where the calendar does not reach.
pub uninterp spec fn stamp_of(at: i64, format: Seq<char>) -> Option<Seq<char>>;

/// The day of a second.
pub const DAY_FORMAT: &'static str = "%Y-%m-%d";

/// The minute of a second.
pub const MINUTE_FORMAT: &'static str = "%Y-%m-%d %H:%M";

/// `NaiveDate::parse_from_str` of chrono with the format `%Y-%m-%d`, at
/// midnight UTC: whether it reads the text, as which second, and in which words
/// it refuses it depends on the text alone.
#[verifier::external_body]
pub(crate) fn day_start(day: &str) -> (r: Result<i64, String>)
    ensures
        second_view(r) == day_start_of(day@),
{
    NaiveDate::parse_from_str(day, "%Y-%m-%d").map(
        |d| d.and_time(NaiveTime::MIN).and_utc().timestamp(),
    ).map_err(|e| e.to_string())
}

/// `NaiveDateTime::parse_from_str` of chrono with the format
/// `%Y-%m-%dT%H:%M:%S`, taken as UTC: whether it reads the text, and as which
/// second, depends on the text alone.
#[verifier::external_body]
pub(crate) fn moment(text: &str) -> (r: Option<i64>)
    ensures
        r == moment_of(text@),
{
    NaiveDateTime::parse_from_str(text, "%Y-%m-%dT%H:%M:%S").ok().map(
        |d| d.and_utc().timestamp(),
    )
}

/// `DateTime::from_timestamp` of chrono and `format` of what it gives: whether
/// there is such a moment, and how it is written, depends on the second and the
/// format alone. Both formats are ones chrono can write.
#[verifier::external_body]
pub(crate) fn stamp(at: i64, format: &str) -> (r: Option<String>)
    requires
        format@ == DAY_FORMAT@ || format@ == MINUTE_FORMAT@,
    ensures
        crate::text::opt_view(r) == stamp_of(at, format@),
{
    DateTime::from_timestamp(at, 0).map(|d| d.format(format).to_string())
}

/// `Utc::now` of chrono: the second it is. Nothing is promised of it.
#[verifier::external_body]
pub(crate) fn current_second() -> (r: i64) {
    Utc::now().timestamp()
}

/// A second's text, empty where the calendar does not reach.
pub open spec fn text_or_empty(text: Option<Seq<char>>) -> Seq<char> {
    match text {
        Some(t) => t,
        None => seq![],
    }
}

} // verus!

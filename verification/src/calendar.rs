//! Dates and times of day as text, and local time: what the store takes
//! from the `chrono` crate. Nothing in this file is proved; each contract
//! states what `chrono` does.

use crate::assignment::{Day, Timestamp};
use chrono::{Local, NaiveDate, NaiveDateTime, NaiveTime, Timelike};
use vstd::prelude::*;

verus! {

/// The day that `chrono` reads from a text in the form `%Y-%m-%d`, if it
/// reads one.
pub uninterp spec fn date_of_text(text: Seq<char>) -> Option<Day>;

/// The second of the day that `chrono` reads from a text in the form
/// `%H:%M`, if it reads one.
pub uninterp spec fn time_of_text(text: Seq<char>) -> Option<u32>;

/// Calls `chrono::NaiveDate::parse_from_str` with the format `%Y-%m-%d`,
/// and counts the days of the date from 1970-01-01 with
/// `NaiveDate::to_epoch_days`. The outcome depends on the text alone, so
/// it has a name; which texts are dates is left to `chrono`.
#[verifier::external_body]
pub(crate) fn parse_date(text: &str) -> (day: Option<Day>)
    ensures
        day == date_of_text(text@),
{
    match NaiveDate::parse_from_str(text, "%Y-%m-%d") {
        Ok(date) => Some(date.to_epoch_days()),
        Err(_) => None,
    }
}

/// Calls `chrono::NaiveTime::parse_from_str` with the format `%H:%M`, and
/// counts the seconds of the time from midnight with
/// `Timelike::num_seconds_from_midnight`. The outcome depends on the text
/// alone, so it has a name; which texts are times is left to `chrono`.
/// The count stays below the seconds of a day.
#[verifier::external_body]
pub(crate) fn parse_time(text: &str) -> (seconds: Option<u32>)
    ensures
        seconds == time_of_text(text@),
        seconds matches Some(s) ==> s < 86_400,
{
    match NaiveTime::parse_from_str(text, "%H:%M") {
        Ok(time) => Some(time.num_seconds_from_midnight()),
        Err(_) => None,
    }
}

/// Calls `NaiveDateTime::and_local_timezone` with `chrono::Local` on the
/// given day and second of the day, and keeps the instant only where
/// local time names exactly one. Which instant that is, and whether there
/// is one, depends on the time zone of the machine, so the outcome has no
/// name. Whatever comes back is a whole second, and lies as many seconds
/// before the given local time as its offset says.
#[verifier::external_body]
pub(crate) fn local_timestamp(day: Day, seconds: u32) -> (r: Option<Timestamp>)
    ensures
        r matches Some(t) ==> t.nanos == 0 && t.seconds + t.offset == day * 86_400 + seconds,
{
    let date = NaiveDate::from_epoch_days(day)?;
    let time = NaiveTime::from_num_seconds_from_midnight_opt(seconds, 0)?;
    let moment = NaiveDateTime::new(date, time).and_local_timezone(Local).single()?;
    Some(
        Timestamp {
            seconds: moment.timestamp(),
            nanos: moment.timestamp_subsec_nanos(),
            offset: moment.offset().local_minus_utc(),
        },
    )
}

} // verus!

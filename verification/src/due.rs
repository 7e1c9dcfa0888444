//! Due dates from a calendar day and a time of day in local time.

use crate::assignment::{Day, Timestamp};
use crate::calendar::{date_of_text, local_timestamp, parse_date, parse_time, time_of_text};
use vstd::prelude::*;

verus! {

/// Why a day and a time of day gave no due date.
#[derive(Clone, Copy, Debug, PartialEq, Eq, Structural)]
pub enum DueError {
    /// The date or the time of day could not be read.
    BadFormat,
    /// Local time has no such time on that day, or has it twice.
    NoLocalTime,
}

/// Whether `due` is the second `seconds` of the day `day` in local time:
/// a whole second that lies as many seconds before that local time as its
/// offset says.
pub open spec fn falls_on(due: Timestamp, day: Day, seconds: u32) -> bool {
    due.nanos == 0 && due.seconds + due.offset == day * 86_400 + seconds
}

/// A due date that falls on a second of a day is due on that day.
pub proof fn lemma_falls_on_day(due: Timestamp, day: Day, seconds: u32)
    requires
        falls_on(due, day, seconds),
        seconds < 86_400,
    ensures
        due.local_day() == day,
{
    vstd::arithmetic::div_mod::lemma_fundamental_div_mod_converse(
        due.seconds + due.offset,
        86_400,
        day as int,
        seconds as int,
    );
}

/// The due date at a second of a day in local time, once the day and the
/// time of day have been read. It is refused where either could not be
/// read, and where local time does not name exactly one instant.
pub fn due_at(day: Option<Day>, seconds: Option<u32>) -> (r: Result<Timestamp, DueError>)
    ensures
        match r {
            Ok(due) => day matches Some(d) && seconds matches Some(s) && falls_on(due, d, s),
            Err(e) => e == DueError::BadFormat <==> day is None || seconds is None,
        },
{
    match (day, seconds) {
        (Some(d), Some(s)) => match local_timestamp(d, s) {
            Some(due) => Ok(due),
            None => Err(DueError::NoLocalTime),
        },
        _ => Err(DueError::BadFormat),
    }
}

/// The due date that a date in the form `2025-04-01` and a time of day in
/// the form `09:00` name in local time.
pub fn due_from_text(date: &str, time: &str) -> (r: Result<Timestamp, DueError>)
    ensures
        match r {
            Ok(due) => {
                &&& date_of_text(date@) matches Some(d)
                &&& time_of_text(time@) matches Some(s)
                &&& falls_on(due, d, s)
                &&& due.local_day() == d
            },
            Err(e) => e == DueError::BadFormat <==> date_of_text(date@) is None || time_of_text(
                time@,
            ) is None,
        },
{
    let day = parse_date(date);
    let seconds = parse_time(time);
    let r = due_at(day, seconds);
    proof {
        if let Ok(due) = r {
            lemma_falls_on_day(due, day->0, seconds->0);
        }
    }
    r
}

} // verus!

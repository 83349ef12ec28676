use vstd::prelude::*;

use chrono::{Datelike, Timelike};

verus! {

/// A calendar date.
#[derive(Clone, Copy, Debug, PartialEq, Eq, Structural)]
pub struct CivilDate {
    pub year: i32,
    pub month: u32,
    pub day: u32,
}

/// A time of day.
#[derive(Clone, Copy, Debug, PartialEq, Eq, Structural)]
pub struct ClockTime {
    pub hour: u32,
    pub minute: u32,
    pub second: u32,
}

/// The `(year, month, day)` that chrono reads from `s` in strftime `format`, if any.
pub uninterp spec fn parsed_date(s: Seq<char>, format: Seq<char>) -> Option<(i32, u32, u32)>;

/// The `(hour, minute, second)` that chrono reads from `s` in strftime `format`, if any.
pub uninterp spec fn parsed_time(s: Seq<char>, format: Seq<char>) -> Option<(u32, u32, u32)>;

/// Relies on chrono's `NaiveDate::parse_from_str`: the date that `s` spells
/// in `format`, if any, a function of the two strings; `Datelike` documents
/// the month as 1 to 12 and the day as 1 to 31.
#[verifier::external_body]
pub(crate) fn parse_date(s: &str, format: &str) -> (r: Option<CivilDate>)
    ensures
        match r {
            Some(d) => parsed_date(s@, format@) == Some((d.year, d.month, d.day)) && 1 <= d.month
                <= 12 && 1 <= d.day <= 31,
            None => parsed_date(s@, format@) is None,
        },
{
    match chrono::NaiveDate::parse_from_str(s, format) {
        Ok(d) => Some(CivilDate { year: d.year(), month: d.month(), day: d.day() }),
        Err(_) => None,
    }
}

/// Relies on chrono's `NaiveTime::parse_from_str`: the time that `s` spells
/// in `format`, if any, a function of the two strings; `Timelike` documents
/// the hour as 0 to 23 and the minute and second as 0 to 59.
#[verifier::external_body]
pub(crate) fn parse_time(s: &str, format: &str) -> (r: Option<ClockTime>)
    ensures
        match r {
            Some(t) => parsed_time(s@, format@) == Some((t.hour, t.minute, t.second)) && t.hour
                < 24 && t.minute < 60 && t.second < 60,
            None => parsed_time(s@, format@) is None,
        },
{
    match chrono::NaiveTime::parse_from_str(s, format) {
        Ok(t) => Some(ClockTime { hour: t.hour(), minute: t.minute(), second: t.second() }),
        Err(_) => None,
    }
}

} // verus!

use vstd::prelude::*;

use crate::calendar::{parse_date, parse_time, parsed_date, parsed_time, CivilDate, ClockTime};
use crate::text::{lowercased, to_lowercase, trim, trimmed};

verus! {

/// Number of fixed-point steps in one unit of a coordinate or an injury figure.
pub const FIXED_POINT_SCALE: i64 = 10_000;

/// Largest magnitude of a record coordinate that grouping accepts: half the
/// range of `i64`, so that a bin center always fits.
pub const MAX_COORD: i64 = 4611686018427387903;

/// Format of a crash date with an abbreviated month name (`01-Jan-2021`).
pub const DATE_FORMAT_ABBREVIATED: &'static str = "%d-%b-%Y";

/// Format of a crash date with a full month name (`01-January-2021`).
pub const DATE_FORMAT_FULL: &'static str = "%d-%B-%Y";

/// Format of a crash time on a twelve-hour clock (`2:13 AM`).
pub const TIME_FORMAT: &'static str = "%I:%M %p";

/// The date a raw date field gives: trimmed, read with an abbreviated month
/// name, else with a full one.
pub open spec fn crash_date_of(field: Seq<char>) -> Option<(i32, u32, u32)> {
    match parsed_date(trimmed(field), DATE_FORMAT_ABBREVIATED@) {
        Some(d) => Some(d),
        None => parsed_date(trimmed(field), DATE_FORMAT_FULL@),
    }
}

/// The time a raw time field gives, once trimmed.
pub open spec fn crash_time_of(field: Seq<char>) -> Option<(u32, u32, u32)> {
    parsed_time(trimmed(field), TIME_FORMAT@)
}

/// A crash record as read from the data source, before validation.
#[derive(Debug)]
pub struct CrashRecord {
    pub crash_number: String,
    pub crash_date: String,
    pub crash_time: String,
    pub total_nonfatal_injuries: Option<i64>,
    pub total_fatal_injuries: Option<i64>,
    pub at_roadway_intersection: String,
    pub x_coordinate: Option<i64>,
    pub y_coordinate: Option<i64>,
}

/// A validated crash record with a location, a date and a time.
#[derive(Debug, Clone)]
pub struct ProcessedCrashRecord {
    pub crash_number: String,
    pub crash_date: CivilDate,
    pub crash_time: ClockTime,
    pub total_nonfatal_injuries: Option<i64>,
    pub total_fatal_injuries: Option<i64>,
    pub at_roadway_intersection: String,
    pub x_coordinate: i64,
    pub y_coordinate: i64,
}

impl ProcessedCrashRecord {
    /// Both coordinates lie within `MAX_COORD` of the origin.
    pub open spec fn in_range(self) -> bool {
        -MAX_COORD <= self.x_coordinate <= MAX_COORD
            && -MAX_COORD <= self.y_coordinate <= MAX_COORD
    }

    /// Validates a raw record: both coordinates must be present and the date
    /// and time must parse. The site label is lowercased.
    pub fn from_raw(raw: CrashRecord) -> (r: Option<Self>)
        ensures
            r is Some <==> (raw.x_coordinate is Some && raw.y_coordinate is Some && crash_date_of(
                raw.crash_date@,
            ) is Some && crash_time_of(raw.crash_time@) is Some),
            r is Some ==> {
                let p = r->0;
                &&& p.crash_number@ == raw.crash_number@
                &&& Some((p.crash_date.year, p.crash_date.month, p.crash_date.day)) == crash_date_of(
                    raw.crash_date@,
                )
                &&& Some((p.crash_time.hour, p.crash_time.minute, p.crash_time.second))
                    == crash_time_of(raw.crash_time@)
                &&& p.total_nonfatal_injuries == raw.total_nonfatal_injuries
                &&& p.total_fatal_injuries == raw.total_fatal_injuries
                &&& p.at_roadway_intersection@ == lowercased(raw.at_roadway_intersection@)
                &&& p.x_coordinate == raw.x_coordinate->0
                &&& p.y_coordinate == raw.y_coordinate->0
            },
    {
        let (x, y) = match (raw.x_coordinate, raw.y_coordinate) {
            (Some(x), Some(y)) => (x, y),
            _ => {
                return None;
            },
        };
        let date_field = trim(raw.crash_date.as_str());
        let date = match parse_date(date_field, DATE_FORMAT_ABBREVIATED) {
            Some(d) => d,
            None => match parse_date(date_field, DATE_FORMAT_FULL) {
                Some(d) => d,
                None => {
                    return None;
                },
            },
        };
        let time = match parse_time(trim(raw.crash_time.as_str()), TIME_FORMAT) {
            Some(t) => t,
            None => {
                return None;
            },
        };
        let label = to_lowercase(raw.at_roadway_intersection.as_str());
        Some(ProcessedCrashRecord {
            crash_number: raw.crash_number,
            crash_date: date,
            crash_time: time,
            total_nonfatal_injuries: raw.total_nonfatal_injuries,
            total_fatal_injuries: raw.total_fatal_injuries,
            at_roadway_intersection: label,
            x_coordinate: x,
            y_coordinate: y,
        })
    }

    /// A copy of the record, field by field.
    pub fn duplicate(&self) -> (r: Self)
        ensures
            r == *self,
    {
        ProcessedCrashRecord {
            crash_number: self.crash_number.clone(),
            crash_date: self.crash_date,
            crash_time: self.crash_time,
            total_nonfatal_injuries: self.total_nonfatal_injuries,
            total_fatal_injuries: self.total_fatal_injuries,
            at_roadway_intersection: self.at_roadway_intersection.clone(),
            x_coordinate: self.x_coordinate,
            y_coordinate: self.y_coordinate,
        }
    }
}

} // verus!

//! Instants in UTC, half-open intervals, and the proleptic Gregorian calendar.

use chrono::{Datelike, Timelike};
use vstd::prelude::*;

verus! {

/// An instant in UTC: seconds since the Unix epoch and a nanosecond part.
#[derive(Clone, Copy, Debug, PartialEq, Eq, Structural)]
pub struct Timestamp {
    pub seconds: i64,
    pub nanos: i32,
}

/// `a` comes strictly before `b`: seconds first, then nanoseconds.
pub open spec fn precedes(a: Timestamp, b: Timestamp) -> bool {
    a.seconds < b.seconds || (a.seconds == b.seconds && a.nanos < b.nanos)
}

/// The half-open intervals `[s1, e1)` and `[s2, e2)` share an instant.
pub open spec fn spans_intersect(s1: Timestamp, e1: Timestamp, s2: Timestamp, e2: Timestamp) -> bool {
    precedes(s1, e2) && precedes(s2, e1)
}

impl Timestamp {
    pub fn new(seconds: i64, nanos: i32) -> (r: Timestamp)
        ensures
            r.seconds == seconds,
            r.nanos == nanos,
    {
        Timestamp { seconds, nanos }
    }

    /// Whether `self` comes strictly before `other`.
    pub fn is_before(&self, other: &Timestamp) -> (r: bool)
        ensures
            r == precedes(*self, *other),
    {
        self.seconds < other.seconds || (self.seconds == other.seconds && self.nanos < other.nanos)
    }
}

/// Whether `[s1, e1)` and `[s2, e2)` share an instant.
pub fn intersects(s1: &Timestamp, e1: &Timestamp, s2: &Timestamp, e2: &Timestamp) -> (r: bool)
    ensures
        r == spans_intersect(*s1, *e1, *s2, *e2),
{
    s1.is_before(e2) && s2.is_before(e1)
}

/// A wall-clock date and time of day in UTC.
#[derive(Clone, Copy, Debug, PartialEq, Eq, Structural)]
pub struct CivilTime {
    pub year: i32,
    pub month: u32,
    pub day: u32,
    pub hour: u32,
    pub minute: u32,
    pub second: u32,
}

pub open spec fn is_leap_year(y: int) -> bool {
    (y % 4 == 0 && y % 100 != 0) || y % 400 == 0
}

pub open spec fn days_in_month(y: int, m: int) -> int {
    if m == 2 {
        if is_leap_year(y) { 29 } else { 28 }
    } else if m == 4 || m == 6 || m == 9 || m == 11 {
        30
    } else {
        31
    }
}

/// Days of the year `y` that come before the first of month `m`.
pub open spec fn days_before_month(y: int, m: int) -> int {
    let leap: int = if is_leap_year(y) { 1 } else { 0 };
    if m <= 1 { 0 }
    else if m == 2 { 31 }
    else if m == 3 { 59 + leap }
    else if m == 4 { 90 + leap }
    else if m == 5 { 120 + leap }
    else if m == 6 { 151 + leap }
    else if m == 7 { 181 + leap }
    else if m == 8 { 212 + leap }
    else if m == 9 { 243 + leap }
    else if m == 10 { 273 + leap }
    else if m == 11 { 304 + leap }
    else { 334 + leap }
}

/// Leap years among the years `1..=n` (negative for `n < 0`, so that
/// differences count the leap years in between).
pub open spec fn leap_years_through(n: int) -> int {
    n / 4 - n / 100 + n / 400
}

/// Days from 1970-01-01 to the first day of year `y`.
pub open spec fn days_before_year(y: int) -> int {
    365 * (y - 1970) + leap_years_through(y - 1) - leap_years_through(1969)
}

/// The date and time exists in the calendar (no leap seconds).
pub open spec fn valid_civil(c: CivilTime) -> bool {
    &&& 1 <= c.month <= 12
    &&& 1 <= c.day <= days_in_month(c.year as int, c.month as int)
    &&& c.hour < 24
    &&& c.minute < 60
    &&& c.second < 60
}

/// Seconds since the Unix epoch of a date and time in UTC.
pub open spec fn unix_seconds(c: CivilTime) -> int {
    let days = days_before_year(c.year as int) + days_before_month(c.year as int, c.month as int)
        + c.day - 1;
    days * 86400 + c.hour * 3600 + c.minute * 60 + c.second
}

/// Relies on chrono's `NaiveDate::from_ymd_opt`, `NaiveDate::and_hms_opt` and
/// `DateTime::timestamp`: the date and time exist exactly when chrono builds
/// them (years of four digits lie in chrono's range), and the timestamp is
/// the count of non-leap seconds since 1970-01-01 00:00:00 UTC.
#[verifier::external_body]
pub(crate) fn unix_seconds_of(c: CivilTime) -> (r: Option<i64>)
    requires
        0 <= c.year <= 9999,
    ensures
        r is Some == valid_civil(c),
        r matches Some(v) ==> v == unix_seconds(c),
{
    let date = chrono::NaiveDate::from_ymd_opt(c.year, c.month, c.day)?;
    let time = date.and_hms_opt(c.hour, c.minute, c.second)?;
    Some(time.and_utc().timestamp())
}

/// Relies on chrono's `DateTime::from_timestamp` and its `Datelike` and
/// `Timelike` accessors: when chrono can represent the instant, the fields
/// are a calendar date and time whose timestamp is `seconds`.
#[verifier::external_body]
pub(crate) fn civil_of_unix(seconds: i64) -> (r: Option<CivilTime>)
    ensures
        r matches Some(c) ==> valid_civil(c) && unix_seconds(c) == seconds,
{
    let t = chrono::DateTime::from_timestamp(seconds, 0)?;
    Some(CivilTime {
        year: t.year(),
        month: t.month(),
        day: t.day(),
        hour: t.hour(),
        minute: t.minute(),
        second: t.second(),
    })
}

} // verus!

//! Calendar days and minute-resolution wall-clock stamps.

use chrono::{Datelike, Timelike};
use vstd::prelude::*;

verus! {

/// Earliest year that chrono's `NaiveDate` can hold.
pub const MIN_YEAR: i32 = -262143;

/// Latest year that chrono's `NaiveDate` can hold.
pub const MAX_YEAR: i32 = 262142;

/// A day of the proleptic Gregorian calendar.
#[derive(Clone, Copy, Debug, PartialEq, Eq, Structural)]
pub struct Date {
    pub year: i32,
    pub month: u32,
    pub day: u32,
}

/// A local wall-clock time with minute resolution.
#[derive(Clone, Copy, Debug, PartialEq, Eq, Structural)]
pub struct Stamp {
    pub date: Date,
    pub hour: u32,
    pub minute: u32,
}

pub open spec fn is_leap_year(y: int) -> bool {
    (y % 4 == 0 && y % 100 != 0) || y % 400 == 0
}

pub open spec fn days_in_month(y: int, m: int) -> int {
    if m == 2 {
        if is_leap_year(y) { 29 } else { 28 }
    } else if m == 4 || m == 6 || m == 9 || m == 11 {
        30
    } else {
        31
    }
}

/// Whether the three numbers name a day that chrono can represent.
pub open spec fn valid_ymd(y: int, m: int, d: int) -> bool {
    &&& MIN_YEAR <= y <= MAX_YEAR
    &&& 1 <= m <= 12
    &&& 1 <= d <= days_in_month(y, m)
}

/// Chronological order of days written as (year, month, day).
pub open spec fn ymd_le(a: (int, int, int), b: (int, int, int)) -> bool {
    a.0 < b.0 || (a.0 == b.0 && (a.1 < b.1 || (a.1 == b.1 && a.2 <= b.2)))
}

/// Chronological order of days.
pub open spec fn date_le(a: Date, b: Date) -> bool {
    ymd_le(a.ymd(), b.ymd())
}

/// Chronological order of stamps.
pub open spec fn stamp_le(a: Stamp, b: Stamp) -> bool {
    (date_le(a.date, b.date) && a.date != b.date) || (a.date == b.date && (a.hour < b.hour || (
    a.hour == b.hour && a.minute <= b.minute)))
}

/// Minutes since midnight.
pub open spec fn minute_of_day(s: Stamp) -> int {
    s.hour * 60 + s.minute
}

/// The Monday that starts the week of the given day, as (year, month, day).
pub uninterp spec fn week_first_day(y: int, m: int, d: int) -> (int, int, int);

/// The Sunday that ends the week of the given day, as (year, month, day).
pub uninterp spec fn week_last_day(y: int, m: int, d: int) -> (int, int, int);

impl Date {
    pub open spec fn valid(self) -> bool {
        valid_ymd(self.year as int, self.month as int, self.day as int)
    }

    pub open spec fn ymd(self) -> (int, int, int) {
        (self.year as int, self.month as int, self.day as int)
    }

    /// The day with the given year, month and day of month, if it exists.
    pub fn from_ymd_opt(year: i32, month: u32, day: u32) -> (r: Option<Date>)
        ensures
            r == (if valid_ymd(year as int, month as int, day as int) {
                Some(Date { year, month, day })
            } else {
                None
            }),
    {
        if chrono_ymd_exists(year, month, day) {
            Some(Date { year, month, day })
        } else {
            None
        }
    }

    /// Whether `self` is the same day as `other` or an earlier one.
    pub fn le(&self, other: &Date) -> (r: bool)
        ensures
            r == date_le(*self, *other),
    {
        self.year < other.year || (self.year == other.year && (self.month < other.month || (
        self.month == other.month && self.day <= other.day)))
    }

    /// The Monday of the ISO week (Monday to Sunday) that holds this day.
    pub fn week_monday(&self) -> (r: Date)
        requires
            self.valid(),
            MIN_YEAR < self.year < MAX_YEAR,
        ensures
            r.valid(),
            r.ymd() == week_first_day(self.year as int, self.month as int, self.day as int),
            date_le(r, *self),
    {
        chrono_week_first_day(self)
    }

    /// The Sunday of the ISO week (Monday to Sunday) that holds this day.
    pub fn week_sunday(&self) -> (r: Date)
        requires
            self.valid(),
            MIN_YEAR < self.year < MAX_YEAR,
        ensures
            r.valid(),
            r.ymd() == week_last_day(self.year as int, self.month as int, self.day as int),
            date_le(*self, r),
    {
        chrono_week_last_day(self)
    }
}

impl Stamp {
    pub open spec fn valid(self) -> bool {
        self.date.valid() && self.hour < 24 && self.minute < 60
    }

    /// Whether `self` is the same time as `other` or an earlier one.
    pub fn le(&self, other: &Stamp) -> (r: bool)
        ensures
            r == stamp_le(*self, *other),
    {
        if self.date == other.date {
            self.hour < other.hour || (self.hour == other.hour && self.minute <= other.minute)
        } else {
            self.date.le(&other.date)
        }
    }
}

/// Relies on chrono's `NaiveDate::from_ymd_opt`: `Some` exactly for a month
/// in 1..=12, a day that the month has (leap years by the Gregorian rule)
/// and a year in `MIN_YEAR..=MAX_YEAR`.
#[verifier::external_body]
fn chrono_ymd_exists(year: i32, month: u32, day: u32) -> (r: bool)
    ensures
        r == valid_ymd(year as int, month as int, day as int),
{
    chrono::NaiveDate::from_ymd_opt(year, month, day).is_some()
}

/// Relies on chrono's `NaiveWeek::first_day` for a week that starts on
/// Monday: a valid day, not after the given one. It panics only out of
/// chrono's year range, which the bounds on the year keep clear of.
#[verifier::external_body]
fn chrono_week_first_day(d: &Date) -> (r: Date)
    requires
        d.valid(),
        MIN_YEAR < d.year < MAX_YEAR,
    ensures
        r.valid(),
        r.ymd() == week_first_day(d.year as int, d.month as int, d.day as int),
        date_le(r, *d),
{
    let nd = chrono::NaiveDate::from_ymd_opt(d.year, d.month, d.day).unwrap();
    let f = nd.week(chrono::Weekday::Mon).first_day();
    Date { year: f.year(), month: f.month(), day: f.day() }
}

/// Relies on chrono's `NaiveWeek::last_day` for a week that starts on
/// Monday: a valid day, not before the given one. It panics only out of
/// chrono's year range, which the bounds on the year keep clear of.
#[verifier::external_body]
fn chrono_week_last_day(d: &Date) -> (r: Date)
    requires
        d.valid(),
        MIN_YEAR < d.year < MAX_YEAR,
    ensures
        r.valid(),
        r.ymd() == week_last_day(d.year as int, d.month as int, d.day as int),
        date_le(*d, r),
{
    let nd = chrono::NaiveDate::from_ymd_opt(d.year, d.month, d.day).unwrap();
    let l = nd.week(chrono::Weekday::Mon).last_day();
    Date { year: l.year(), month: l.month(), day: l.day() }
}

/// Relies on chrono's `Local::now`: the local wall-clock time, read as a
/// valid day and an hour and minute of it (seconds are dropped).
#[verifier::external_body]
pub(crate) fn local_now() -> (r: Stamp)
    ensures
        r.valid(),
{
    let now = chrono::Local::now();
    Stamp {
        date: Date { year: now.year(), month: now.month(), day: now.day() },
        hour: now.hour(),
        minute: now.minute(),
    }
}

} // verus!

//! Calendar days and local timestamps as plain integers.
use vstd::prelude::*;

verus! {

/// Seconds in one calendar day.
pub const SECONDS_PER_DAY: i64 = 86400;

/// A calendar day of the proleptic Gregorian calendar, counted as chrono
/// counts days from the common era: 0001-01-01 is day 1 (a Monday).
#[derive(Clone, Copy, Debug, PartialEq, Eq, Structural)]
pub struct Date {
    pub day: i32,
}

/// Leap years of the proleptic Gregorian calendar.
pub open spec fn is_leap_year(y: int) -> bool {
    y % 4 == 0 && (y % 100 != 0 || y % 400 == 0)
}

/// Days in month `m` of year `y`.
pub open spec fn days_in_month(y: int, m: int) -> int {
    if m == 2 {
        if is_leap_year(y) { 29 } else { 28 }
    } else if m == 4 || m == 6 || m == 9 || m == 11 {
        30
    } else {
        31
    }
}

/// Days of year `y` before the first of month `m`.
pub open spec fn days_before_month(y: int, m: int) -> int {
    let common: int = if m <= 1 { 0 } else if m == 2 { 31 } else if m == 3 { 59 } else if m == 4 { 90 }
        else if m == 5 { 120 } else if m == 6 { 151 } else if m == 7 { 181 } else if m == 8 { 212 }
        else if m == 9 { 243 } else if m == 10 { 273 } else if m == 11 { 304 } else { 334 };
    common + if m > 2 && is_leap_year(y) { 1int } else { 0int }
}

/// `year-month-day` is a day that chrono can represent.
pub open spec fn valid_ymd(year: int, month: int, day: int) -> bool {
    &&& -262143 <= year <= 262142
    &&& 1 <= month <= 12
    &&& 1 <= day <= days_in_month(year, month)
}

/// The number of the day `year-month-day`, counted from 0001-01-01 as day 1.
pub open spec fn ce_day_number(year: int, month: int, day: int) -> int {
    let y = year - 1;
    365 * y + y / 4 - y / 100 + y / 400 + days_before_month(year, month) + day
}

/// Relies on chrono's `NaiveDate::from_ymd_opt` (a date exactly for a valid
/// year, month and day in chrono's year range) and
/// `Datelike::num_days_from_ce` (the day's number from 0001-01-01).
#[verifier::external_body]
fn chrono_day_number(year: i32, month: u32, day: u32) -> (r: Option<i32>)
    ensures
        r.is_some() == valid_ymd(year as int, month as int, day as int),
        r matches Some(n) ==> n as int == ce_day_number(year as int, month as int, day as int),
{
    chrono::NaiveDate::from_ymd_opt(year, month, day).map(|d| chrono::Datelike::num_days_from_ce(&d))
}

/// Weekday of a day number: 0 for Monday up to 6 for Sunday.
pub open spec fn weekday_of(day: int) -> int {
    (day - 1) % 7
}

/// Local timestamp (seconds) of the midnight that starts `day`.
pub open spec fn midnight_of(day: int) -> int {
    day * 86400
}

impl Date {
    /// The day `year-month-day` of the Gregorian calendar, if it exists.
    pub fn from_ymd(year: i32, month: u32, day: u32) -> (r: Option<Date>)
        ensures
            r.is_some() == valid_ymd(year as int, month as int, day as int),
            r matches Some(d) ==> d.day as int == ce_day_number(year as int, month as int, day as int),
    {
        match chrono_day_number(year, month, day) {
            Some(n) => Some(Date { day: n }),
            None => None,
        }
    }

    /// Weekday of this day: 0 for Monday up to 6 for Sunday.
    pub fn weekday(&self) -> (r: u8)
        ensures
            r as int == weekday_of(self.day as int),
            r < 7,
    {
        let shifted: i64 = self.day as i64 - 1;
        let w = shifted.checked_rem_euclid(7);
        match w {
            Some(v) => v as u8,
            None => 0,
        }
    }

    /// The day before, unless this is the first representable day.
    pub fn pred(&self) -> (r: Option<Date>)
        ensures
            r == (if self.day > i32::MIN { Some(Date { day: (self.day - 1) as i32 }) } else { None }),
    {
        if self.day > i32::MIN {
            Some(Date { day: self.day - 1 })
        } else {
            None
        }
    }

    /// The day after, unless this is the last representable day.
    pub fn succ(&self) -> (r: Option<Date>)
        ensures
            r == (if self.day < i32::MAX { Some(Date { day: (self.day + 1) as i32 }) } else { None }),
    {
        if self.day < i32::MAX {
            Some(Date { day: self.day + 1 })
        } else {
            None
        }
    }

    /// Local timestamp of this day's midnight.
    pub fn midnight(&self) -> (r: i64)
        ensures
            r as int == midnight_of(self.day as int),
    {
        self.day as i64 * SECONDS_PER_DAY
    }

    /// Local timestamp `secs` seconds after this day's midnight.
    pub fn at_seconds(&self, secs: u32) -> (r: i64)
        ensures
            r as int == midnight_of(self.day as int) + secs as int,
    {
        self.midnight() + secs as i64
    }
}

} // verus!

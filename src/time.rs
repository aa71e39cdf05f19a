//! Dates, times of day and timestamps as plain integers.
//!
//! A [`Date`] is the number of days in the proleptic Gregorian calendar
//! counted from January 1 of year 1 (which is day 1); chrono does the calendar
//! arithmetic. A [`Time`] is a whole number of seconds since midnight. A
//! [`DateTime`] is the pair of both, and orders by its count of seconds.
use chrono::Datelike;
use vstd::prelude::*;

verus! {

/// Number of seconds in one day.
pub const SECONDS_PER_DAY: u32 = 86400;

/// Smallest year that chrono represents.
pub const MIN_YEAR: i32 = -262143;

/// Largest year that chrono represents.
pub const MAX_YEAR: i32 = 262142;

/// The day number that chrono gives a valid calendar date.
pub uninterp spec fn ce_day_of(year: int, month: int, day: int) -> int;

pub open spec fn is_leap_year(year: int) -> bool {
    year % 4 == 0 && (year % 100 != 0 || year % 400 == 0)
}

pub open spec fn days_in_month(year: int, month: int) -> int {
    if month == 2 {
        if is_leap_year(year) { 29 } else { 28 }
    } else if month == 4 || month == 6 || month == 9 || month == 11 {
        30
    } else {
        31
    }
}

/// A year, month and day that name a date of the proleptic Gregorian calendar
/// within chrono's range of years.
pub open spec fn ymd_valid(year: int, month: int, day: int) -> bool {
    &&& MIN_YEAR <= year <= MAX_YEAR
    &&& 1 <= month <= 12
    &&& 1 <= day <= days_in_month(year, month)
}

/// Relies on chrono's `NaiveDate::from_ymd_opt`, which gives a date exactly
/// for a valid year, month and day, and on `Datelike::num_days_from_ce`, which
/// counts that date's days from January 1 of year 1.
#[verifier::external_body]
fn chrono_ce_day(year: i32, month: u32, day: u32) -> (r: Option<i32>)
    ensures
        r is Some <==> ymd_valid(year as int, month as int, day as int),
        r matches Some(n) ==> n as int == ce_day_of(year as int, month as int, day as int),
{
    chrono::NaiveDate::from_ymd_opt(year, month, day).map(|d| d.num_days_from_ce())
}

/// A calendar date.
#[derive(Clone, Copy, Debug, PartialEq, Eq, Structural)]
pub struct Date {
    day: i32,
}

impl Date {
    /// Days counted from January 1 of year 1, which is day 1.
    pub closed spec fn ce_day(self) -> int {
        self.day as int
    }

    /// The date with the given year, month (1 to 12) and day of the month, or
    /// `None` where no such date exists.
    pub fn from_ymd(year: i32, month: u32, day: u32) -> (r: Option<Date>)
        ensures
            r is Some <==> ymd_valid(year as int, month as int, day as int),
            r matches Some(d) ==> d.ce_day() == ce_day_of(year as int, month as int, day as int),
    {
        match chrono_ce_day(year, month, day) {
            Some(n) => Some(Date { day: n }),
            None => None,
        }
    }

    /// Days counted from January 1 of year 1, which is day 1.
    pub fn num_days_from_ce(&self) -> (r: i32)
        ensures
            r as int == self.ce_day(),
    {
        self.day
    }
}

/// A time of day with a resolution of one second.
#[derive(Clone, Copy, Debug, PartialEq, Eq, Structural)]
pub struct Time {
    secs: u32,
}

impl Time {
    /// Seconds since midnight.
    pub closed spec fn seconds(self) -> int {
        self.secs as int
    }

    /// The time `hour:minute:second`, or `None` where a component is out of
    /// range.
    pub fn from_hms(hour: u32, minute: u32, second: u32) -> (r: Option<Time>)
        ensures
            r is Some <==> (hour < 24 && minute < 60 && second < 60),
            r matches Some(t) ==> t.seconds() == hour * 3600 + minute * 60 + second,
    {
        if hour < 24 && minute < 60 && second < 60 {
            Some(Time { secs: hour * 3600 + minute * 60 + second })
        } else {
            None
        }
    }

    /// The time that lies `secs` seconds after midnight, or `None` where that
    /// is a day or more.
    pub fn from_seconds_since_midnight(secs: u32) -> (r: Option<Time>)
        ensures
            r is Some <==> secs < SECONDS_PER_DAY,
            r matches Some(t) ==> t.seconds() == secs,
    {
        if secs < SECONDS_PER_DAY {
            Some(Time { secs })
        } else {
            None
        }
    }

    /// Seconds since midnight.
    pub fn seconds_since_midnight(&self) -> (r: u32)
        ensures
            r as int == self.seconds(),
    {
        self.secs
    }

    /// The hour, 0 to 23.
    pub fn hour(&self) -> (r: u32)
        ensures
            r as int == self.seconds() / 3600,
    {
        self.secs / 3600
    }

    /// The minute within the hour, 0 to 59.
    pub fn minute(&self) -> (r: u32)
        ensures
            r as int == self.seconds() % 3600 / 60,
    {
        self.secs % 3600 / 60
    }

    /// The second within the minute, 0 to 59.
    pub fn second(&self) -> (r: u32)
        ensures
            r as int == self.seconds() % 60,
    {
        self.secs % 60
    }

    /// Midnight, the first second of a day.
    pub fn day_start() -> (r: Time)
        ensures
            r.seconds() == 0,
    {
        Time { secs: 0 }
    }

    /// 23:59:59, the last second of a day.
    pub fn day_end() -> (r: Time)
        ensures
            r.seconds() == SECONDS_PER_DAY - 1,
    {
        Time { secs: SECONDS_PER_DAY - 1 }
    }
}

/// A date together with a time of day.
#[derive(Clone, Copy, Debug, PartialEq, Eq, Structural)]
pub struct DateTime {
    pub date: Date,
    pub time: Time,
}

impl DateTime {
    /// Seconds counted from midnight at the start of day 0.
    pub open spec fn timestamp(self) -> int {
        self.date.ce_day() * SECONDS_PER_DAY + self.time.seconds()
    }

    proof fn lemma_timestamp_bounds(self)
        ensures
            -0x1_0000_0000_0000 < self.date.ce_day() * SECONDS_PER_DAY <= self.timestamp(),
            self.timestamp() < 0x1_0000_0000_0000,
    {
        let d = self.date.ce_day();
        assert(-0x8000_0000 <= d < 0x8000_0000) by {
            reveal(Date::ce_day);
        }
        assert(0 <= self.time.seconds() < 0x1_0000_0000) by {
            reveal(Time::seconds);
        }
        assert(-0x1_0000_0000_0000 < d * 86400 < 0x1_0000_0000_0000 - 0x1_0000_0000)
            by (nonlinear_arith)
            requires
                -0x8000_0000 <= d < 0x8000_0000,
        ;
    }

    /// The moment at `time` on `date`.
    pub fn new(date: Date, time: Time) -> (r: DateTime)
        ensures
            r.date == date,
            r.time == time,
    {
        DateTime { date, time }
    }

    /// Seconds counted from midnight at the start of day 0.
    pub fn timestamp_seconds(&self) -> (r: i64)
        ensures
            r as int == self.timestamp(),
    {
        proof {
            self.lemma_timestamp_bounds();
        }
        self.date.day as i64 * SECONDS_PER_DAY as i64 + self.time.secs as i64
    }

    /// The signed number of seconds from `earlier` to `self`.
    pub fn seconds_since(&self, earlier: &DateTime) -> (r: i64)
        ensures
            r as int == self.timestamp() - earlier.timestamp(),
    {
        proof {
            self.lemma_timestamp_bounds();
            earlier.lemma_timestamp_bounds();
        }
        self.timestamp_seconds() - earlier.timestamp_seconds()
    }
}

} // verus!

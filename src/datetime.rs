//! Instants, calendar days and trip-origin times of day.
use vstd::prelude::*;
use crate::error::ParseError;
use crate::text::{decimal_in, parse_decimal};
use vstd::string::StringSliceAdditionalSpecFns;

verus! {

pub const SECS_PER_DAY: i64 = 86400;

/// Hundredths of a minute in one day.
pub const DAY_HUNDREDTHS: i32 = 144000;

/// The earliest and latest second that the calendar can name
/// (the years -262143 to 262142 of the proleptic Gregorian calendar).
pub const MIN_UNIX_SECS: i64 = -8334601228800;

pub const MAX_UNIX_SECS: i64 = 8210266876799;

pub open spec fn unix_in_range(secs: int) -> bool {
    MIN_UNIX_SECS <= secs <= MAX_UNIX_SECS
}

/// A UTC instant, in whole seconds since 1970-01-01 00:00:00.
#[derive(Debug, Clone, Copy, PartialEq, Eq, Structural, Hash, PartialOrd, Ord)]
pub struct Timestamp {
    pub secs: i64,
}

/// A calendar day, counted from 1970-01-01.
#[derive(Debug, Clone, Copy, PartialEq, Eq, Structural, Hash)]
pub struct Date {
    pub days: i32,
}

/// A time of day, `offset` days away from the service day it belongs to.
#[derive(Debug, Clone, Copy, PartialEq, Eq, Structural, Hash, PartialOrd, Ord)]
pub struct Time {
    pub h: u8,
    pub m: u8,
    pub s: u8,
    pub offset: i8,
}

pub const MIN_YEAR: i32 = -262143;

pub const MAX_YEAR: i32 = 262142;

pub open spec fn is_leap_year(y: int) -> bool {
    y % 4 == 0 && (y % 100 != 0 || y % 400 == 0)
}

pub open spec fn days_in_month(y: int, m: int) -> int {
    if m == 2 {
        if is_leap_year(y) {
            29
        } else {
            28
        }
    } else if m == 4 || m == 6 || m == 9 || m == 11 {
        30
    } else {
        31
    }
}

/// Whether `y-m-d` is a day of the proleptic Gregorian calendar within its supported years.
pub open spec fn is_calendar_date(y: int, m: int, d: int) -> bool {
    MIN_YEAR <= y <= MAX_YEAR && 1 <= m <= 12 && 1 <= d <= days_in_month(y, m)
}

/// Days from 1970-01-01 to `y-m-d`, counting in 400-year eras that start on March 1.
pub open spec fn civil_days(y: int, m: int, d: int) -> int {
    let y2 = if m <= 2 {
        y - 1
    } else {
        y
    };
    let era = y2 / 400;
    let yoe = y2 - era * 400;
    let mp = if m > 2 {
        m - 3
    } else {
        m + 9
    };
    let doy = (153 * mp + 2) / 5 + d - 1;
    let doe = yoe * 365 + yoe / 4 - yoe / 100 + doy;
    era * 146097 + doe - 719468
}

/// The day number (from 1970-01-01) of a date, when the date exists.
pub open spec fn epoch_day_of(y: i32, m: u32, d: u32) -> Option<i32> {
    if is_calendar_date(y as int, m as int, d as int) {
        Some(civil_days(y as int, m as int, d as int) as i32)
    } else {
        None
    }
}

/// Relies on chrono's `NaiveDate::from_ymd_opt`, which gives `None` for a month or day that
/// does not exist and for a year outside `MIN_YEAR..=MAX_YEAR`, and on
/// `NaiveDate::to_epoch_days`, which counts days in the proleptic Gregorian calendar from
/// 1970-01-01.
#[verifier::external_body]
fn civil_epoch_day(y: i32, m: u32, d: u32) -> (r: Option<i32>)
    ensures
        r == epoch_day_of(y, m, d),
{
    match chrono::NaiveDate::from_ymd_opt(y, m, d) {
        Some(date) => Some(date.to_epoch_days()),
        None => None,
    }
}

/// Relies on chrono's `Utc::now` and `DateTime::timestamp`: the clock, read once. `now` takes
/// the time since 1970 (panicking on a clock set earlier) and builds a `DateTime` that the
/// calendar can name, so the seconds lie between 0 and the calendar's last second.
#[verifier::external_body]
fn clock_now() -> (r: i64)
    ensures
        0 <= r <= MAX_UNIX_SECS,
{
    chrono::Utc::now().timestamp()
}

impl Timestamp {
    pub open spec fn wf(self) -> bool {
        unix_in_range(self.secs as int)
    }

    /// The current instant.
    pub fn now() -> (r: Timestamp)
        ensures
            r.wf(),
            r.secs >= 0,
    {
        Timestamp { secs: clock_now() }
    }

    pub fn epoch() -> (r: Timestamp)
        ensures
            r.secs == 0,
    {
        Timestamp { secs: 0 }
    }

    pub fn from_unix(unix: i64) -> (r: Timestamp)
        ensures
            r.secs == unix,
    {
        Timestamp { secs: unix }
    }

    pub fn as_unix_utc(&self) -> (r: i64)
        ensures
            r == self.secs,
    {
        self.secs
    }

    pub fn ms_since_epoch(&self) -> (r: i64)
        requires
            self.wf(),
        ensures
            r == self.secs * 1000,
    {
        self.secs * 1000
    }

    /// Seconds from `earlier` to `self`.
    pub fn seconds_since(&self, earlier: &Timestamp) -> (r: i64)
        requires
            self.wf(),
            earlier.wf(),
        ensures
            r == self.secs - earlier.secs,
    {
        self.secs - earlier.secs
    }

    /// The instant `secs` seconds later.
    pub fn plus(&self, secs: i64) -> (r: Timestamp)
        requires
            unix_in_range(self.secs + secs),
        ensures
            r.secs == self.secs + secs,
    {
        Timestamp { secs: self.secs + secs }
    }

    /// Midnight UTC of the day that an eight-digit `yyyymmdd` text names.
    pub fn from_yyyymmdd(s: &str) -> (r: Result<Timestamp, ParseError>)
        ensures
            r == ymd_midnight(s.spec_bytes()),
    {
        let b = s.as_bytes();
        match Date::from_yyyymmdd_bytes(b) {
            Ok(d) => Ok(d.midnight()),
            Err(e) => Err(e),
        }
    }

    /// The calendar day (UTC) that holds this instant.
    pub fn date(&self) -> (r: Date)
        requires
            self.wf(),
        ensures
            r.days == day_of_secs(self.secs as int),
    {
        let d = self.secs / SECS_PER_DAY;
        let days = if self.secs % SECS_PER_DAY < 0 {
            d - 1
        } else {
            d
        };
        assert(days == day_of_secs(self.secs as int)) by (nonlinear_arith)
            requires
                days == (if self.secs % 86400 < 0 { self.secs / 86400 - 1 } else { self.secs / 86400 }),
        {
        }
        Date { days: days as i32 }
    }
}

/// The day (counted from 1970-01-01) that holds the second `secs`.
pub open spec fn day_of_secs(secs: int) -> int {
    secs / 86400
}

/// Splits `yyyymmdd` into year, month and day text, and reads them.
pub open spec fn ymd_parts(b: Seq<u8>) -> Option<(i32, u32, u32)> {
    if b.len() < 6 {
        None
    } else {
        match (
            decimal_in(b.subrange(0, 4), true, i32::MIN as int, i32::MAX as int),
            decimal_in(b.subrange(4, 6), false, 0, u32::MAX as int),
            decimal_in(b.subrange(6, b.len() as int), false, 0, u32::MAX as int),
        ) {
            (Some(y), Some(m), Some(d)) => Some((y as i32, m as u32, d as u32)),
            _ => None,
        }
    }
}

pub open spec fn ymd_date(b: Seq<u8>) -> Result<Date, ParseError> {
    match ymd_parts(b) {
        Some((y, m, d)) => match epoch_day_of(y, m, d) {
            Some(days) => Ok(Date { days }),
            None => Err(ParseError::BadDate),
        },
        None => Err(ParseError::BadDate),
    }
}

pub open spec fn ymd_midnight(b: Seq<u8>) -> Result<Timestamp, ParseError> {
    match ymd_date(b) {
        Ok(d) => Ok(Timestamp { secs: (d.days * 86400) as i64 }),
        Err(e) => Err(e),
    }
}

impl Date {
    /// The date `y-m-d`, when it exists.
    pub fn make(y: i32, m: u32, d: u32) -> (r: Option<Date>)
        ensures
            r == (match epoch_day_of(y, m, d) {
                Some(days) => Some(Date { days }),
                None => None,
            }),
    {
        match civil_epoch_day(y, m, d) {
            Some(days) => Some(Date { days }),
            None => None,
        }
    }

    pub fn from_yyyymmdd_bytes(b: &[u8]) -> (r: Result<Date, ParseError>)
        ensures
            r == ymd_date(b@),
    {
        if b.len() < 6 {
            return Err(ParseError::BadDate);
        }
        let ys = crate::text::copy_range(b, 0, 4);
        let ms = crate::text::copy_range(b, 4, 6);
        let ds = crate::text::copy_range(b, 6, b.len());
        let y = parse_decimal(ys.as_slice(), true, i32::MIN as i64, i32::MAX as i64);
        let m = parse_decimal(ms.as_slice(), false, 0, u32::MAX as i64);
        let d = parse_decimal(ds.as_slice(), false, 0, u32::MAX as i64);
        match (y, m, d) {
            (Some(y), Some(m), Some(d)) => match civil_epoch_day(y as i32, m as u32, d as u32) {
                Some(days) => Ok(Date { days }),
                None => Err(ParseError::BadDate),
            },
            _ => Err(ParseError::BadDate),
        }
    }

    /// Midnight UTC at the start of this day.
    pub fn midnight(self) -> (r: Timestamp)
        ensures
            r.secs == self.days * 86400,
    {
        Timestamp { secs: self.days as i64 * SECS_PER_DAY }
    }

    /// The instant at time of day `t` on the day `t.offset` days after this one.
    pub fn at(self, t: Time) -> (r: Timestamp)
        requires
            t.h < 24 && t.m < 60 && t.s < 60,
        ensures
            r.secs == origin_secs(self, t),
    {
        let day = self.days as i64 + t.offset as i64;
        Timestamp { secs: day * SECS_PER_DAY + t.h as i64 * 3600 + t.m as i64 * 60 + t.s as i64 }
    }
}

/// Seconds since 1970 of time of day `t` on the day `t.offset` days after `d`.
pub open spec fn origin_secs(d: Date, t: Time) -> int {
    (d.days + t.offset) * 86400 + t.h * 3600 + t.m * 60 + t.s
}

/// The time of day that a trip-origin field gives, in hundredths of a minute past
/// midnight of the service day (possibly negative, or a day or more).
pub open spec fn origin_time(n: int) -> Result<Time, ParseError> {
    let (x, offset) = if n < 0 {
        (n + 144000, -1int)
    } else if n >= 144000 {
        (n - 144000, 1int)
    } else {
        (n, 0int)
    };
    if x < 0 {
        Ok(Time { h: 0, m: 0, s: 0, offset: offset as i8 })
    } else if x / 6000 > 255 {
        Err(ParseError::HoursOutOfRange)
    } else {
        Ok(
            Time {
                h: (x / 6000) as u8,
                m: ((x / 100) % 60) as u8,
                s: ((x % 100) * 60 / 100) as u8,
                offset: offset as i8,
            },
        )
    }
}

pub open spec fn origin_time_of_text(b: Seq<u8>) -> Result<Time, ParseError> {
    match decimal_in(b, true, i32::MIN as int, i32::MAX as int) {
        Some(n) => origin_time(n),
        None => Err(ParseError::BadNumber),
    }
}

/// Seconds from the midnight before the service day to this time.
pub open spec fn secs_since_last_mid_spec(t: Time) -> int {
    (1 + t.offset) * 86400 + t.h * 3600 + t.m * 60 + t.s
}

impl Time {
    pub fn new(h: u8, m: u8, s: u8) -> (r: Time)
        ensures
            r == (Time { h, m, s, offset: 0 }),
    {
        Time { h, m, s, offset: 0 }
    }

    pub fn new_with_offset(h: u8, m: u8, s: u8, offset: i8) -> (r: Time)
        ensures
            r == (Time { h, m, s, offset }),
    {
        Time { h, m, s, offset }
    }

    /// Reads a trip-origin field: a signed count of hundredths of a minute past midnight.
    pub fn from_trip_origin(s: &str) -> (r: Result<Time, ParseError>)
        ensures
            r == origin_time_of_text(s.spec_bytes()),
    {
        Time::from_trip_origin_bytes(s.as_bytes())
    }

    pub fn from_trip_origin_bytes(b: &[u8]) -> (r: Result<Time, ParseError>)
        ensures
            r == origin_time_of_text(b@),
    {
        let n = match parse_decimal(b, true, i32::MIN as i64, i32::MAX as i64) {
            Some(n) => n as i32,
            None => return Err(ParseError::BadNumber),
        };
        let (x, offset): (i32, i8) = if n < 0 {
            (n + DAY_HUNDREDTHS, -1)
        } else if n >= DAY_HUNDREDTHS {
            (n - DAY_HUNDREDTHS, 1)
        } else {
            (n, 0)
        };
        if x < 0 {
            return Ok(Time::new_with_offset(0, 0, 0, offset));
        }
        let hrs = x / 6000;
        if hrs > 255 {
            return Err(ParseError::HoursOutOfRange);
        }
        let mins = (x / 100) % 60;
        let secs = (x % 100) * 60 / 100;
        Ok(Time::new_with_offset(hrs as u8, mins as u8, secs as u8, offset))
    }

    pub fn secs_since_last_mid(self) -> (r: u64)
        requires
            self.offset >= -1,
        ensures
            r == secs_since_last_mid_spec(self),
    {
        let days = (1 + self.offset as i64) as u64;
        let hours = days * 24 + self.h as u64;
        let mins = hours * 60 + self.m as u64;
        mins * 60 + self.s as u64
    }

    /// Seconds from `self` to the later time `later`.
    pub fn elapsed_until(self, later: Time) -> (r: u64)
        requires
            self.offset >= -1,
            later.offset >= -1,
            secs_since_last_mid_spec(self) <= secs_since_last_mid_spec(later),
        ensures
            r == secs_since_last_mid_spec(later) - secs_since_last_mid_spec(self),
    {
        let a = self.secs_since_last_mid();
        let b = later.secs_since_last_mid();
        b - a
    }
}

} // verus!

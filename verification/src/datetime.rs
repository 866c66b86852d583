//! Calendar arithmetic on a year and a day of the year, and the distance
//! between two written dates.
//!
//! A day of the year is counted in units of a hundred-millionth of a day,
//! the step of the epoch column of an element record; one such unit is
//! exactly 864 microseconds.

use crate::text::{
    fixed_text_zero_padded, push_fixed_zero_padded, push_zero_padded, zero_padded,
};
use vstd::prelude::*;

verus! {

/// The units of a day of the year that make one day.
pub const DAY_UNITS: u64 = 100_000_000;

/// The microseconds in one unit of a day of the year.
pub const MICROS_PER_DAY_UNIT: u64 = 864;

/// The layout of a written date: `2024-03-01T12:30:45.000000`.
pub const DATETIME_LAYOUT: &'static str = "%Y-%m-%dT%H:%M:%S%.6f";

/// Why a date could not be written or read.
#[derive(Clone, Copy, Debug, PartialEq, Eq, Structural)]
pub enum DateTimeError {
    /// The day of the year is past the end of the year.
    DayOutOfRange,
    /// The year does not fit in four digits.
    YearOutOfRange,
    /// The text is no date in the layout expected.
    Unparseable,
}

/// The rule of the Gregorian calendar for leap years.
pub open spec fn leap_year(year: int) -> bool {
    (year % 4 == 0 && year % 100 != 0) || year % 400 == 0
}

/// The days of month `month`, counted from 1 for January.
pub open spec fn days_in_month(month: int, leap: bool) -> int {
    if month == 2 {
        if leap {
            29
        } else {
            28
        }
    } else if month == 4 || month == 6 || month == 9 || month == 11 {
        30
    } else {
        31
    }
}

/// The days of the first `months` months of a year.
pub open spec fn days_through(months: int, leap: bool) -> int
    decreases months,
{
    if months <= 0 {
        0
    } else {
        days_through(months - 1, leap) + days_in_month(months, leap)
    }
}

/// The seconds since 1970-01-01T00:00:00 that a text spells when it is read
/// in a layout, or `None` where the text does not fit the layout.
pub uninterp spec fn datetime_seconds(text: Seq<char>, layout: Seq<char>) -> Option<int>;

#[verifier::external_type_specification]
#[verifier::external_body]
pub struct ExParseError(chrono::format::ParseError);

/// `chrono::NaiveDateTime::parse_from_str`, followed by the seconds of the
/// date it found, taken as a time in UTC. The contract claims only that the
/// outcome is a function of the text and the layout.
#[verifier::external_body]
fn read_seconds(text: &str, layout: &str) -> (r: Result<i64, chrono::format::ParseError>)
    ensures
        match r {
            Ok(s) => datetime_seconds(text@, layout@) == Some(s as int),
            Err(_) => datetime_seconds(text@, layout@) is None,
        },
{
    match chrono::NaiveDateTime::parse_from_str(text, layout) {
        Ok(found) => Ok(found.and_utc().timestamp()),
        Err(e) => Err(e),
    }
}

/// Tells whether a year is a leap year.
pub fn is_leap_year(year: u16) -> (r: bool)
    ensures
        r == leap_year(year as int),
{
    (year % 4 == 0 && year % 100 != 0) || (year % 400 == 0)
}

/// The days of a month, counted from 1 for January.
pub fn month_length(month: u8, leap: bool) -> (r: u16)
    ensures
        r == days_in_month(month as int, leap),
        28 <= r <= 31,
{
    if month == 2 {
        if leap {
            29
        } else {
            28
        }
    } else if month == 4 || month == 6 || month == 9 || month == 11 {
        30
    } else {
        31
    }
}

/// The first month, from `month` on, by whose end the day of the year `day`
/// has come; 13 where that is none of the twelve.
pub open spec fn month_from(day: int, leap: bool, month: int) -> int
    decreases 13 - month,
{
    if month > 12 || day <= days_through(month, leap) {
        month
    } else {
        month_from(day, leap, month + 1)
    }
}

/// The month in which the day of the year `day` falls; 13 for a day past
/// December.
pub open spec fn month_of_day(day: int, leap: bool) -> int {
    month_from(day, leap, 1)
}

/// The day of the month on which the day of the year `day` falls.
pub open spec fn day_of_month(day: int, leap: bool) -> int {
    day - days_through(month_of_day(day, leap) - 1, leap)
}

/// The most that a day of the year may be: the days of the year and one more.
pub open spec fn last_day(leap: bool) -> int {
    if leap {
        367
    } else {
        366
    }
}

/// The twelve months of a year have 365 days, and 366 in a leap year.
pub proof fn lemma_days_through_year(leap: bool)
    ensures
        days_through(12, leap) == if leap {
            366int
        } else {
            365int
        },
{
    assert(days_through(0, leap) == 0);
    assert(days_through(1, leap) == 31);
    assert(days_through(2, leap) == days_through(1, leap) + days_in_month(2, leap));
    assert(days_through(3, leap) == days_through(2, leap) + 31);
    assert(days_through(4, leap) == days_through(3, leap) + 30);
    assert(days_through(5, leap) == days_through(4, leap) + 31);
    assert(days_through(6, leap) == days_through(5, leap) + 30);
    assert(days_through(7, leap) == days_through(6, leap) + 31);
    assert(days_through(8, leap) == days_through(7, leap) + 31);
    assert(days_through(9, leap) == days_through(8, leap) + 30);
    assert(days_through(10, leap) == days_through(9, leap) + 31);
    assert(days_through(11, leap) == days_through(10, leap) + 30);
    assert(days_through(12, leap) == days_through(11, leap) + 31);
}

/// Finds the month in which a day of the year falls, and the day of that
/// month.
///
/// The day may be as large as the year has days and one more. A day past
/// December is given as a day of month 13, and day 0 as day 0 of January.
#[verifier::rlimit(50)]
pub fn find_month_and_day(day: u16, leap_year: bool) -> (r: Result<(u8, u16), DateTimeError>)
    ensures
        match r {
            Ok((month, of_month)) => {
                &&& day <= last_day(leap_year)
                &&& month == month_of_day(day as int, leap_year)
                &&& of_month == day_of_month(day as int, leap_year)
                &&& 1 <= month <= 13
                &&& of_month <= 31
            },
            Err(e) => e == DateTimeError::DayOutOfRange && day > last_day(leap_year),
        },
{
    let max_day: u16 = if leap_year {
        367
    } else {
        366
    };
    if day > max_day {
        return Err(DateTimeError::DayOutOfRange);
    }
    let mut rest: u16 = day;
    let mut month: u8 = 1;
    while month <= 12
        invariant
            1 <= month <= 13,
            rest == day - days_through(month - 1, leap_year),
            month_of_day(day as int, leap_year) == month_from(day as int, leap_year, month as int),
            rest <= day,
            day <= last_day(leap_year),
            month == 13 ==> rest <= 2,
        ensures
            month_of_day(day as int, leap_year) == month,
            month <= 12 ==> rest <= 31,
        decreases 13 - month,
    {
        let length = month_length(month, leap_year);
        if rest <= length {
            break ;
        }
        proof {
            if month == 12 {
                lemma_days_through_year(leap_year);
            }
        }
        rest = rest - length;
        month = month + 1;
    }
    Ok((month, rest))
}

/// A date and time as it is written, for a year counted from 2000 and a day
/// of the year with its fraction, in units of a hundred-millionth of a day.
pub open spec fn datetime_text(year: int, day: int) -> Seq<u8> {
    let leap = leap_year(year + 2000);
    let whole = day / 100_000_000;
    let micros = day * 864;
    zero_padded((year + 2000) as nat, 4) + seq![0x2du8] + zero_padded(
        month_of_day(whole, leap) as nat,
        2,
    ) + seq![0x2du8] + zero_padded(day_of_month(whole, leap) as nat, 2) + seq![0x54u8]
        + zero_padded(((micros / 3_600_000_000) % 24) as nat, 2) + seq![0x3au8] + zero_padded(
        ((micros / 60_000_000) % 60) as nat,
        2,
    ) + seq![0x3au8] + fixed_text_zero_padded((micros % 60_000_000) as nat, 2, 6)
}

/// Writes the date and time of a day of the year, for a year counted from
/// 2000, as `YYYY-MM-DDTHH:MM:SS.ffffff`.
///
/// The whole days of `day` are taken as the day of the year, as
/// [`find_month_and_day`] reads it, and the rest gives the time of day.
#[verifier::rlimit(50)]
pub fn format_datetime(year: u16, day: u64) -> (r: Result<Vec<u8>, DateTimeError>)
    ensures
        match r {
            Ok(text) => {
                &&& year <= 7999
                &&& day / 100_000_000 <= last_day(leap_year(year + 2000))
                &&& text@ == datetime_text(year as int, day as int)
            },
            Err(e) => if year > 7999 {
                e == DateTimeError::YearOutOfRange
            } else {
                &&& e == DateTimeError::DayOutOfRange
                &&& day / 100_000_000 > last_day(leap_year(year + 2000))
            },
        },
{
    if year > 7999 {
        return Err(DateTimeError::YearOutOfRange);
    }
    let full_year: u16 = year + 2000;
    let leap = is_leap_year(full_year);
    let whole_days: u64 = day / DAY_UNITS;
    if whole_days > 367 {
        return Err(DateTimeError::DayOutOfRange);
    }
    let (month, of_month) = match find_month_and_day(whole_days as u16, leap) {
        Ok(found) => found,
        Err(e) => {
            return Err(e);
        },
    };
    let micros: u64 = day * MICROS_PER_DAY_UNIT;
    let mut out: Vec<u8> = Vec::new();
    push_zero_padded(&mut out, full_year as u64, 4);
    out.push(0x2d);
    push_zero_padded(&mut out, month as u64, 2);
    out.push(0x2d);
    push_zero_padded(&mut out, of_month as u64, 2);
    out.push(0x54);
    push_zero_padded(&mut out, (micros / 3_600_000_000) % 24, 2);
    out.push(0x3a);
    push_zero_padded(&mut out, (micros / 60_000_000) % 60, 2);
    out.push(0x3a);
    push_fixed_zero_padded(&mut out, micros % 60_000_000, 2, 6);
    proof {
        assert(out@ =~= datetime_text(year as int, day as int));
    }
    Ok(out)
}

/// The seconds of a time stamp as an unsigned number of 32 bits keeps them:
/// the remainder by two to the thirty-second.
pub open spec fn low_seconds(seconds: int) -> int {
    seconds % 0x1_0000_0000
}

/// Brings a count of seconds into 32 bits by dropping the higher bits.
pub fn wrap_seconds(seconds: i64) -> (r: u32)
    ensures
        r == low_seconds(seconds as int),
{
    let m: i64 = seconds % 0x1_0000_0000;
    if m < 0 {
        (m + 0x1_0000_0000) as u32
    } else {
        m as u32
    }
}

/// Reads a date and time written as `YYYY-MM-DDTHH:MM:SS.ffffff` and gives
/// its seconds since 1970, in 32 bits.
pub fn parse_datetime(datetime: &String) -> (r: Result<u32, DateTimeError>)
    ensures
        match datetime_seconds(datetime@, DATETIME_LAYOUT@) {
            Some(s) => r == Ok::<u32, DateTimeError>(low_seconds(s) as u32),
            None => r == Err::<u32, DateTimeError>(DateTimeError::Unparseable),
        },
{
    match read_seconds(datetime.as_str(), DATETIME_LAYOUT) {
        Ok(seconds) => Ok(wrap_seconds(seconds)),
        Err(_) => Err(DateTimeError::Unparseable),
    }
}

/// The whole hours between two counts of seconds, whichever is the later.
pub open spec fn hours_apart(a: int, b: int) -> int {
    if a > b {
        (a - b) / 3600
    } else {
        (b - a) / 3600
    }
}

/// The whole hours between two time stamps, whichever is the later.
pub fn hours_between(seconds1: u32, seconds2: u32) -> (r: u32)
    ensures
        r == hours_apart(seconds1 as int, seconds2 as int),
{
    if seconds1 > seconds2 {
        (seconds1 - seconds2) / 3600
    } else {
        (seconds2 - seconds1) / 3600
    }
}

/// The whole hours between two written dates, never negative.
///
/// Fails exactly where one of the two texts is no date.
pub fn hour_difference_between_epochs(datetime1: &String, datetime2: &String) -> (r: Result<
    u32,
    DateTimeError,
>)
    ensures
        match (
            datetime_seconds(datetime1@, DATETIME_LAYOUT@),
            datetime_seconds(datetime2@, DATETIME_LAYOUT@),
        ) {
            (Some(a), Some(b)) => r == Ok::<u32, DateTimeError>(
                hours_apart(low_seconds(a), low_seconds(b)) as u32,
            ),
            _ => r == Err::<u32, DateTimeError>(DateTimeError::Unparseable),
        },
{
    let seconds1 = match parse_datetime(datetime1) {
        Ok(s) => s,
        Err(e) => {
            return Err(e);
        },
    };
    let seconds2 = match parse_datetime(datetime2) {
        Ok(s) => s,
        Err(e) => {
            return Err(e);
        },
    };
    Ok(hours_between(seconds1, seconds2))
}

} // verus!

//! One orbital-element snapshot of a satellite, every number of it held as
//! a count of the smallest step that its column of the element record can
//! express.

use crate::datetime::{is_leap_year, leap_year};
use crate::scientific::Scientific;
use crate::text::{is_trimmed, is_whitespace};
use vstd::prelude::*;

verus! {

/// The microseconds in a day.
pub const MICROS_PER_DAY: i64 = 86_400_000_000;

/// One orbital-element snapshot.
///
/// Angles are in ten-thousandths of a degree, the eccentricity in
/// ten-millionths, the mean motion and its first derivative in
/// hundred-millionths of a revolution per day (per day squared), and the day
/// of the year in hundred-millionths of a day, where 1.0 is the start of
/// 1 January.
#[derive(Debug, PartialEq, Eq)]
pub struct Knot {
    pub catalog_number: u32,
    pub designator: Vec<u8>,
    pub epoch_year: u16,
    pub epoch_day: u64,
    pub mean_motion_dot: i64,
    pub mean_motion_ddot: Scientific,
    pub bstar: Scientific,
    pub ephemeris_type: u8,
    pub element_number: u16,
    pub inclination: u32,
    pub raan: u32,
    pub eccentricity: u32,
    pub arg_of_perigee: u32,
    pub mean_anomaly: u32,
    pub mean_motion: u64,
    pub rev_number: u32,
}

/// What a [`Knot`] holds, with the designator as the bytes it is made of.
pub struct KnotView {
    pub catalog_number: u32,
    pub designator: Seq<u8>,
    pub epoch_year: u16,
    pub epoch_day: u64,
    pub mean_motion_dot: i64,
    pub mean_motion_ddot: Scientific,
    pub bstar: Scientific,
    pub ephemeris_type: u8,
    pub element_number: u16,
    pub inclination: u32,
    pub raan: u32,
    pub eccentricity: u32,
    pub arg_of_perigee: u32,
    pub mean_anomaly: u32,
    pub mean_motion: u64,
    pub rev_number: u32,
}

impl View for Knot {
    type V = KnotView;

    open spec fn view(&self) -> KnotView {
        KnotView {
            catalog_number: self.catalog_number,
            designator: self.designator@,
            epoch_year: self.epoch_year,
            epoch_day: self.epoch_day,
            mean_motion_dot: self.mean_motion_dot,
            mean_motion_ddot: self.mean_motion_ddot,
            bstar: self.bstar,
            ephemeris_type: self.ephemeris_type,
            element_number: self.element_number,
            inclination: self.inclination,
            raan: self.raan,
            eccentricity: self.eccentricity,
            arg_of_perigee: self.arg_of_perigee,
            mean_anomaly: self.mean_anomaly,
            mean_motion: self.mean_motion,
            rev_number: self.rev_number,
        }
    }
}

/// The length of a year in days.
pub open spec fn year_length(year: int) -> int {
    if leap_year(year) {
        366
    } else {
        365
    }
}

/// The days from 1 January 1970 to 1 January of `year`; negative for an
/// earlier year.
pub open spec fn days_before_year(year: int) -> int
    decreases
            if year >= 1970 {
                year - 1970
            } else {
                1970 - year
            },
{
    if year > 1970 {
        days_before_year(year - 1) + year_length(year - 1)
    } else if year < 1970 {
        days_before_year(year + 1) - year_length(year)
    } else {
        0
    }
}

/// The microseconds from the start of 1970 to the instant that a year and a
/// day of the year name, each day taken as 86 400 seconds.
pub open spec fn epoch_micros_of(year: int, day: int) -> int {
    days_before_year(year) * 86_400_000_000 + (day - 100_000_000) * 864
}

impl KnotView {
    /// Every field fits the columns that the element record has for it, the
    /// mean motion is positive, and the year is one that two digits can name.
    pub open spec fn is_valid(self) -> bool {
        &&& self.catalog_number <= 99_999
        &&& self.designator.len() <= 8
        &&& is_trimmed(self.designator)
        &&& 1957 <= self.epoch_year <= 2056
        &&& self.epoch_day <= 99_999_999_999
        &&& -99_999_999 <= self.mean_motion_dot <= 99_999_999
        &&& self.mean_motion_ddot.is_canonical()
        &&& self.bstar.is_canonical()
        &&& self.ephemeris_type <= 9
        &&& self.element_number <= 9_999
        &&& self.inclination <= 9_999_999
        &&& self.raan <= 9_999_999
        &&& self.eccentricity <= 9_999_999
        &&& self.arg_of_perigee <= 9_999_999
        &&& self.mean_anomaly <= 9_999_999
        &&& 0 < self.mean_motion <= 9_999_999_999
        &&& self.rev_number <= 99_999
    }

    /// The instant of the snapshot, in microseconds from the start of 1970.
    pub open spec fn epoch_micros(self) -> int {
        epoch_micros_of(self.epoch_year as int, self.epoch_day as int)
    }
}

/// The days from 1 January 1970 to 1 January of `year`.
pub fn days_to_year(year: u16) -> (days: i32)
    ensures
        days == days_before_year(year as int),
        -366 * 1970 <= days <= 366 * (65535 - 1970),
{
    let mut days: i32 = 0;
    if year >= 1970 {
        let mut y: u16 = 1970;
        while y < year
            invariant
                1970 <= y <= year,
                days == days_before_year(y as int),
                0 <= days <= 366 * (y - 1970),
            decreases year - y,
        {
            days = days + if is_leap_year(y) {
                366
            } else {
                365
            };
            y = y + 1;
        }
    } else {
        let mut y: u16 = 1970;
        while y > year
            invariant
                year <= y <= 1970,
                days == days_before_year(y as int),
                -366 * (1970 - y) <= days <= 0,
            decreases y,
        {
            y = y - 1;
            days = days - if is_leap_year(y) {
                366
            } else {
                365
            };
        }
    }
    days
}

impl Clone for Knot {
    fn clone(&self) -> (r: Self)
        ensures
            r@ == self@,
    {
        Knot {
            catalog_number: self.catalog_number,
            designator: self.designator.clone(),
            epoch_year: self.epoch_year,
            epoch_day: self.epoch_day,
            mean_motion_dot: self.mean_motion_dot,
            mean_motion_ddot: self.mean_motion_ddot,
            bstar: self.bstar,
            ephemeris_type: self.ephemeris_type,
            element_number: self.element_number,
            inclination: self.inclination,
            raan: self.raan,
            eccentricity: self.eccentricity,
            arg_of_perigee: self.arg_of_perigee,
            mean_anomaly: self.mean_anomaly,
            mean_motion: self.mean_motion,
            rev_number: self.rev_number,
        }
    }
}

impl Knot {
    /// Tells whether every field fits its column.
    pub fn is_valid(&self) -> (r: bool)
        ensures
            r == self@.is_valid(),
    {
        let n = self.designator.len();
        let trimmed_ends = n == 0 || (!is_whitespace(self.designator[0])
            && !is_whitespace(self.designator[n - 1]));
        self.catalog_number <= 99_999 && n <= 8 && trimmed_ends && 1957 <= self.epoch_year
            && self.epoch_year <= 2056 && self.epoch_day <= 99_999_999_999 && -99_999_999
            <= self.mean_motion_dot && self.mean_motion_dot <= 99_999_999
            && self.mean_motion_ddot.canonical() && self.bstar.canonical() && self.ephemeris_type
            <= 9 && self.element_number <= 9_999 && self.inclination <= 9_999_999 && self.raan
            <= 9_999_999 && self.eccentricity <= 9_999_999 && self.arg_of_perigee <= 9_999_999
            && self.mean_anomaly <= 9_999_999 && 0 < self.mean_motion && self.mean_motion
            <= 9_999_999_999 && self.rev_number <= 99_999
    }

    /// The instant of the snapshot, in microseconds from the start of 1970.
    pub fn epoch_micros(&self) -> (r: i64)
        requires
            self@.epoch_day <= 99_999_999_999,
        ensures
            r == self@.epoch_micros(),
    {
        let days = days_to_year(self.epoch_year) as i64;
        days * MICROS_PER_DAY + (self.epoch_day as i64 - 100_000_000) * 864
    }
}

} // verus!

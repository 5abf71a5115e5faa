//! The build date that an ERF header records: years since 1900 and the
//! 1-based day of that year.

use vstd::prelude::*;

verus! {

/// `year` is a leap year of the Gregorian calendar.
pub open spec fn leap_year(year: int) -> bool {
    year % 4 == 0 && (year % 100 != 0 || year % 400 == 0)
}

/// The number of days in `year`.
pub open spec fn days_in_year(year: int) -> int {
    if leap_year(year) {
        366
    } else {
        365
    }
}

/// The number of days from 1 January 1970 to 1 January of `year` (for `year >= 1970`).
pub open spec fn days_before_year(year: int) -> int
    decreases year - 1970,
{
    if year <= 1970 {
        0
    } else {
        days_before_year(year - 1) + days_in_year(year - 1)
    }
}

/// `(year, day)` is the build date, as (years since 1900, 1-based day of
/// the year), of the day `days` days after 1 January 1970.
pub open spec fn is_build_date(days: int, year: u32, day: u32) -> bool {
    &&& 1970 <= 1900 + year
    &&& days_before_year(1900 + year) <= days < days_before_year(1900 + year) + days_in_year(
        1900 + year,
    )
    &&& day == days - days_before_year(1900 + year) + 1
}

/// A day has one build date.
pub proof fn lemma_build_date_unique(days: int, y1: u32, d1: u32, y2: u32, d2: u32)
    requires
        is_build_date(days, y1, d1),
        is_build_date(days, y2, d2),
    ensures
        y1 == y2,
        d1 == d2,
{
    if y1 < y2 {
        lemma_days_before_year_grows(1900 + y1 + 1, 1900 + y2 as int);
    } else if y2 < y1 {
        lemma_days_before_year_grows(1900 + y2 + 1, 1900 + y1 as int);
    }
}

/// Whether `year` is a leap year.
pub fn is_leap_year(year: u32) -> (r: bool)
    ensures
        r == leap_year(year as int),
{
    year % 4 == 0 && (year % 100 != 0 || year % 400 == 0)
}

/// Later years start later; each year adds at least 365 days.
pub proof fn lemma_days_before_year_grows(a: int, b: int)
    requires
        1970 <= a <= b,
    ensures
        days_before_year(a) + 365 * (b - a) <= days_before_year(b),
    decreases b - a,
{
    if a < b {
        lemma_days_before_year_grows(a, b - 1);
    }
}

/// The (years since 1900, day of year) of the day `days_since_epoch`
/// days after 1 January 1970, for days before the year after `u32::MAX`.
pub fn erf_build_date(days_since_epoch: u64) -> (r: (u32, u32))
    requires
        days_since_epoch < days_before_year(u32::MAX as int + 1),
    ensures
        is_build_date(days_since_epoch as int, r.0, r.1),
{
    let mut days: u64 = days_since_epoch;
    let mut year: u32 = 1970;
    loop
        invariant
            1970 <= year,
            days_since_epoch < days_before_year(u32::MAX as int + 1),
            days == days_since_epoch - days_before_year(year as int),
            days >= 0,
        decreases days,
    {
        let year_length: u64 = if is_leap_year(year) { 366 } else { 365 };
        if days < year_length {
            return (year - 1900, days as u32 + 1);
        }
        proof {
            if year == u32::MAX {
                assert(days_before_year(year + 1) == days_before_year(year as int) + days_in_year(year as int));
            }
            lemma_days_before_year_grows(year + 1, u32::MAX as int + 1);
        }
        days = days - year_length;
        year = year + 1;
    }
}

} // verus!

//! Calendar dates and instants, with Julian-day arithmetic.
//!
//! The decoder models a date as a plain `(year, month, day)` triple in
//! the proleptic Gregorian calendar, and an instant as a date with a
//! time of day, always UTC.

use vstd::prelude::*;
use crate::error::DbfError;

verus! {

/// True of Gregorian leap years.
pub open spec fn spec_leap_year(y: int) -> bool {
    (y % 4 == 0 && y % 100 != 0) || y % 400 == 0
}

/// The number of days of month `m` of year `y`.
pub open spec fn spec_days_in_month(y: int, m: int) -> int {
    if m == 2 {
        if spec_leap_year(y) {
            29
        } else {
            28
        }
    } else if m == 4 || m == 6 || m == 9 || m == 11 {
        30
    } else {
        31
    }
}

/// True when `(y, m, d)` is a real calendar date with a positive year.
pub open spec fn valid_ymd(y: int, m: int, d: int) -> bool {
    &&& 1 <= y
    &&& 1 <= m <= 12
    &&& 1 <= d <= spec_days_in_month(y, m)
}

/// A calendar date (UTC, proleptic Gregorian).
#[derive(Clone, Copy, Debug, PartialEq, Eq, Structural)]
pub struct Date {
    pub year: u32,
    pub month: u8,
    pub day: u8,
}

impl Date {
    /// A real calendar date with a positive year.
    pub open spec fn wf(self) -> bool {
        valid_ymd(self.year as int, self.month as int, self.day as int)
    }

    /// Builds the date `(y, m, d)` when it is a real calendar date.
    pub fn new(y: u32, m: u8, d: u8) -> (r: Option<Date>)
        ensures
            match r {
                Some(date) => valid_ymd(y as int, m as int, d as int) && date == (Date {
                    year: y,
                    month: m,
                    day: d,
                }),
                None => !valid_ymd(y as int, m as int, d as int),
            },
    {
        if 1 <= y && 1 <= m && m <= 12 && 1 <= d && d <= days_in_month(y, m) {
            Some(Date { year: y, month: m, day: d })
        } else {
            None
        }
    }
}

/// An instant: a calendar date with a time of day (UTC).
#[derive(Clone, Copy, Debug, PartialEq, Eq, Structural)]
pub struct DateTime {
    pub date: Date,
    pub hour: u8,
    pub minute: u8,
    pub second: u8,
}

impl DateTime {
    /// A real date with a real time of day.
    pub open spec fn wf(self) -> bool {
        &&& self.date.wf()
        &&& self.hour < 24
        &&& self.minute < 60
        &&& self.second < 60
    }
}

/// True of Gregorian leap years.
pub fn leap_year(y: u32) -> (r: bool)
    ensures
        r == spec_leap_year(y as int),
{
    (y % 4 == 0 && y % 100 != 0) || y % 400 == 0
}

/// The number of days of month `m` of year `y`.
pub fn days_in_month(y: u32, m: u8) -> (r: u8)
    ensures
        r == spec_days_in_month(y as int, m as int),
{
    if m == 2 {
        if leap_year(y) {
            29
        } else {
            28
        }
    } else if m == 4 || m == 6 || m == 9 || m == 11 {
        30
    } else {
        31
    }
}

/// The `(year, month, day)` triple that the standard reduction assigns
/// to the Julian Day Number `j`.
pub open spec fn julian_ymd(j: int) -> (int, int, int) {
    let s1 = j + 68569;
    let n = (4 * s1) / 146097;
    let s2 = s1 - (146097 * n + 3) / 4;
    let i = (4000 * (s2 + 1)) / 1461001;
    let s3 = s2 - (1461 * i) / 4 + 31;
    let q = (80 * s3) / 2447;
    let d = s3 - (2447 * q) / 80;
    let s4 = q / 11;
    let m = q + 2 - 12 * s4;
    let y = 100 * (n - 49) + i + s4;
    (y, m, d)
}

/// True when the reduction of `j` lands on a real calendar date.
pub open spec fn julian_valid(j: int) -> bool {
    valid_ymd(julian_ymd(j).0, julian_ymd(j).1, julian_ymd(j).2)
}

/// Converts a Julian Day Number to the civil date it names, or reports
/// `InvalidData` when the reduction does not land on a real calendar
/// date (this includes every day number before the year 1 CE).
pub fn julian_day_to_date(j: u32) -> (r: Result<Date, DbfError>)
    ensures
        match r {
            Ok(date) => julian_valid(j as int) && (date.year as int, date.month as int,
            date.day as int) == julian_ymd(j as int) && date.wf(),
            Err(e) => e == DbfError::InvalidData && !julian_valid(j as int),
        },
{
    let s1: u64 = j as u64 + 68569;
    let n: u64 = (4 * s1) / 146097;
    proof {
        assert(146097 * n <= 4 * s1) by {
            assert(n == (4 * s1) as int / 146097);
        }
        assert((146097 * n + 3) / 4 <= (4 * s1 + 3) as int / 4) by {
            vstd::arithmetic::div_mod::lemma_div_is_ordered(
                146097 * n + 3,
                4 * s1 + 3,
                4,
            );
        }
        assert((4 * s1 + 3) as int / 4 == s1);
    }
    let s2: u64 = s1 - (146097 * n + 3) / 4;
    let i: u64 = (4000 * (s2 + 1)) / 1461001;
    proof {
        assert(1461001 * i <= 4000 * (s2 + 1)) by {
            assert(i == (4000 * (s2 + 1)) as int / 1461001);
        }
        assert(1461 * i <= 4 * s2 + 3) by {
            if 1461 * i > 4 * s2 + 3 {
                assert(1461001 * i == 1000 * (1461 * i) + i);
                assert(1000 * (1461 * i) >= 1000 * (4 * s2 + 4));
                assert(i >= 1);
            }
        }
        assert((1461 * i) / 4 <= (4 * s2 + 3) as int / 4) by {
            vstd::arithmetic::div_mod::lemma_div_is_ordered(1461 * i, 4 * s2 + 3, 4);
        }
        assert((4 * s2 + 3) as int / 4 == s2);
    }
    let s3: u64 = s2 - (1461 * i) / 4 + 31;
    let q: u64 = (80 * s3) / 2447;
    proof {
        assert(2447 * q <= 80 * s3) by {
            assert(q == (80 * s3) as int / 2447);
        }
        assert((2447 * q) / 80 <= (80 * s3) as int / 80) by {
            vstd::arithmetic::div_mod::lemma_div_is_ordered(2447 * q, 80 * s3, 80);
        }
        assert((80 * s3) as int / 80 == s3);
    }
    let d: u64 = s3 - (2447 * q) / 80;
    let s4: u64 = q / 11;
    let months: u64 = q + 2;
    let y_base: u64 = 100 * n + i + s4;
    // The spec month is months - 12 * s4 and the spec year is y_base - 4900;
    // either going nonpositive means the reduction left the calendar.
    if months < 12 * s4 + 1 || y_base < 4901 {
        return Err(DbfError::InvalidData);
    }
    let m: u64 = months - 12 * s4;
    let y: u64 = y_base - 4900;
    proof {
        assert(y < 0x100000000) by {
            assert(4 * s1 <= 17180143456);
            assert(146097 * n <= 4 * s1) by {
                assert(n == (4 * s1) as int / 146097);
            }
            assert(n <= 117595);
            assert(s2 <= s1);
            assert(1461001 * i <= 4000 * (s2 + 1)) by {
                assert(i == (4000 * (s2 + 1)) as int / 1461001);
            }
            assert(i <= 11760000);
            assert(s3 <= s2 + 31);
            assert(2447 * q <= 80 * s3) by {
                assert(q == (80 * s3) as int / 2447);
            }
            assert(q <= 140500000);
            assert(11 * s4 <= q) by {
                assert(s4 == q as int / 11);
            }
            assert(s4 <= 12772728);
        }
    }
    if m < 1 || m > 12 {
        return Err(DbfError::InvalidData);
    }
    if d < 1 || d > days_in_month(y as u32, m as u8) as u64 {
        return Err(DbfError::InvalidData);
    }
    Ok(Date { year: y as u32, month: m as u8, day: d as u8 })
}

} // verus!

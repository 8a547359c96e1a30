//! Calendar dates of the value domain: proleptic Gregorian year, month
//! and day, with the calendar arithmetic the date functions need.

use vstd::prelude::*;

verus! {

/// A calendar date (no time of day).
#[derive(Clone, Copy, PartialEq, Eq, Structural, Debug)]
pub struct Date {
    pub year: i32,
    pub month: u8,
    pub day: u8,
}

pub open spec fn spec_is_leap(y: int) -> bool {
    (y % 4 == 0 && y % 100 != 0) || y % 400 == 0
}

pub open spec fn spec_days_in_month(y: int, m: int) -> int {
    if m == 2 {
        if spec_is_leap(y) {
            29
        } else {
            28
        }
    } else if m == 4 || m == 6 || m == 9 || m == 11 {
        30
    } else {
        31
    }
}

/// Days of the year strictly before month `m`.
pub open spec fn spec_days_before_month(y: int, m: int) -> int
    decreases m,
{
    if m <= 1 {
        0
    } else {
        spec_days_before_month(y, m - 1) + spec_days_in_month(y, m - 1)
    }
}

impl Date {
    /// Years are kept in a span where every computation below stays far
    /// from any integer bound.
    pub open spec fn wf(self) -> bool {
        1 <= self.year <= 9999 && 1 <= self.month <= 12 && 1 <= self.day <= spec_days_in_month(
            self.year as int,
            self.month as int,
        )
    }

    /// Day count since the epoch 1970-01-01 (which is day 0), by the
    /// standard civil-calendar formula over 400-year eras.
    pub open spec fn spec_day_number(self) -> int {
        let y = if self.month <= 2 {
            self.year - 1
        } else {
            self.year as int
        };
        let era = y / 400;
        let yoe = y - era * 400;
        let mp = if self.month > 2 {
            self.month - 3
        } else {
            self.month + 9
        };
        let doy = (153 * mp + 2) / 5 + self.day - 1;
        let doe = yoe * 365 + yoe / 4 - yoe / 100 + doy;
        era * 146097 + doe - 719468
    }

    /// 1-based day of the year.
    pub open spec fn spec_ordinal(self) -> int {
        spec_days_before_month(self.year as int, self.month as int) + self.day
    }

    pub fn is_leap_year(y: i32) -> (r: bool)
        requires
            y >= 0,
        ensures
            r == spec_is_leap(y as int),
    {
        (y % 4 == 0 && y % 100 != 0) || y % 400 == 0
    }

    pub fn days_in_month(y: i32, m: u8) -> (r: u8)
        requires
            y >= 0,
        ensures
            r as int == spec_days_in_month(y as int, m as int),
    {
        if m == 2 {
            if Self::is_leap_year(y) {
                29
            } else {
                28
            }
        } else if m == 4 || m == 6 || m == 9 || m == 11 {
            30
        } else {
            31
        }
    }

    /// Build a date; `None` exactly when the components do not name a
    /// calendar day in the supported span of years.
    pub fn from_ymd(year: i32, month: i64, day: i64) -> (r: Option<Date>)
        ensures
            match r {
                Some(d) => d.wf() && d.year == year && d.month == month && d.day == day,
                None => !(1 <= year <= 9999 && 1 <= month <= 12 && 1 <= day
                    <= spec_days_in_month(year as int, month as int)),
            },
    {
        if 1 <= year && year <= 9999 && 1 <= month && month <= 12 {
            let m = month as u8;
            let dim = Self::days_in_month(year, m);
            if 1 <= day && day <= dim as i64 {
                Some(Date { year, month: m, day: day as u8 })
            } else {
                None
            }
        } else {
            None
        }
    }

    /// Whether the components name a calendar day in the supported span.
    pub fn check_wf(&self) -> (r: bool)
        ensures
            r == self.wf(),
    {
        1 <= self.year && self.year <= 9999 && 1 <= self.month && self.month <= 12 && 1 <= self.day
            && self.day <= Self::days_in_month(self.year, self.month)
    }

    pub fn day_number(&self) -> (r: i64)
        requires
            self.wf(),
        ensures
            r == self.spec_day_number(),
            -800000 <= r <= 3000000,
    {
        let y: i64 = if self.month <= 2 {
            self.year as i64 - 1
        } else {
            self.year as i64
        };
        let era: i64 = y / 400;
        let yoe: i64 = y - era * 400;
        let mp: i64 = if self.month > 2 {
            self.month as i64 - 3
        } else {
            self.month as i64 + 9
        };
        let doy: i64 = (153 * mp + 2) / 5 + self.day as i64 - 1;
        let doe: i64 = yoe * 365 + yoe / 4 - yoe / 100 + doy;
        era * 146097 + doe - 719468
    }

    pub fn ordinal(&self) -> (r: i64)
        requires
            self.wf(),
        ensures
            r == self.spec_ordinal(),
            1 <= r <= 403,
    {
        let mut acc: i64 = 0;
        let mut m: u8 = 1;
        while m < self.month
            invariant
                1 <= m <= self.month,
                self.wf(),
                acc == spec_days_before_month(self.year as int, m as int),
                0 <= acc <= 31 * m,
            decreases self.month - m,
        {
            acc = acc + Self::days_in_month(self.year, m) as i64;
            m = m + 1;
        }
        acc + self.day as i64
    }

    /// The last day of the month `delta` months after this date's month.
    pub open spec fn spec_eomonth(self, delta: int) -> Option<Date> {
        let total = self.year * 12 + self.month - 1 + delta;
        let y2 = total / 12;
        let m2 = total % 12 + 1;
        if 1 <= y2 <= 9999 {
            Some(
                Date {
                    year: y2 as i32,
                    month: m2 as u8,
                    day: spec_days_in_month(y2, m2) as u8,
                },
            )
        } else {
            None
        }
    }

    pub fn eomonth(&self, delta: i32) -> (r: Option<Date>)
        requires
            self.wf(),
            -200000 <= delta <= 200000,
        ensures
            r == self.spec_eomonth(delta as int),
            r matches Some(d) ==> d.wf(),
    {
        let total: i64 = self.year as i64 * 12 + self.month as i64 - 1 + delta as i64;
        let y2: i64 = total.checked_div_euclid(12).unwrap();
        let m2: i64 = total.checked_rem_euclid(12).unwrap() + 1;
        if 1 <= y2 && y2 <= 9999 {
            let dim = Self::days_in_month(y2 as i32, m2 as u8);
            Some(Date { year: y2 as i32, month: m2 as u8, day: dim })
        } else {
            None
        }
    }
}

} // verus!
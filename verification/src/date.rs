//! The crate's own date type: a valid proleptic-Gregorian
//! `(year, month, day)` in a bounded year range, totally ordered
//! chronologically. It implements the date capability that the calendar
//! duration computation is generic over.

use vstd::prelude::*;

verus! {

use crate::gregorian::{days_in_month, representable_ymd, MAX_YEAR, MIN_YEAR};
use crate::CalendarDurationExt;

/// The leap-year rule has period 400, so shifting a year by 20000 does not
/// change it; the shift moves the supported year range into the
/// non-negative numbers, where the executable remainder agrees with the
/// mathematical one.
proof fn lemma_leap_year_shift(y: int)
    ensures
        crate::gregorian::is_leap_year(y + 20000) == crate::gregorian::is_leap_year(y),
{
    vstd::arithmetic::div_mod::lemma_mod_multiples_vanish(5000, y, 4);
    vstd::arithmetic::div_mod::lemma_mod_multiples_vanish(200, y, 100);
    vstd::arithmetic::div_mod::lemma_mod_multiples_vanish(50, y, 400);
}

/// Whether year `y` is a leap year.
fn leap_year(y: i32) -> (r: bool)
    requires
        MIN_YEAR as int <= y as int <= MAX_YEAR as int,
    ensures
        r == crate::gregorian::is_leap_year(y as int),
{
    proof {
        lemma_leap_year_shift(y as int);
    }
    let yy: i32 = y + 20000;
    yy % 4 == 0 && (yy % 100 != 0 || yy % 400 == 0)
}

/// The number of days in month `m` of year `y`.
fn month_length(y: i32, m: u8) -> (r: u8)
    requires
        MIN_YEAR as int <= y as int <= MAX_YEAR as int,
        1 <= m as int <= 12,
    ensures
        r as int == days_in_month(y as int, m as int),
{
    if m == 2 {
        if leap_year(y) {
            29
        } else {
            28
        }
    } else if m == 4 || m == 6 || m == 9 || m == 11 {
        30
    } else {
        31
    }
}

/// A calendar date: a valid Gregorian year, month and day, with the year
/// between [`MIN_YEAR`] and [`MAX_YEAR`]. The derived comparisons order
/// dates by year, then month, then day, which is chronological order.
#[derive(Clone, Copy, Debug, PartialEq, Eq, Structural, PartialOrd, Ord)]
pub struct Date {
    year: i32,
    month: u8,
    day: u8,
}

impl Date {
    /// The `(year, month, day)` triple this date denotes.
    pub closed spec fn view_ymd(self) -> (int, int, int) {
        (self.year as int, self.month as int, self.day as int)
    }

    /// The date is a real calendar date in the supported year range.
    pub closed spec fn wf(self) -> bool {
        representable_ymd(self.year as int, self.month as int, self.day as int)
    }
}

impl CalendarDurationExt for Date {
    open spec fn ymd_spec(self) -> (int, int, int) {
        self.view_ymd()
    }

    open spec fn date_wf(self) -> bool {
        self.wf()
    }

    proof fn wf_implies_representable(self) {
    }

    fn ymd(self) -> (r: (i32, u8, u8)) {
        (self.year, self.month, self.day)
    }

    fn from_ymd(y: i32, m: u8, d: u8) -> (r: Option<Self>) {
        if y < MIN_YEAR || y > MAX_YEAR || m < 1 || m > 12 || d < 1 {
            return None;
        }
        if d > month_length(y, m) {
            None
        } else {
            Some(Date { year: y, month: m, day: d })
        }
    }

    fn before(self, other: Self) -> (r: bool) {
        if self.year != other.year {
            self.year < other.year
        } else if self.month != other.month {
            self.month < other.month
        } else {
            self.day < other.day
        }
    }

    fn succ(self) -> (r: Self) {
        if self.day < month_length(self.year, self.month) {
            Date { year: self.year, month: self.month, day: self.day + 1 }
        } else if self.month < 12 {
            Date { year: self.year, month: self.month + 1, day: 1 }
        } else {
            Date { year: self.year + 1, month: 1, day: 1 }
        }
    }
}

} // verus!


//! Computing "calendar durations" between dates.
//!
//! A calendar duration is a duration which takes into account the specific
//! calendar dates involved. Not all months have the same number of days, so
//! saying "one month ago" means a different amount of absolute time depending
//! on which date it is in reference to, and may not even be a well-defined
//! date. The same goes for years: some years have 365 days and some 366.
//!
//! This crate is only concerned with whole days: it does not account for
//! leap seconds or timezone changes, so the trait is meant for date-like
//! types, not date-time ones. It ships [`date::Date`], a date type of its
//! own; adapters for the date types of other crates can be built on the
//! plain year/month/day values that [`CalendarDurationExt`] exchanges.

pub mod date;
pub mod decompose;
pub mod duration;
pub mod gregorian;

pub use date::Date;
pub use duration::CalendarDuration;

use vstd::prelude::*;

verus! {

use crate::decompose::{
    decompose_spec,
    lemma_month_phase_props,
    lemma_year_phase_props,
    month_phase,
    year_phase,
};
use crate::gregorian::{
    day_number,
    lemma_day_number_embed,
    lemma_day_number_succ,
    lemma_roll_gap,
    lemma_roll_props,
    lemma_ymd_total,
    representable_ymd,
    roll_ymd,
    succ_ymd,
    valid_ymd,
    ymd_le,
    ymd_lt,
    MAX_YEAR,
    MIN_YEAR,
};

/// Extension trait to allow computing a "calendar duration" from two dates.
///
/// See [`CalendarDuration`] for more info. The trait is the date capability
/// the computation needs: extracting and constructing year/month/day
/// components, advancing by one day, and chronological comparison.
pub trait CalendarDurationExt: Sized + Ord + Copy {
    /// The `(year, month, day)` triple this date denotes.
    spec fn ymd_spec(self) -> (int, int, int);

    /// The value denotes a real calendar date in the supported year range.
    spec fn date_wf(self) -> bool;

    /// A well-formed date denotes a valid `(year, month, day)` between
    /// `MIN_YEAR` and `MAX_YEAR`.
    proof fn wf_implies_representable(self)
        requires
            self.date_wf(),
        ensures
            representable_ymd(self.ymd_spec().0, self.ymd_spec().1, self.ymd_spec().2),
    ;

    /// Return a 3-tuple of the year, month, and day (one-based) for the date.
    fn ymd(self) -> (r: (i32, u8, u8))
        requires
            self.date_wf(),
        ensures
            self.ymd_spec() == (r.0 as int, r.1 as int, r.2 as int),
    ;

    /// Construct a date from the given year, month, and day, if such a date
    /// is valid and representable.
    fn from_ymd(y: i32, m: u8, d: u8) -> (r: Option<Self>)
        ensures
            match r {
                Some(t) => t.date_wf() && t.ymd_spec() == (y as int, m as int, d as int),
                None => !representable_ymd(y as int, m as int, d as int),
            },
    ;

    /// Whether this date is chronologically strictly before the other.
    fn before(self, other: Self) -> (r: bool)
        requires
            self.date_wf(),
            other.date_wf(),
        ensures
            r == ymd_lt(self.ymd_spec(), other.ymd_spec()),
    ;

    /// Return the date for the next day from the given one. Must not be
    /// called on the largest representable date.
    fn succ(self) -> (r: Self)
        requires
            self.date_wf(),
            self.ymd_spec() != (MAX_YEAR as int, 12int, 31int),
        ensures
            r.date_wf(),
            r.ymd_spec() == succ_ymd(self.ymd_spec()),
    ;

    /// Construct a date from the given year, month, and day; or the nearest
    /// valid later date if there is none (either leap year or 30/31 day
    /// month difference): February 29/30/31 becomes March 1 of the same
    /// year, and day 31 of a 30-day month becomes day 30 of the next month.
    fn from_ymd_or_next(y: i32, m: u8, d: u8) -> (r: Self)
        requires
            MIN_YEAR as int <= y as int <= MAX_YEAR as int,
            1 <= m as int <= 12,
            1 <= d as int <= 31,
        ensures
            r.date_wf(),
            r.ymd_spec() == roll_ymd(y as int, m as int, d as int),
    {
        match Self::from_ymd(y, m, d) {
            Some(t) => {
                proof {
                    t.wf_implies_representable();
                }
                t
            },
            None => {
                if m == 2 && d >= 29 {
                    Self::from_ymd(y, 3, 1).unwrap()
                } else {
                    // the only remaining failure is day 31 of a 30-day
                    // month; December 31 always exists, so the year never
                    // actually rolls here
                    let (ny, nm) = if m == 12 {
                        (y + 1, 1)
                    } else {
                        (y, m + 1)
                    };
                    Self::from_ymd(ny, nm, 30).unwrap()
                }
            },
        }
    }

    /// Compute the calendar duration difference from the other date: whole
    /// years, then whole months, then whole days, greedily, anchored at the
    /// chronologically earlier of the two dates.
    fn calendar_duration_from(self, other: Self) -> (r: CalendarDuration)
        requires
            self.date_wf(),
            other.date_wf(),
            self.ymd_spec().0 < MAX_YEAR as int,
            other.ymd_spec().0 < MAX_YEAR as int,
        ensures
            (r.years as int, r.months as int, r.days as int) == decompose_spec(
                self.ymd_spec(),
                other.ymd_spec(),
            ),
            r.months <= 11,
            r.days <= 60,
    {
        let (later, mut earlier) = if other.before(self) {
            (self, other)
        } else {
            (other, self)
        };
        let ghost ev = earlier.ymd_spec();
        let ghost lv = later.ymd_spec();
        proof {
            earlier.wf_implies_representable();
            later.wf_implies_representable();
            lemma_ymd_total(ev, lv);
            assert(ev =~= roll_ymd(ev.0, ev.1, ev.2));
            lemma_year_phase_props(ev.0, ev.1, ev.2, ev, lv);
        }
        let ghost yp = year_phase(ev.0, ev.1, ev.2, ev, lv);

        let (mut y, mut m, d) = earlier.ymd();
        let mut years: u32 = 0;
        loop
            invariant
                later.date_wf(),
                later.ymd_spec() == lv,
                earlier.date_wf(),
                lv.0 < MAX_YEAR as int,
                representable_ymd(ev.0, ev.1, ev.2),
                valid_ymd(lv.0, lv.1, lv.2),
                m as int == ev.1,
                d as int == ev.2,
                y as int == ev.0 + years as int,
                ev.0 <= y as int <= lv.0,
                earlier.ymd_spec() == roll_ymd(y as int, ev.1, ev.2),
                ymd_le(earlier.ymd_spec(), lv),
                year_phase(y as int, ev.1, ev.2, earlier.ymd_spec(), lv) == ((yp.0
                    - years as int), yp.1),
            ensures
                later.ymd_spec() == lv,
                earlier.date_wf(),
                years as int == yp.0,
                earlier.ymd_spec() == yp.1,
                y as int == ev.0 + yp.0,
                m as int == ev.1,
                d as int == ev.2,
                ev.0 <= y as int <= lv.0,
                !ymd_le(roll_ymd(y as int + 1, ev.1, ev.2), lv),
            decreases lv.0 - y as int,
        {
            let ghost oy = y as int;
            let ghost oe = earlier.ymd_spec();
            let next = Self::from_ymd_or_next(y + 1, m, d);
            if later.before(next) {
                proof {
                    lemma_ymd_total(next.ymd_spec(), lv);
                    assert(year_phase(oy, ev.1, ev.2, oe, lv) == (0int, oe));
                }
                break;
            }
            proof {
                lemma_ymd_total(lv, next.ymd_spec());
                assert(year_phase(oy, ev.1, ev.2, oe, lv) == (year_phase(
                    oy + 1,
                    ev.1,
                    ev.2,
                    next.ymd_spec(),
                    lv,
                ).0 + 1, year_phase(oy + 1, ev.1, ev.2, next.ymd_spec(), lv).1));
            }
            years = years + 1;
            y = y + 1;
            earlier = next;
        }

        proof {
            lemma_roll_props(y as int, ev.1, ev.2);
            lemma_month_phase_props(y as int, ev.1, ev.2, earlier.ymd_spec(), lv);
            crate::decompose::lemma_month_phase_le_eleven(
                y as int,
                ev.1,
                ev.2,
                earlier.ymd_spec(),
                lv,
            );
        }
        let ghost y1 = y as int;
        let ghost mp = month_phase(y1, ev.1, ev.2, earlier.ymd_spec(), lv);

        let mut months: u8 = 0;
        loop
            invariant
                later.date_wf(),
                later.ymd_spec() == lv,
                earlier.date_wf(),
                lv.0 < MAX_YEAR as int,
                representable_ymd(ev.0, ev.1, ev.2),
                valid_ymd(lv.0, lv.1, lv.2),
                d as int == ev.2,
                1 <= m as int <= 12,
                MIN_YEAR as int <= y as int <= lv.0,
                mp.0 <= 11,
                months as int <= mp.0,
                earlier.ymd_spec() == roll_ymd(y as int, m as int, ev.2),
                ymd_le(earlier.ymd_spec(), lv),
                month_phase(y as int, m as int, ev.2, earlier.ymd_spec(), lv) == ((mp.0
                    - months as int), mp.1),
            ensures
                later.ymd_spec() == lv,
                earlier.date_wf(),
                months as int == mp.0,
                earlier.ymd_spec() == mp.1,
                1 <= m as int <= 12,
                d as int == ev.2,
                MIN_YEAR as int <= y as int <= lv.0,
                earlier.ymd_spec() == roll_ymd(y as int, m as int, ev.2),
                ymd_le(earlier.ymd_spec(), lv),
                !ymd_le(
                    roll_ymd(
                        crate::gregorian::next_ym(y as int, m as int).0,
                        crate::gregorian::next_ym(y as int, m as int).1,
                        ev.2,
                    ),
                    lv,
                ),
            decreases 12 * (lv.0 - y as int) + 13 - m as int,
        {
            let ghost oy = y as int;
            let ghost om = m as int;
            let ghost oe = earlier.ymd_spec();
            let mut next_m = m + 1;
            let mut next_y = y;
            if next_m == 13 {
                next_m = 1;
                next_y = next_y + 1;
            }
            let next = Self::from_ymd_or_next(next_y, next_m, d);
            if later.before(next) {
                proof {
                    lemma_ymd_total(next.ymd_spec(), lv);
                    assert(month_phase(oy, om, ev.2, oe, lv) == (0int, oe));
                }
                break;
            }
            proof {
                lemma_ymd_total(lv, next.ymd_spec());
                lemma_roll_props(next_y as int, next_m as int, ev.2);
                lemma_month_phase_props(next_y as int, next_m as int, ev.2, next.ymd_spec(), lv);
                assert(month_phase(oy, om, ev.2, oe, lv) == (month_phase(
                    next_y as int,
                    next_m as int,
                    ev.2,
                    next.ymd_spec(),
                    lv,
                ).0 + 1, month_phase(next_y as int, next_m as int, ev.2, next.ymd_spec(), lv).1));
            }
            months = months + 1;
            y = next_y;
            m = next_m;
            earlier = next;
        }

        proof {
            lemma_roll_props(y as int, m as int, ev.2);
            lemma_roll_gap(y as int, m as int, ev.2);
            let nx = crate::gregorian::next_ym(y as int, m as int);
            lemma_roll_props(nx.0, nx.1, ev.2);
            lemma_day_number_embed(earlier.ymd_spec(), lv);
            lemma_day_number_embed(lv, roll_ymd(nx.0, nx.1, ev.2));
            lemma_ymd_total(roll_ymd(nx.0, nx.1, ev.2), lv);
        }
        let ghost cur2 = earlier.ymd_spec();

        let mut days: u8 = 0;
        while earlier.before(later)
            invariant
                later.date_wf(),
                later.ymd_spec() == lv,
                earlier.date_wf(),
                lv.0 < MAX_YEAR as int,
                valid_ymd(lv.0, lv.1, lv.2),
                valid_ymd(cur2.0, cur2.1, cur2.2),
                ymd_le(earlier.ymd_spec(), lv),
                days as int == day_number(earlier.ymd_spec()) - day_number(cur2),
                day_number(lv) - day_number(cur2) <= 60,
            decreases day_number(lv) - day_number(earlier.ymd_spec()),
        {
            proof {
                earlier.wf_implies_representable();
                lemma_day_number_embed(earlier.ymd_spec(), lv);
                lemma_day_number_succ(earlier.ymd_spec());
                lemma_day_number_embed(succ_ymd(earlier.ymd_spec()), lv);
            }
            days = days + 1;
            earlier = earlier.succ();
        }

        proof {
            lemma_ymd_total(lv, earlier.ymd_spec());
            assert(earlier.ymd_spec() =~= lv);
            lemma_ymd_total(other.ymd_spec(), self.ymd_spec());
            assert(decompose_spec(self.ymd_spec(), other.ymd_spec()) == (
                yp.0,
                mp.0,
                day_number(lv) - day_number(cur2),
            ));
        }
        CalendarDuration { years, months, days }
    }
}

} // verus!



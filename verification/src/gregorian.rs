//! The mathematical model of the proleptic Gregorian calendar that every
//! contract in this crate is stated over: leap years, month lengths, date
//! validity, the roll-forward normalization for non-existent dates, the
//! successor of a date, lexicographic ordering of `(year, month, day)`
//! triples, and a day-numbering that embeds dates into the integers.

use vstd::prelude::*;

verus! {

use vstd::arithmetic::div_mod::{
    lemma_fundamental_div_mod,
    lemma_fundamental_div_mod_converse,
    lemma_mod_bound,
};

/// Smallest year a [`crate::date::Date`] can hold.
pub const MIN_YEAR: i32 = -9999;

/// Largest year a [`crate::date::Date`] can hold.
pub const MAX_YEAR: i32 = 9999;

/// A leap year: divisible by 4, except century years not divisible by 400.
pub open spec fn is_leap_year(y: int) -> bool {
    y % 4 == 0 && (y % 100 != 0 || y % 400 == 0)
}

/// Number of days in month `m` (1-based) of year `y`.
pub open spec fn days_in_month(y: int, m: int) -> int {
    if m == 2 {
        if is_leap_year(y) {
            29
        } else {
            28
        }
    } else if m == 4 || m == 6 || m == 9 || m == 11 {
        30
    } else {
        31
    }
}

/// Days of year `y` that precede month `m`; `m == 13` gives the year's length.
pub open spec fn days_before_month(y: int, m: int) -> int {
    let feb = if m > 2 && is_leap_year(y) {
        1int
    } else {
        0int
    };
    feb + if m <= 1 {
        0int
    } else if m == 2 {
        31
    } else if m == 3 {
        59
    } else if m == 4 {
        90
    } else if m == 5 {
        120
    } else if m == 6 {
        151
    } else if m == 7 {
        181
    } else if m == 8 {
        212
    } else if m == 9 {
        243
    } else if m == 10 {
        273
    } else if m == 11 {
        304
    } else if m == 12 {
        334
    } else {
        365
    }
}

/// `(y, m, d)` names a real calendar date.
pub open spec fn valid_ymd(y: int, m: int, d: int) -> bool {
    1 <= m <= 12 && 1 <= d <= days_in_month(y, m)
}

/// A real calendar date whose year the date type can represent.
pub open spec fn representable_ymd(y: int, m: int, d: int) -> bool {
    MIN_YEAR as int <= y <= MAX_YEAR as int && valid_ymd(y, m, d)
}

/// The month after `(y, m)`, wrapping December into the next year.
pub open spec fn next_ym(y: int, m: int) -> (int, int) {
    if m == 12 {
        (y + 1, 1)
    } else {
        (y, m + 1)
    }
}

/// Roll-forward normalization: the date named by `(y, m, d)` if it exists;
/// otherwise February 29/30/31 becomes March 1 of the same year, and day 31
/// of a 30-day month becomes day 30 of the following month.
pub open spec fn roll_ymd(y: int, m: int, d: int) -> (int, int, int) {
    if valid_ymd(y, m, d) {
        (y, m, d)
    } else if m == 2 {
        (y, 3, 1)
    } else {
        (y, m + 1, 30)
    }
}

/// The day after the date `(y, m, d)`.
pub open spec fn succ_ymd(v: (int, int, int)) -> (int, int, int) {
    if v.2 < days_in_month(v.0, v.1) {
        (v.0, v.1, v.2 + 1)
    } else if v.1 < 12 {
        (v.0, v.1 + 1, 1)
    } else {
        (v.0 + 1, 1, 1)
    }
}

/// Chronological (lexicographic) strict order on `(year, month, day)`.
pub open spec fn ymd_lt(a: (int, int, int), b: (int, int, int)) -> bool {
    a.0 < b.0 || (a.0 == b.0 && (a.1 < b.1 || (a.1 == b.1 && a.2 < b.2)))
}

/// Chronological (lexicographic) order on `(year, month, day)`.
pub open spec fn ymd_le(a: (int, int, int), b: (int, int, int)) -> bool {
    ymd_lt(a, b) || a == b
}

/// Chronological order of `(year, month, day)` triples is total.
pub proof fn lemma_ymd_total(a: (int, int, int), b: (int, int, int))
    ensures
        ymd_le(a, b) || ymd_lt(b, a),
{
    if !ymd_lt(a, b) && !ymd_lt(b, a) {
        assert(a =~= b);
    }
}

/// Number of leap years `z` with `0 <= z < y` (negated count for `y < 0`),
/// chosen so that `leap_count(y + 1) - leap_count(y)` is 1 exactly on leap
/// years `y`.
pub open spec fn leap_count(y: int) -> int {
    (y + 3) / 4 - (y + 99) / 100 + (y + 399) / 400
}

/// Days from the calendar's origin to the date `(y, m, d)`: an
/// order-embedding of valid dates into the integers on which the successor
/// of a date is `+ 1`.
pub open spec fn day_number(v: (int, int, int)) -> int {
    365 * v.0 + leap_count(v.0) + days_before_month(v.0, v.1) + v.2 - 1
}

/// One step of the rounded-up division that counts multiples of `dv`:
/// `(y + dv) / dv` exceeds `(y + dv - 1) / dv` exactly when `dv` divides `y`.
proof fn lemma_count_multiples_step(y: int, dv: int)
    requires
        dv >= 1,
    ensures
        (y + dv) / dv == (y + dv - 1) / dv + if y % dv == 0 {
            1int
        } else {
            0int
        },
{
    let q = y / dv;
    let r = y % dv;
    lemma_fundamental_div_mod(y, dv);
    lemma_mod_bound(y, dv);
    assert((q + 1) * dv == q * dv + dv) by (nonlinear_arith);
    assert(dv * q == q * dv) by (nonlinear_arith);
    if r == 0 {
        lemma_fundamental_div_mod_converse(y + dv - 1, dv, q, dv - 1);
        lemma_fundamental_div_mod_converse(y + dv, dv, q + 1, 0);
    } else {
        lemma_fundamental_div_mod_converse(y + dv - 1, dv, q + 1, r - 1);
        lemma_fundamental_div_mod_converse(y + dv, dv, q + 1, r);
    }
}

/// `leap_count` grows by one exactly across leap years.
pub proof fn lemma_leap_count_step(y: int)
    ensures
        leap_count(y + 1) == leap_count(y) + if is_leap_year(y) {
            1int
        } else {
            0int
        },
{
    lemma_count_multiples_step(y, 4);
    lemma_count_multiples_step(y, 100);
    lemma_count_multiples_step(y, 400);
    if y % 400 == 0 {
        let k = y / 400;
        lemma_fundamental_div_mod(y, 400);
        assert(y == 4 * (100 * k) && y == 100 * (4 * k)) by (nonlinear_arith)
            requires
                y == 400 * k,
        ;
        lemma_fundamental_div_mod_converse(y, 100, 4 * k, 0);
        lemma_fundamental_div_mod_converse(y, 4, 100 * k, 0);
    }
    if y % 100 == 0 {
        let k = y / 100;
        lemma_fundamental_div_mod(y, 100);
        assert(y == 4 * (25 * k)) by (nonlinear_arith)
            requires
                y == 100 * k,
        ;
        lemma_fundamental_div_mod_converse(y, 4, 25 * k, 0);
    }
}

/// The successor of a valid date is one day later in the day numbering.
pub proof fn lemma_day_number_succ(v: (int, int, int))
    requires
        valid_ymd(v.0, v.1, v.2),
    ensures
        valid_ymd(succ_ymd(v).0, succ_ymd(v).1, succ_ymd(v).2),
        day_number(succ_ymd(v)) == day_number(v) + 1,
{
    if v.2 >= days_in_month(v.0, v.1) && v.1 >= 12 {
        lemma_leap_count_step(v.0);
    }
}

/// Within one year, day numbers stay between those of January 1 and
/// December 31.
proof fn lemma_day_number_within_year(v: (int, int, int))
    requires
        valid_ymd(v.0, v.1, v.2),
    ensures
        day_number((v.0, 1, 1)) <= day_number(v) <= day_number((v.0, 12, 31)),
{
}

/// December 31 of an earlier year has a smaller day number than January 1
/// of any later year.
proof fn lemma_day_number_year_mono(ya: int, yb: int)
    requires
        ya < yb,
    ensures
        day_number((ya, 12, 31)) < day_number((yb, 1, 1)),
    decreases yb - ya,
{
    lemma_leap_count_step(ya);
    if ya + 1 < yb {
        lemma_day_number_year_mono(ya + 1, yb);
        lemma_day_number_within_year((ya + 1, 12, 31));
    }
}

proof fn lemma_day_number_strict_mono(a: (int, int, int), b: (int, int, int))
    requires
        valid_ymd(a.0, a.1, a.2),
        valid_ymd(b.0, b.1, b.2),
        ymd_lt(a, b),
    ensures
        day_number(a) < day_number(b),
{
    if a.0 == b.0 {
    } else {
        lemma_day_number_within_year(a);
        lemma_day_number_within_year(b);
        lemma_day_number_year_mono(a.0, b.0);
    }
}

/// On valid dates the day numbering is an order embedding: chronological
/// order of the triples and numeric order of the day numbers agree.
pub proof fn lemma_day_number_embed(a: (int, int, int), b: (int, int, int))
    requires
        valid_ymd(a.0, a.1, a.2),
        valid_ymd(b.0, b.1, b.2),
    ensures
        ymd_lt(a, b) <==> day_number(a) < day_number(b),
        ymd_le(a, b) <==> day_number(a) <= day_number(b),
{
    if ymd_lt(a, b) {
        lemma_day_number_strict_mono(a, b);
    } else if ymd_lt(b, a) {
        lemma_day_number_strict_mono(b, a);
    }
}

/// The roll-forward normalization yields a valid date of the same year, in
/// the named month or the one after it.
pub proof fn lemma_roll_props(y: int, m: int, d: int)
    requires
        1 <= m <= 12,
        1 <= d <= 31,
    ensures
        ({
            let r = roll_ymd(y, m, d);
            valid_ymd(r.0, r.1, r.2) && r.0 == y && m <= r.1 <= m + 1 && r.1 <= 12
        }),
{
}

/// Two consecutive probes of the roll-forward constructor with the same
/// anchor day are 1 to 61 days apart, and at most 31 days apart when the
/// anchor day is at most 30.
pub proof fn lemma_roll_gap(y: int, m: int, d: int)
    requires
        1 <= m <= 12,
        1 <= d <= 31,
    ensures
        ({
            let a = roll_ymd(y, m, d);
            let nx = next_ym(y, m);
            let b = roll_ymd(nx.0, nx.1, d);
            day_number(a) < day_number(b) && day_number(b) - day_number(a) <= 61 && (d <= 30
                ==> day_number(b) - day_number(a) <= 31)
        }),
{
    if m == 12 {
        lemma_leap_count_step(y);
    }
}

} // verus!

//! The greedy decomposition of the span between two dates into whole years,
//! whole months and whole days, stated as recursive functions over
//! `(year, month, day)` triples, together with the laws that hold of it:
//! a date decomposed against itself gives zero, the decomposition does not
//! depend on the order of its two arguments, the month count stays below
//! twelve, and the day count stays below thirty-one whenever the earlier
//! date's day-of-month is at most thirty.

use vstd::prelude::*;

verus! {

use crate::gregorian::{
    day_number,
    lemma_day_number_embed,
    lemma_roll_gap,
    lemma_roll_props,
    lemma_ymd_total,
    next_ym,
    roll_ymd,
    valid_ymd,
    ymd_le,
    ymd_lt,
};

/// The greedy year phase anchored at `(y, m, d)`: while the roll-forward
/// probe one nominal year ahead still lies on or before `later`, accept it.
/// Yields the number of accepted years and the date reached.
pub open spec fn year_phase(y: int, m: int, d: int, cur: (int, int, int), later: (int, int, int)) -> (
    int,
    (int, int, int),
)
    decreases later.0 - y,
{
    let cand = roll_ymd(y + 1, m, d);
    if ymd_le(cand, later) {
        let rest = year_phase(y + 1, m, d, cand, later);
        (rest.0 + 1, rest.1)
    } else {
        (0, cur)
    }
}

/// The greedy month phase: while the roll-forward probe one nominal month
/// ahead still lies on or before `later`, accept it. Yields the number of
/// accepted months and the date reached.
pub open spec fn month_phase(y: int, m: int, d: int, cur: (int, int, int), later: (int, int, int)) -> (
    int,
    (int, int, int),
)
    decreases later.0 - y, 13 - m,
{
    if 1 <= m <= 12 {
        let nx = next_ym(y, m);
        let cand = roll_ymd(nx.0, nx.1, d);
        if ymd_le(cand, later) {
            let rest = month_phase(nx.0, nx.1, d, cand, later);
            (rest.0 + 1, rest.1)
        } else {
            (0, cur)
        }
    } else {
        (0, cur)
    }
}

/// The nominal month `k` calendar months after `(y, m)`.
pub open spec fn ym_add(y: int, m: int, k: int) -> (int, int)
    decreases k,
{
    if k <= 0 {
        (y, m)
    } else {
        let nx = next_ym(y, m);
        ym_add(nx.0, nx.1, k - 1)
    }
}

/// The decomposition of the span from `e` up to `l`, `e` being the anchor:
/// greedy whole years, then greedy whole months, then the remaining days.
pub open spec fn decompose_ordered(e: (int, int, int), l: (int, int, int)) -> (int, int, int) {
    let yp = year_phase(e.0, e.1, e.2, e, l);
    let mp = month_phase(e.0 + yp.0, e.1, e.2, yp.1, l);
    (yp.0, mp.0, day_number(l) - day_number(mp.1))
}

/// The calendar duration between two dates given in either order: the span
/// is decomposed anchored at the chronologically earlier one.
pub open spec fn decompose_spec(a: (int, int, int), b: (int, int, int)) -> (int, int, int) {
    if ymd_lt(b, a) {
        decompose_ordered(b, a)
    } else {
        decompose_ordered(a, b)
    }
}

/// The year phase accepts a non-negative count, lands on the roll-forward
/// of its nominal anchor, stays on or before `later`, and stops because the
/// next probe would pass `later`.
pub proof fn lemma_year_phase_props(
    y: int,
    m: int,
    d: int,
    cur: (int, int, int),
    later: (int, int, int),
)
    requires
        cur == roll_ymd(y, m, d),
        ymd_le(cur, later),
    ensures
        ({
            let r = year_phase(y, m, d, cur, later);
            r.0 >= 0 && r.1 == roll_ymd(y + r.0, m, d) && ymd_le(r.1, later) && !ymd_le(
                roll_ymd(y + r.0 + 1, m, d),
                later,
            )
        }),
    decreases later.0 - y,
{
    let cand = roll_ymd(y + 1, m, d);
    if ymd_le(cand, later) {
        lemma_year_phase_props(y + 1, m, d, cand, later);
    }
}

/// The month phase accepts a non-negative count, lands on the roll-forward
/// of the nominal month it reaches, stays on or before `later`, and stops
/// because the next probe would pass `later`.
pub proof fn lemma_month_phase_props(
    y: int,
    m: int,
    d: int,
    cur: (int, int, int),
    later: (int, int, int),
)
    requires
        1 <= m <= 12,
        cur == roll_ymd(y, m, d),
        ymd_le(cur, later),
    ensures
        ({
            let r = month_phase(y, m, d, cur, later);
            let fin = ym_add(y, m, r.0);
            r.0 >= 0 && 1 <= fin.1 <= 12 && r.1 == roll_ymd(fin.0, fin.1, d) && ymd_le(r.1, later)
                && !ymd_le(roll_ymd(next_ym(fin.0, fin.1).0, next_ym(fin.0, fin.1).1, d), later)
        }),
    decreases later.0 - y, 13 - m,
{
    let nx = next_ym(y, m);
    let cand = roll_ymd(nx.0, nx.1, d);
    if ymd_le(cand, later) {
        lemma_month_phase_props(nx.0, nx.1, d, cand, later);
        let r = month_phase(y, m, d, cur, later);
        let rest = month_phase(nx.0, nx.1, d, cand, later);
        assert(ym_add(y, m, r.0) == ym_add(nx.0, nx.1, rest.0));
    }
}

/// Every probe the month phase accepted lay on or before `later`; in
/// particular the `j`-th nominal month's probe did.
proof fn lemma_month_phase_prefix(
    y: int,
    m: int,
    d: int,
    cur: (int, int, int),
    later: (int, int, int),
    j: int,
)
    requires
        1 <= m <= 12,
        1 <= j <= month_phase(y, m, d, cur, later).0,
    ensures
        ({
            let a = ym_add(y, m, j);
            ymd_le(roll_ymd(a.0, a.1, d), later)
        }),
    decreases j,
{
    let nx = next_ym(y, m);
    let cand = roll_ymd(nx.0, nx.1, d);
    assert(ymd_le(cand, later));
    if j == 1 {
        assert(ym_add(y, m, 1) == nx);
    } else {
        lemma_month_phase_prefix(nx.0, nx.1, d, cand, later, j - 1);
        assert(ym_add(y, m, j) == ym_add(nx.0, nx.1, j - 1));
    }
}

/// Twelve nominal months after `(y, m)` is `(y + 1, m)`.
proof fn lemma_ym_add_twelve(y: int, m: int)
    requires
        1 <= m <= 12,
    ensures
        ym_add(y, m, 12) == (y + 1, m),
{
    reveal_with_fuel(ym_add, 14);
}

/// When the year phase has already stopped — the probe one nominal year
/// ahead passes `later` — the month phase accepts at most eleven months.
pub proof fn lemma_month_phase_le_eleven(
    y: int,
    m: int,
    d: int,
    cur: (int, int, int),
    later: (int, int, int),
)
    requires
        1 <= m <= 12,
        !ymd_le(roll_ymd(y + 1, m, d), later),
    ensures
        month_phase(y, m, d, cur, later).0 <= 11,
{
    let n = month_phase(y, m, d, cur, later).0;
    if n >= 12 {
        lemma_month_phase_prefix(y, m, d, cur, later, 12);
        lemma_ym_add_twelve(y, m);
        assert(false);
    }
}

/// A date decomposed against itself yields no years, months or days.
///
/// This is the law that `decompose` of equal dates is `(0, 0, 0)`.
pub proof fn lemma_decompose_same(a: (int, int, int))
    ensures
        decompose_spec(a, a) == (0int, 0int, 0int),
{
    let cand = roll_ymd(a.0 + 1, a.1, a.2);
    assert(!ymd_le(cand, a));
    assert(year_phase(a.0, a.1, a.2, a, a) == (0int, a));
    if 1 <= a.1 <= 12 {
        let nx = next_ym(a.0, a.1);
        let mcand = roll_ymd(nx.0, nx.1, a.2);
        assert(!ymd_le(mcand, a));
    }
    assert(month_phase(a.0, a.1, a.2, a, a) == (0int, a));
}

/// The decomposition does not depend on the order of its two arguments:
/// the span is always anchored at the chronologically earlier date.
///
/// This is the law that `decompose(a, b)` and `decompose(b, a)` agree.
pub proof fn lemma_decompose_symmetric(a: (int, int, int), b: (int, int, int))
    ensures
        decompose_spec(a, b) == decompose_spec(b, a),
{
}

/// The three counts of the decomposition of two valid dates are
/// simultaneously zero exactly when the two dates are equal.
pub proof fn lemma_decompose_zero_iff_equal(a: (int, int, int), b: (int, int, int))
    requires
        valid_ymd(a.0, a.1, a.2),
        valid_ymd(b.0, b.1, b.2),
    ensures
        decompose_spec(a, b) == (0int, 0int, 0int) <==> a == b,
{
    if a == b {
        lemma_decompose_same(a);
    } else if decompose_spec(a, b) == (0int, 0int, 0int) {
        let e = if ymd_lt(b, a) {
            b
        } else {
            a
        };
        let l = if ymd_lt(b, a) {
            a
        } else {
            b
        };
        lemma_ymd_total(a, b);
        assert(ymd_le(e, l));
        assert(e == roll_ymd(e.0, e.1, e.2));
        lemma_year_phase_props(e.0, e.1, e.2, e, l);
        let yp = year_phase(e.0, e.1, e.2, e, l);
        lemma_roll_props(e.0 + yp.0, e.1, e.2);
        lemma_month_phase_props(e.0 + yp.0, e.1, e.2, yp.1, l);
        let mp = month_phase(e.0 + yp.0, e.1, e.2, yp.1, l);
        lemma_day_number_embed(mp.1, l);
        assert(mp.1 =~= l);
        assert(false);
    }
}

/// Bounds on the decomposition of two valid dates: the year and month and
/// day counts are non-negative, the month count is at most eleven, the day
/// count is at most sixty, and at most thirty whenever the earlier date's
/// day-of-month is at most thirty.
///
/// The day count can exceed thirty only for an anchor on the 31st of a
/// month: the roll-forward policy sends "one month after the 31st" of a
/// 30-day month to the 30th of the month after it, so a probe can skip
/// nearly two months of days.
pub proof fn lemma_decompose_bounds(a: (int, int, int), b: (int, int, int))
    requires
        valid_ymd(a.0, a.1, a.2),
        valid_ymd(b.0, b.1, b.2),
    ensures
        ({
            let r = decompose_spec(a, b);
            let e = if ymd_lt(b, a) {
                b
            } else {
                a
            };
            0 <= r.0 && 0 <= r.1 <= 11 && 0 <= r.2 <= 60 && (e.2 <= 30 ==> r.2 <= 30)
        }),
{
    let e = if ymd_lt(b, a) {
        b
    } else {
        a
    };
    let l = if ymd_lt(b, a) {
        a
    } else {
        b
    };
    assert(ymd_le(e, l));
    assert(e == roll_ymd(e.0, e.1, e.2));
    lemma_year_phase_props(e.0, e.1, e.2, e, l);
    let yp = year_phase(e.0, e.1, e.2, e, l);
    let y1 = e.0 + yp.0;
    lemma_roll_props(y1, e.1, e.2);
    lemma_month_phase_props(y1, e.1, e.2, yp.1, l);
    lemma_month_phase_le_eleven(y1, e.1, e.2, yp.1, l);
    let mp = month_phase(y1, e.1, e.2, yp.1, l);
    let fin = ym_add(y1, e.1, mp.0);
    let nx = next_ym(fin.0, fin.1);
    let cand = roll_ymd(nx.0, nx.1, e.2);
    lemma_roll_props(fin.0, fin.1, e.2);
    lemma_roll_gap(fin.0, fin.1, e.2);
    lemma_day_number_embed(mp.1, l);
    lemma_day_number_embed(l, cand);
    assert(ymd_lt(l, cand));
}

} // verus!

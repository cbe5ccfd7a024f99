//! Cross-checks of the library's own date type against the date types of
//! the `chrono` and `time` crates, and of the duration computation against
//! an independent implementation written directly over `chrono`.

use calendar_duration::{CalendarDurationExt, Date};
use chrono::Datelike;

fn ctor(y: i32, m: u8, d: u8) -> Date {
    Date::from_ymd(y, m, d).expect("test date must be valid")
}

#[test]
fn validity_agrees_with_chrono() {
    for y in [1900, 1999, 2000, 2023, 2024, 2100, -4, -1, 0, 4] {
        for m in 0..=13u8 {
            for d in 0..=32u8 {
                let ours = Date::from_ymd(y, m, d).is_some();
                let theirs = chrono::NaiveDate::from_ymd_opt(y, m as u32, d as u32).is_some();
                assert_eq!(ours, theirs, "disagree on {y}-{m}-{d}");
            }
        }
    }
}

#[test]
fn validity_agrees_with_time() {
    for y in [1900, 2000, 2023, 2024] {
        for m in 1..=12u8 {
            for d in 1..=32u8 {
                let ours = Date::from_ymd(y, m, d).is_some();
                let month = time::Month::try_from(m).unwrap();
                let theirs = time::Date::from_calendar_date(y, month, d).is_ok();
                assert_eq!(ours, theirs, "disagree on {y}-{m}-{d}");
            }
        }
    }
}

#[test]
fn succ_agrees_with_chrono() {
    let mut ours = ctor(2023, 12, 25);
    let mut theirs = chrono::NaiveDate::from_ymd_opt(2023, 12, 25).unwrap();
    for _ in 0..450 {
        ours = ours.succ();
        theirs = theirs.succ_opt().unwrap();
        let (y, m, d) = ours.ymd();
        assert_eq!(
            (y, m as u32, d as u32),
            (theirs.year(), theirs.month(), theirs.day())
        );
    }
}

#[test]
fn succ_agrees_with_time() {
    let mut ours = ctor(1999, 12, 25);
    let mut theirs =
        time::Date::from_calendar_date(1999, time::Month::December, 25).unwrap();
    for _ in 0..450 {
        ours = ours.succ();
        theirs = theirs.next_day().unwrap();
        let (y, m, d) = ours.ymd();
        assert_eq!((y, m, d), (theirs.year(), theirs.month() as u8, theirs.day()));
    }
}

/// The same greedy decomposition written independently over
/// `chrono::NaiveDate`, for differential testing.
fn chrono_duration(a: chrono::NaiveDate, b: chrono::NaiveDate) -> (u32, u8, u8) {
    fn from_ymd_or_next(mut y: i32, mut m: u8, d: u8) -> chrono::NaiveDate {
        chrono::NaiveDate::from_ymd_opt(y, m as u32, d as u32).unwrap_or_else(|| {
            match (m, d) {
                (2, 29) | (2, 30) | (2, 31) => {
                    chrono::NaiveDate::from_ymd_opt(y, 3, 1).unwrap()
                }
                (_, 31) => {
                    if m == 12 {
                        m = 1;
                        y += 1;
                    } else {
                        m += 1;
                    }
                    chrono::NaiveDate::from_ymd_opt(y, m as u32, 30).unwrap()
                }
                _ => panic!("constructing a date for ({y},{m},{d}) failed"),
            }
        })
    }

    let (later, mut earlier) = if a > b { (a, b) } else { (b, a) };
    let (mut y, mut m, d) = (
        earlier.year(),
        earlier.month() as u8,
        earlier.day() as u8,
    );
    let mut years = 0u32;
    loop {
        let next = from_ymd_or_next(y + 1, m, d);
        if later < next {
            break;
        }
        years += 1;
        y += 1;
        earlier = next;
    }
    let mut months = 0u8;
    loop {
        let mut next_m = m + 1;
        let mut next_y = y;
        if next_m == 13 {
            next_m = 1;
            next_y += 1;
        }
        let next = from_ymd_or_next(next_y, next_m, d);
        if later < next {
            break;
        }
        months += 1;
        y = next_y;
        m = next_m;
        earlier = next;
    }
    let mut days = 0u8;
    while later > earlier {
        days += 1;
        earlier = earlier.succ_opt().unwrap();
    }
    (years, months, days)
}

#[test]
fn durations_agree_with_a_chrono_implementation() {
    let starts = [
        (2000, 1, 1),
        (2000, 1, 31),
        (2000, 2, 29),
        (2003, 12, 31),
        (2004, 2, 28),
        (1988, 6, 16),
    ];
    for (sy, sm, sd) in starts {
        let mut ours = ctor(sy, sm as u8, sd as u8);
        let mut theirs = chrono::NaiveDate::from_ymd_opt(sy, sm, sd as u32).unwrap();
        let later_ours = ctor(2005, 3, 15);
        let later_theirs = chrono::NaiveDate::from_ymd_opt(2005, 3, 15).unwrap();
        for _ in 0..120 {
            let c = later_ours.calendar_duration_from(ours);
            let (ty, tm, td) = chrono_duration(later_theirs, theirs);
            assert_eq!((c.years, c.months, c.days), (ty, tm, td));
            ours = ours.succ();
            theirs = theirs.succ_opt().unwrap();
        }
    }
}

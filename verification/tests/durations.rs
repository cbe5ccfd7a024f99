use calendar_duration::{CalendarDurationExt, Date};

fn ctor(y: i32, m: u8, d: u8) -> Date {
    Date::from_ymd(y, m, d).expect("test date must be valid")
}

#[test]
fn it_works() {
    let a = ctor(2020, 4, 8);
    let b = ctor(1988, 6, 16);
    let c = a.calendar_duration_from(b);
    assert_eq!(c.to_string(), "31 years, 9 months, 23 days");
}

#[test]
fn same() {
    assert_eq!(
        "same day",
        ctor(1999, 12, 31)
            .calendar_duration_from(ctor(1999, 12, 31))
            .to_string()
    );
}

#[test]
fn leapyear1() {
    assert_eq!(
        "1 year",
        ctor(2005, 3, 1)
            .calendar_duration_from(ctor(2004, 2, 29))
            .to_string()
    );
}

#[test]
fn leapyear2() {
    assert_eq!(
        "1 year",
        ctor(2005, 3, 1)
            .calendar_duration_from(ctor(2004, 3, 1))
            .to_string()
    );
}

#[test]
fn straddle_30_days_month() {
    assert_eq!(
        "2 months",
        ctor(2000, 7, 31)
            .calendar_duration_from(ctor(2000, 5, 31))
            .to_string()
    );
}

#[test]
fn not_all_months_are_31_days() {
    let start = ctor(2000, 8, 31);
    let mut earlier = ctor(2000, 6, 30);

    assert_eq!(
        "2 months, 1 day",
        start.calendar_duration_from(earlier).to_string()
    );

    // Next day goes to 2000-07-01 because June has 30 days.
    earlier = earlier.succ();

    // So we never get exactly "2 months".
    assert_eq!(
        "1 month, 30 days",
        start.calendar_duration_from(earlier).to_string()
    );
}

#[test]
fn test_feb30() {
    let mut start = ctor(2024, 12, 29);
    let later = ctor(2025, 3, 15);

    assert_eq!(
        "2 months, 14 days",
        start.calendar_duration_from(later).to_string()
    );

    start = start.succ(); // 2024-12-30
    assert_eq!(
        "2 months, 14 days",
        start.calendar_duration_from(later).to_string()
    );

    start = start.succ(); // 2024-12-31
    assert_eq!(
        "2 months, 14 days",
        start.calendar_duration_from(later).to_string()
    );

    start = start.succ(); // 2025-01-01
    assert_eq!(
        "2 months, 14 days",
        start.calendar_duration_from(later).to_string()
    );

    start = start.succ(); // 2025-01-02
    assert_eq!(
        "2 months, 13 days",
        start.calendar_duration_from(later).to_string()
    );
}

#[test]
fn equal_dates_give_zero_counts() {
    let c = ctor(2012, 6, 15).calendar_duration_from(ctor(2012, 6, 15));
    assert_eq!(c.years, 0);
    assert_eq!(c.months, 0);
    assert_eq!(c.days, 0);
    assert_eq!(c.to_string(), "same day");
}

#[test]
fn argument_order_does_not_matter() {
    let pairs = [
        ((2020, 4, 8), (1988, 6, 16)),
        ((2000, 8, 31), (2000, 6, 30)),
        ((2004, 2, 29), (2005, 3, 1)),
        ((1999, 1, 1), (1999, 1, 2)),
    ];
    for ((y1, m1, d1), (y2, m2, d2)) in pairs {
        let a = ctor(y1, m1, d1);
        let b = ctor(y2, m2, d2);
        let ab = a.calendar_duration_from(b);
        let ba = b.calendar_duration_from(a);
        assert_eq!(ab.years, ba.years);
        assert_eq!(ab.months, ba.months);
        assert_eq!(ab.days, ba.days);
    }
}

#[test]
fn day_count_can_pass_thirty_for_day_31_anchors() {
    // One month after May 31 is July 30 under the roll-forward policy
    // (June 31 does not exist), so against July 29 no whole month fits
    // and the days alone span June entirely.
    let c = ctor(2000, 7, 29).calendar_duration_from(ctor(2000, 5, 31));
    assert_eq!(c.years, 0);
    assert_eq!(c.months, 0);
    assert_eq!(c.days, 59);
    assert_eq!(c.to_string(), "59 days");
}

#[test]
fn month_count_stays_below_twelve() {
    let mut start = ctor(2019, 2, 28);
    let later = ctor(2021, 3, 2);
    for _ in 0..60 {
        let c = start.calendar_duration_from(later);
        assert!(c.months <= 11);
        assert!(c.days <= 60);
        let (_, _, sd) = start.ymd();
        if sd <= 30 {
            assert!(c.days <= 30);
        }
        start = start.succ();
    }
}

#[test]
fn invalid_dates_are_rejected() {
    assert!(Date::from_ymd(2023, 2, 29).is_none());
    assert!(Date::from_ymd(2024, 2, 29).is_some());
    assert!(Date::from_ymd(1900, 2, 29).is_none());
    assert!(Date::from_ymd(2000, 2, 29).is_some());
    assert!(Date::from_ymd(2000, 4, 31).is_none());
    assert!(Date::from_ymd(2000, 13, 1).is_none());
    assert!(Date::from_ymd(2000, 0, 1).is_none());
    assert!(Date::from_ymd(2000, 1, 0).is_none());
    assert!(Date::from_ymd(2000, 1, 32).is_none());
    assert!(Date::from_ymd(10000, 1, 1).is_none());
    assert!(Date::from_ymd(-10000, 1, 1).is_none());
    assert!(Date::from_ymd(-9999, 1, 1).is_some());
    assert!(Date::from_ymd(9999, 12, 31).is_some());
}

#[test]
fn ymd_returns_the_components() {
    let d = ctor(1987, 11, 3);
    assert_eq!(d.ymd(), (1987, 11, 3));
}

#[test]
fn succ_steps_over_month_and_year_ends() {
    assert_eq!(ctor(2023, 1, 31).succ().ymd(), (2023, 2, 1));
    assert_eq!(ctor(2023, 2, 28).succ().ymd(), (2023, 3, 1));
    assert_eq!(ctor(2024, 2, 28).succ().ymd(), (2024, 2, 29));
    assert_eq!(ctor(2024, 2, 29).succ().ymd(), (2024, 3, 1));
    assert_eq!(ctor(2023, 12, 31).succ().ymd(), (2024, 1, 1));
    assert_eq!(ctor(2023, 6, 30).succ().ymd(), (2023, 7, 1));
}

#[test]
fn from_ymd_or_next_applies_the_roll_forward_policy() {
    assert_eq!(Date::from_ymd_or_next(2023, 2, 29).ymd(), (2023, 3, 1));
    assert_eq!(Date::from_ymd_or_next(2023, 2, 30).ymd(), (2023, 3, 1));
    assert_eq!(Date::from_ymd_or_next(2023, 2, 31).ymd(), (2023, 3, 1));
    assert_eq!(Date::from_ymd_or_next(2024, 2, 29).ymd(), (2024, 2, 29));
    assert_eq!(Date::from_ymd_or_next(2023, 4, 31).ymd(), (2023, 5, 30));
    assert_eq!(Date::from_ymd_or_next(2023, 6, 31).ymd(), (2023, 7, 30));
    assert_eq!(Date::from_ymd_or_next(2023, 9, 31).ymd(), (2023, 10, 30));
    assert_eq!(Date::from_ymd_or_next(2023, 11, 31).ymd(), (2023, 12, 30));
    assert_eq!(Date::from_ymd_or_next(2023, 12, 31).ymd(), (2023, 12, 31));
    assert_eq!(Date::from_ymd_or_next(2023, 1, 15).ymd(), (2023, 1, 15));
}

#[test]
fn renders_multi_digit_counts() {
    let c = ctor(9000, 1, 1).calendar_duration_from(ctor(8000, 1, 1));
    assert_eq!(c.years, 1000);
    assert_eq!(c.to_string(), "1000 years");

    let c = ctor(2000, 1, 31).calendar_duration_from(ctor(2000, 1, 1));
    assert_eq!(c.to_string(), "30 days");

    let c = ctor(2011, 11, 11).calendar_duration_from(ctor(2000, 1, 1));
    assert_eq!(c.to_string(), "11 years, 10 months, 10 days");
}

#[test]
fn dates_order_chronologically() {
    assert!(ctor(1999, 12, 31) < ctor(2000, 1, 1));
    assert!(ctor(2000, 1, 31) < ctor(2000, 2, 1));
    assert!(ctor(2000, 1, 1) < ctor(2000, 1, 2));
    assert_eq!(ctor(2000, 1, 1), ctor(2000, 1, 1));
}

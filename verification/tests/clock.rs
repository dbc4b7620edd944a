use skipzone_app::clock::{
    civil_from_days, days_from_civil, days_in_month, format_date, is_leap_year, parse_date,
    weekday_index, CivilDate, MONTH_NAMES, WEEKDAY_INITIALS,
};

/// The two conversions are inverse over a long span that crosses leap
/// years, century non-leap years, and the 400-year era boundary.
#[test]
fn civil_and_days_round_trip() {
    let mut day = days_from_civil(CivilDate::new(1899, 1, 1));
    let end = days_from_civil(CivilDate::new(2101, 1, 1));
    while day < end {
        let date = civil_from_days(day);
        assert_eq!(days_from_civil(date), day, "round trip broke at {date:?}");
        assert!((1..=12).contains(&date.month));
        assert!((1..=days_in_month(date.year, date.month)).contains(&date.day));
        day += 1;
    }
}

/// Anchors that pin the epoch offset and the era arithmetic.
#[test]
fn known_dates_match() {
    assert_eq!(days_from_civil(CivilDate::new(1970, 1, 1)), 0);
    assert_eq!(days_from_civil(CivilDate::new(1969, 12, 31)), -1);
    assert_eq!(days_from_civil(CivilDate::new(2000, 3, 1)), 11_017);
    assert_eq!(civil_from_days(0), CivilDate::new(1970, 1, 1));
    assert_eq!(civil_from_days(19_000), CivilDate::new(2022, 1, 8));
    // 1970-01-01 was a Thursday; 2026-07-23 is a Thursday too.
    assert_eq!(weekday_index(CivilDate::new(1970, 1, 1)), 3);
    assert_eq!(weekday_index(CivilDate::new(2026, 7, 23)), 3);
    assert_eq!(weekday_index(CivilDate::new(2026, 7, 20)), 0);
}

/// The Gregorian leap rule, at the three cases that distinguish it.
#[test]
fn leap_years_follow_the_gregorian_rule() {
    assert!(is_leap_year(2024) && days_in_month(2024, 2) == 29);
    assert!(!is_leap_year(1900) && days_in_month(1900, 2) == 28);
    assert!(is_leap_year(2000) && days_in_month(2000, 2) == 29);
    assert_eq!(days_in_month(2026, 4), 30);
}

#[test]
fn date_text_round_trips_and_rejects_nonsense() {
    let d = CivilDate::new(2026, 7, 23);
    assert_eq!(format_date(d), "2026-07-23");
    assert_eq!(parse_date("2026-07-23"), Some(d));
    assert_eq!(parse_date(" 2026-7-3 "), Some(CivilDate::new(2026, 7, 3)));
    assert_eq!(parse_date("2026-02-30"), None, "February has no 30th");
    assert_eq!(parse_date("2024-02-29"), Some(CivilDate::new(2024, 2, 29)));
    assert_eq!(parse_date("2026-13-01"), None);
    assert_eq!(parse_date("2026-07"), None);
    assert_eq!(parse_date("not a date"), None);
}

// ---------------------------------------------------------------------------
// Further cases.
// ---------------------------------------------------------------------------

#[test]
fn new_clamps_month_and_day() {
    assert_eq!(CivilDate::new(2023, 0, 0), CivilDate { year: 2023, month: 1, day: 1 });
    assert_eq!(CivilDate::new(2023, 13, 40), CivilDate { year: 2023, month: 12, day: 31 });
    assert_eq!(CivilDate::new(2023, 2, 30), CivilDate { year: 2023, month: 2, day: 28 });
    assert_eq!(CivilDate::new(2024, 2, 30), CivilDate { year: 2024, month: 2, day: 29 });
    assert_eq!(days_in_month(2023, 0), 31);
    assert_eq!(days_in_month(2023, 99), 31);
}

#[test]
fn day_numbers_far_from_the_epoch() {
    // The first day of year 0 and the day before it: the era boundary on the
    // negative side.
    assert_eq!(days_from_civil(CivilDate::new(0, 3, 1)), -719_468);
    assert_eq!(civil_from_days(-719_468), CivilDate::new(0, 3, 1));
    assert_eq!(civil_from_days(-719_469), CivilDate::new(0, 2, 29));
    assert_eq!(civil_from_days(-719_529), CivilDate::new(-1, 12, 31));
    assert_eq!(days_from_civil(CivilDate::new(-1, 12, 31)), -719_529);
    // Both ends of the i32 years.
    let first = CivilDate::new(i32::MIN, 1, 1);
    let last = CivilDate::new(i32::MAX, 12, 31);
    assert_eq!(civil_from_days(days_from_civil(first)), first);
    assert_eq!(civil_from_days(days_from_civil(last)), last);
    assert_eq!(days_from_civil(last) - days_from_civil(first) + 1, 1_568_704_592_610);
}

#[test]
fn day_numbers_of_unreal_dates_run_on() {
    // Month 0 is the December before, month 13 the January after.
    assert_eq!(
        days_from_civil(CivilDate { year: 2024, month: 0, day: 1 }),
        days_from_civil(CivilDate::new(2023, 12, 1))
    );
    assert_eq!(
        days_from_civil(CivilDate { year: 2024, month: 13, day: 1 }),
        days_from_civil(CivilDate::new(2025, 1, 1))
    );
    // Days past the end of the month count on.
    assert_eq!(
        days_from_civil(CivilDate { year: 2024, month: 1, day: 32 }),
        days_from_civil(CivilDate::new(2024, 2, 1))
    );
}

#[test]
fn weekdays_cycle() {
    let monday = days_from_civil(CivilDate::new(2026, 7, 20));
    for k in 0..14 {
        assert_eq!(weekday_index(civil_from_days(monday + k)), (k % 7) as usize);
    }
    // Before the epoch the index still counts forward from Monday.
    assert_eq!(weekday_index(CivilDate::new(1969, 12, 29)), 0);
}

#[test]
fn date_text_edge_cases() {
    assert_eq!(format_date(CivilDate::new(5, 1, 2)), "0005-01-02");
    assert_eq!(format_date(CivilDate::new(-5, 1, 2)), "-005-01-02");
    assert_eq!(format_date(CivilDate::new(12345, 11, 30)), "12345-11-30");
    assert_eq!(parse_date("0005-01-02"), Some(CivilDate::new(5, 1, 2)));
    assert_eq!(parse_date("+2026-+7-3"), Some(CivilDate::new(2026, 7, 3)));
    assert_eq!(parse_date("2026 - 07 - 23"), Some(CivilDate::new(2026, 7, 23)));
    assert_eq!(parse_date("\u{3000}2026-07-23\t"), Some(CivilDate::new(2026, 7, 23)));
    assert_eq!(parse_date("2026-07-23-"), None);
    assert_eq!(parse_date("2026--07"), None);
    assert_eq!(parse_date("2026-07-00"), None);
    assert_eq!(parse_date("2026-00-10"), None);
    assert_eq!(parse_date("2026-07-4294967296"), None);
    assert_eq!(parse_date("2147483648-01-01"), None);
    assert_eq!(parse_date("2147483647-01-01"), Some(CivilDate::new(i32::MAX, 1, 1)));
    assert_eq!(parse_date(""), None);
    let d = CivilDate::new(1900, 2, 28);
    assert_eq!(parse_date(&format_date(d)), Some(d));
}

/// The picker's names line up with the calendar: month 1 is January, and
/// weekday index 3 (the epoch's Thursday) is a T.
#[test]
fn picker_names_line_up_with_the_calendar() {
    assert_eq!(MONTH_NAMES[0], "January");
    assert_eq!(MONTH_NAMES[11], "December");
    assert_eq!(WEEKDAY_INITIALS[weekday_index(CivilDate::new(1970, 1, 1))], "T");
    assert_eq!(WEEKDAY_INITIALS[weekday_index(CivilDate::new(2026, 7, 26))], "S");
}

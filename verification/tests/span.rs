use skipzone_app::span::{
    census_cycle, census_slot, day_span, day_span_fits, days_in_month, fmt_day, CensusSlot,
    SpanError, NEGATIVE_BAND_COUNT, SCHEDULE_HOURS,
};
use skipzone_app::clock::{days_from_civil, CivilDate};
use skipzone_app::text::IntErrorKind;

#[test]
fn span_walks_consecutive_days() {
    assert_eq!(
        day_span("2026-02-27", 4),
        Ok(vec![(2026, 2, 27), (2026, 2, 28), (2026, 3, 1), (2026, 3, 2)])
    );
    assert_eq!(
        day_span("2024-02-28", 3),
        Ok(vec![(2024, 2, 28), (2024, 2, 29), (2024, 3, 1)])
    );
    assert_eq!(day_span("2025-12-31", 2), Ok(vec![(2025, 12, 31), (2026, 1, 1)]));
    assert_eq!(day_span("1900-02-28", 2), Ok(vec![(1900, 2, 28), (1900, 3, 1)]));
}

/// A span covers at least one day.
#[test]
fn span_of_zero_days_is_one_day() {
    assert_eq!(day_span("2026-07-23", 0), Ok(vec![(2026, 7, 23)]));
    assert_eq!(day_span("2026-07-23", 1), Ok(vec![(2026, 7, 23)]));
}

/// The first day is checked only against 1..=31, as the walk needs; a day
/// past the month's end simply rolls into the next month.
#[test]
fn day_past_month_end_rolls_over() {
    assert_eq!(day_span("2026-04-31", 2), Ok(vec![(2026, 4, 31), (2026, 5, 1)]));
}

#[test]
fn span_start_errors() {
    assert_eq!(day_span("2026-04", 2), Err(SpanError::NotYmd));
    assert_eq!(day_span("2026-04-01-02", 2), Err(SpanError::NotYmd));
    assert_eq!(day_span("x-04-01", 2), Err(SpanError::BadYear(IntErrorKind::InvalidDigit)));
    assert_eq!(day_span("-04-01", 2), Err(SpanError::BadYear(IntErrorKind::Empty)));
    assert_eq!(day_span("2026--01", 2), Err(SpanError::BadMonth(IntErrorKind::Empty)));
    assert_eq!(day_span("2026-4x-01", 2), Err(SpanError::BadMonth(IntErrorKind::InvalidDigit)));
    assert_eq!(day_span("2026-04-", 2), Err(SpanError::BadDay(IntErrorKind::Empty)));
    assert_eq!(
        day_span("2026-04-99999999999", 2),
        Err(SpanError::BadDay(IntErrorKind::PosOverflow))
    );
    assert_eq!(
        day_span("99999999999-04-01", 2),
        Err(SpanError::BadYear(IntErrorKind::PosOverflow))
    );
    assert_eq!(day_span("2026-13-01", 2), Err(SpanError::OutOfRange));
    assert_eq!(day_span("2026-00-01", 2), Err(SpanError::OutOfRange));
    assert_eq!(day_span("2026-04-32", 2), Err(SpanError::OutOfRange));
    assert_eq!(day_span("2026-04-00", 2), Err(SpanError::OutOfRange));
}

/// Signs are read the way `str::parse` reads them.
#[test]
fn signed_fields_parse_like_str_parse() {
    assert_eq!(day_span("+2026-+04-+01", 1), Ok(vec![(2026, 4, 1)]));
}

#[test]
fn span_fits_check() {
    assert!(day_span_fits("2026-07-23", 400));
    assert!(day_span_fits("not a date", 5));
    assert!(day_span_fits("2147483647-12-30", 1));
    // The walk steps past its last day, so the last day of the last year
    // that fits in `i32` cannot be walked at all.
    assert!(!day_span_fits("2147483647-12-31", 1));
    assert!(!day_span_fits("2147483647-12-30", 2));
}

#[test]
fn month_lengths_of_the_walk() {
    assert_eq!(days_in_month(2026, 1), 31);
    assert_eq!(days_in_month(2026, 4), 30);
    assert_eq!(days_in_month(2026, 2), 28);
    assert_eq!(days_in_month(2024, 2), 29);
    assert_eq!(days_in_month(1900, 2), 28);
    assert_eq!(days_in_month(2000, 2), 29);
    // A month number outside 1..=12 counts as February.
    assert_eq!(days_in_month(2024, 13), 29);
    assert_eq!(days_in_month(2026, 0), 28);
}

#[test]
fn day_text_is_zero_padded() {
    assert_eq!(fmt_day((2026, 7, 3)), "2026-07-03");
    assert_eq!(fmt_day((12, 1, 1)), "0012-01-01");
}

/// Consecutive censuses differ in day, hour and band.
#[test]
fn census_schedule_walks_day_hour_and_band() {
    assert_eq!(census_slot(0, 3), CensusSlot { day_index: 0, hour: 0, band_index: 0, minute: 0 });
    assert_eq!(census_slot(1, 3), CensusSlot { day_index: 1, hour: 9, band_index: 1, minute: 14 });
    assert_eq!(census_slot(5, 3), CensusSlot { day_index: 2, hour: 21, band_index: 0, minute: 10 });
    for i in 0..200usize {
        let a = census_slot(i, 7);
        let b = census_slot(i + 1, 7);
        assert_ne!(a.day_index, b.day_index);
        assert_ne!(a.hour, b.hour);
        assert_ne!(a.band_index, b.band_index);
        assert!(SCHEDULE_HOURS.contains(&a.hour));
        assert!(a.band_index < NEGATIVE_BAND_COUNT);
        assert_eq!(a.minute % 2, 0);
        assert!(a.minute < 60);
    }
}

#[test]
fn census_cycle_text_has_an_unpadded_year() {
    assert_eq!(census_cycle((2026, 7, 3), 9, 14), "2026-07-03 09:14");
    assert_eq!(census_cycle((826, 12, 30), 21, 0), "826-12-30 21:00");
}

/// A span is a run of real days, each one day number after the last.
#[test]
fn span_days_are_consecutive_day_numbers() {
    let days = day_span("2023-12-30", 800).unwrap();
    assert_eq!(days.len(), 800);
    let first = days_from_civil(CivilDate::new(2023, 12, 30));
    for (k, d) in days.iter().enumerate() {
        let date = CivilDate::new(d.0, d.1, d.2);
        assert_eq!((date.year, date.month, date.day), *d, "{d:?} is not a real day");
        assert_eq!(days_from_civil(date), first + k as i64);
    }
}

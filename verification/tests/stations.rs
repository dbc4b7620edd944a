use skipzone_app::stations::{
    distinct_count, duplicate_flags, format_stamp, keep_flagged, parse_stamp,
    require_identifiable_stations, time_span, Observation, SpotKey, StampError,
    MIN_SPOTS_PER_STATION,
};
use skipzone_app::text::IntErrorKind;

/// One spot as the station bookkeeping sees it, carrying its cycle minute.
fn spot(cycle_min: u32, tx: &str, rx: &str) -> Observation<u32> {
    Observation { tx_call: tx.to_string(), rx_call: rx.to_string(), item: cycle_min }
}

/// The station-count filter has to run to a fixed point: dropping a rare
/// receiver can push a transmitter below the threshold in turn.
#[test]
fn rare_stations_are_removed_to_a_fixed_point() {
    let mut rows = Vec::new();
    // A busy pair, comfortably over the threshold.
    for i in 0..MIN_SPOTS_PER_STATION {
        rows.push(spot(2 * i as u32, "BUSYTX", "BUSYRX"));
    }
    // A rare receiver that heard the busy transmitter a handful of times.
    // Removing those rows must not take BUSYTX below the threshold, because
    // it still has its own ten.
    for i in 0..3 {
        rows.push(spot(40 + i, "BUSYTX", "RARERX"));
    }
    // A pair that only ever heard each other twice: both must go.
    rows.push(spot(50, "RARETX", "RARERX2"));
    rows.push(spot(52, "RARETX", "RARERX2"));

    let mut station_too_rare = 0usize;
    let kept = require_identifiable_stations(rows, &mut station_too_rare);
    assert!(kept.iter().all(|s| s.rx_call == "BUSYRX"));
    assert_eq!(kept.len(), MIN_SPOTS_PER_STATION);
    assert_eq!(station_too_rare, 5);

    // And the invariant the function claims really holds afterwards.
    let mut counts: std::collections::BTreeMap<&str, usize> = std::collections::BTreeMap::new();
    for s in &kept {
        *counts.entry(s.rx_call.as_str()).or_default() += 1;
    }
    assert!(counts.values().all(|&n| n >= MIN_SPOTS_PER_STATION));

    // Filtering the survivors again removes nothing: they are a fixed point.
    let again = require_identifiable_stations(kept, &mut station_too_rare);
    assert_eq!(again.len(), MIN_SPOTS_PER_STATION);
    assert_eq!(station_too_rare, 5);
}

/// Removing one station can take another below the threshold, which a
/// single pass would miss: here the second pass removes what the first left.
#[test]
fn station_filter_cascades() {
    let mut rows = Vec::new();
    // TXA is heard ten times by RX1, and once by RX2.
    for i in 0..10 {
        rows.push(spot(i, "TXA", "RX1"));
    }
    rows.push(spot(20, "TXA", "RX2"));
    // TXB is heard nine times by RX1 and once by RX2: ten spots, but one of
    // them goes with RX2, leaving nine.
    for i in 0..9 {
        rows.push(spot(30 + i, "TXB", "RX1"));
    }
    rows.push(spot(40, "TXB", "RX2"));
    let mut station_too_rare = 3usize;
    let kept = require_identifiable_stations(rows, &mut station_too_rare);
    // First pass drops the two RX2 rows; TXB then has nine and goes; RX1
    // keeps TXA's ten.
    assert_eq!(kept.len(), 10);
    assert!(kept.iter().all(|s| s.tx_call == "TXA" && s.rx_call == "RX1"));
    assert_eq!(station_too_rare, 3 + 11);
}

/// The same transmission heard by the same receiver in the same cycle is one
/// observation, however many rows the archive carries for it - including
/// rows whose frequency estimate differs by a few hertz.
#[test]
fn duplicates_collapse_to_one_observation() {
    let key = |cycle_min: u32, tx: &str, rx: &str, mhz: f64| SpotKey {
        cycle: format_stamp((2026, 7, 27, 4, cycle_min)),
        tx_call: tx.to_string(),
        rx_call: rx.to_string(),
        band_key: (mhz * 100.0).round() as i64,
    };
    let rows = vec![
        key(2, "K1ABC", "W9XYZ", 14.097_100),
        key(2, "K1ABC", "W9XYZ", 14.097_104),
        key(4, "K1ABC", "W9XYZ", 14.097_100),
        key(2, "K1ABC", "N0DEF", 14.097_100),
    ];
    let dup = duplicate_flags(&rows);
    let kept = dup.iter().filter(|d| !**d).count();
    assert_eq!(kept, 3, "one duplicate should have gone");
    assert_eq!(dup.iter().filter(|d| **d).count(), 1);
    assert_eq!(dup, vec![false, true, false, false]);
}

/// Rows on another band are other observations.
#[test]
fn another_band_is_another_observation() {
    let key = |band_key: i64| SpotKey {
        cycle: "2026-07-27 04:02".to_string(),
        tx_call: "K1ABC".to_string(),
        rx_call: "W9XYZ".to_string(),
        band_key,
    };
    let rows = vec![key(1410), key(704), key(1410), key(704)];
    assert_eq!(duplicate_flags(&rows), vec![false, false, true, true]);
}

#[test]
fn distinct_counts_each_call_once() {
    let calls: Vec<String> = ["A", "B", "A", "C", "B", "A"].iter().map(|s| s.to_string()).collect();
    assert_eq!(distinct_count(&calls), 3);
    assert_eq!(distinct_count(&Vec::new()), 0);
}

#[test]
fn flags_keep_items_in_order() {
    let kept = keep_flagged(vec![1, 2, 3, 4, 5], &vec![true, false, true, false, true]);
    assert_eq!(kept, vec![1, 3, 5]);
    let none: Vec<i32> = keep_flagged(vec![1, 2], &vec![false, false]);
    assert!(none.is_empty());
}

/// The cycle text is the archive's zero-padded `YYYY-MM-DD HH:MM`.
#[test]
fn cycle_text_is_zero_padded() {
    assert_eq!(format_stamp((2026, 7, 27, 4, 2)), "2026-07-27 04:02");
    assert_eq!(format_stamp((999, 12, 1, 23, 58)), "0999-12-01 23:58");
}

/// The span of a set of spots runs from its earliest cycle to its latest,
/// whatever order they come in.
#[test]
fn time_span_finds_first_and_last() {
    let times = vec![
        (2026, 7, 27, 4, 2),
        (2026, 7, 26, 23, 58),
        (2026, 7, 27, 12, 0),
        (2025, 12, 31, 0, 0),
    ];
    assert_eq!(
        time_span(&times),
        ("2025-12-31 00:00".to_string(), "2026-07-27 12:00".to_string())
    );
    assert_eq!(
        time_span(&vec![(2026, 1, 1, 0, 0)]),
        ("2026-01-01 00:00".to_string(), "2026-01-01 00:00".to_string())
    );
}

/// A cycle's text reads back as its timestamp.
#[test]
fn cycle_text_reads_back() {
    for t in [(2026, 7, 27, 4, 2), (999, 12, 1, 23, 58), (0, 1, 1, 0, 0), (2025, 12, 31, 23, 59)] {
        assert_eq!(parse_stamp(&format_stamp(t)), Ok(t));
    }
    assert_eq!(parse_stamp("2026-07-27_04:02"), Ok((2026, 7, 27, 4, 2)));
    // Seconds, when present, are not part of the cycle.
    assert_eq!(parse_stamp("2026-07-27 04:02:30"), Ok((2026, 7, 27, 4, 2)));
    assert_eq!(parse_stamp("2026-7-3 4:2"), Ok((2026, 7, 3, 4, 2)));
}

#[test]
fn cycle_text_errors() {
    assert_eq!(parse_stamp("2026-07-27"), Err(StampError::NoSeparator));
    assert_eq!(parse_stamp("2026-07 04:02"), Err(StampError::NotDateTime));
    assert_eq!(parse_stamp("2026-07-27 0402"), Err(StampError::NotDateTime));
    assert_eq!(parse_stamp("x-07-27 04:02"), Err(StampError::BadYear(IntErrorKind::InvalidDigit)));
    assert_eq!(parse_stamp("2026-07-27 04:xx"), Err(StampError::BadField(IntErrorKind::InvalidDigit)));
    assert_eq!(parse_stamp("2026--27 04:02"), Err(StampError::BadField(IntErrorKind::Empty)));
    // The first field that cannot be read is the one reported.
    assert_eq!(parse_stamp("2026-xx-27 yy:02"), Err(StampError::BadField(IntErrorKind::InvalidDigit)));
    assert_eq!(parse_stamp("x-07-27 04:9999999999"), Err(StampError::BadYear(IntErrorKind::InvalidDigit)));
    assert_eq!(parse_stamp("2026-07-27 04:9999999999"), Err(StampError::BadField(IntErrorKind::PosOverflow)));
}

use skipzone_app::contents::{
    count_by_key, count_by_label, day_key, day_of_key, describe_corpus, distinct_keys,
    reciprocal_keys, repeated_keys, ContentRow,
};

fn row(tx: &str, rx: &str, cycle: &str, hour: u32, day: (i32, u32, u32), band: &str) -> ContentRow {
    ContentRow {
        tx_call: tx.to_string(),
        rx_call: rx.to_string(),
        cycle: cycle.to_string(),
        hour,
        day,
        band: band.to_string(),
    }
}

fn key(fields: &[&str]) -> Vec<String> {
    fields.iter().map(|f| f.to_string()).collect()
}

#[test]
fn corpus_description_counts_its_structure() {
    let rows = vec![
        row("K1ABC", "W9XYZ", "2026-07-27 04:02", 4, (2026, 7, 27), "20m"),
        row("W9XYZ", "K1ABC", "2026-07-27 04:02", 4, (2026, 7, 27), "20m"),
        row("K1ABC", "N0DEF", "2026-07-27 04:02", 4, (2026, 7, 27), "20m"),
        row("K1ABC", "W9XYZ", "2026-07-27 04:02", 4, (2026, 7, 27), "40m"),
        row("N0DEF", "W9XYZ", "2026-07-28 13:10", 13, (2026, 7, 28), "40m"),
        row("K1ABC", "W9XYZ", "2025-12-31 23:58", 23, (2025, 12, 31), "10m"),
    ];
    let c = describe_corpus(&rows);
    assert_eq!(c.spots, 6);
    assert_eq!(c.transmitters, 3);
    assert_eq!(c.receivers, 3);
    assert_eq!(
        c.by_band,
        vec![("10m".to_string(), 1), ("20m".to_string(), 3), ("40m".to_string(), 2)]
    );
    assert_eq!(c.by_hour, vec![(4, 4), (13, 1), (23, 1)]);
    assert_eq!(c.by_day, vec![((2025, 12, 31), 1), ((2026, 7, 27), 4), ((2026, 7, 28), 1)]);
    assert_eq!(c.pairs, 4);
    assert_eq!(c.reciprocal_pairs, 2);
    assert_eq!(c.multi_rx, 1);
    assert_eq!(c.multi_band, 1);
}

#[test]
fn empty_corpus_description() {
    let c = describe_corpus(&Vec::new());
    assert_eq!(c.spots, 0);
    assert_eq!(c.transmitters, 0);
    assert!(c.by_band.is_empty() && c.by_hour.is_empty() && c.by_day.is_empty());
    assert_eq!((c.pairs, c.reciprocal_pairs, c.multi_rx, c.multi_band), (0, 0, 0, 0));
}

#[test]
fn keys_are_compared_field_by_field() {
    let keys = vec![key(&["A", "B"]), key(&["AB", ""]), key(&["A", "B"]), key(&["B", "A"])];
    assert_eq!(distinct_keys(&keys), 3);
    assert_eq!(repeated_keys(&keys), 1);
    assert_eq!(reciprocal_keys(&keys), 2);
    // A station that heard itself is its own reciprocal pair.
    assert_eq!(reciprocal_keys(&vec![key(&["A", "A"])]), 1);
    assert_eq!(reciprocal_keys(&vec![key(&["A", "B"]), key(&["A", "C"])]), 0);
}

#[test]
fn tallies_are_sorted_and_counted() {
    assert_eq!(count_by_key(&vec![5, 1, 5, 3, 1, 5]), vec![(1, 2), (3, 1), (5, 3)]);
    assert!(count_by_key(&Vec::new()).is_empty());
    let labels: Vec<String> = ["40m", "20m", "40m", "160m"].iter().map(|s| s.to_string()).collect();
    assert_eq!(
        count_by_label(&labels),
        vec![("160m".to_string(), 1), ("20m".to_string(), 1), ("40m".to_string(), 2)]
    );
}

/// Day keys order days as the calendar does, and give the day back.
#[test]
fn day_keys_order_days_and_round_trip() {
    let days = [
        (i32::MIN, 0, 0),
        (-1, 12, 31),
        (0, 1, 1),
        (2025, 12, 31),
        (2026, 1, 1),
        (2026, 1, 2),
        (2026, 2, 1),
        (i32::MAX, u32::MAX, u32::MAX),
    ];
    for w in days.windows(2) {
        assert!(day_key(w[0]) < day_key(w[1]), "{:?} {:?}", w[0], w[1]);
    }
    for d in days {
        assert_eq!(day_of_key(day_key(d)), d);
    }
}

/// A tally depends only on what it counts, not on the order it came in.
#[test]
fn tallies_do_not_depend_on_order() {
    let a = count_by_key(&vec![9, 2, 2, 7, 9, 9, 0]);
    let b = count_by_key(&vec![0, 9, 9, 2, 7, 2, 9]);
    assert_eq!(a, b);
    assert_eq!(a, vec![(0, 1), (2, 2), (7, 1), (9, 3)]);
    let l1: Vec<String> = ["b", "a", "b"].iter().map(|s| s.to_string()).collect();
    let l2: Vec<String> = ["b", "b", "a"].iter().map(|s| s.to_string()).collect();
    assert_eq!(count_by_label(&l1), count_by_label(&l2));
}

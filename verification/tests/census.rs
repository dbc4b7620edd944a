use skipzone_app::census::{negative_candidates, text_less, NegativeCandidate, MIN_RX_SPOTS_FOR_HEALTHY};
use skipzone_app::stations::Observation;

/// One census row: who transmitted, who received, and the claimed power.
fn row(tx: &str, rx: &str, dbm: f64) -> Observation<f64> {
    Observation { tx_call: tx.to_string(), rx_call: rx.to_string(), item: dbm }
}

fn named(census: &[Observation<f64>], c: &NegativeCandidate) -> (String, String) {
    (census[c.tx_row].tx_call.clone(), census[c.rx_row].rx_call.clone())
}

/// The negatives construction, on a census small enough to check by hand.
///
/// Four transmitters were on the air. RX_GOOD heard all four, so it is
/// demonstrably healthy but has no silence left to explain. RX_OK heard
/// three, enough to be healthy, and did not hear TX4, which is exactly one
/// negative. RX_DEAF heard two, which is below the threshold and so is not
/// evidence of anything, however many stations it missed.
#[test]
fn negatives_need_a_demonstrably_healthy_receiver() {
    let census = vec![
        row("TX1", "RX_GOOD", 23.0),
        row("TX2", "RX_GOOD", 23.0),
        row("TX3", "RX_GOOD", 23.0),
        row("TX4", "RX_GOOD", 23.0),
        row("TX1", "RX_OK", 23.0),
        row("TX2", "RX_OK", 23.0),
        row("TX3", "RX_OK", 23.0),
        row("TX1", "RX_DEAF", 23.0),
        row("TX2", "RX_DEAF", 23.0),
    ];
    let negs = negative_candidates(&census);
    assert_eq!(negs.len(), 1, "{negs:#?}");
    let n = &negs[0];
    assert_eq!(census[n.tx_row].tx_call, "TX4");
    assert_eq!(census[n.rx_row].rx_call, "RX_OK");
    assert_eq!(n.rx_heard, MIN_RX_SPOTS_FOR_HEALTHY);
    // The power comes from the transmission, not from the silent receiver.
    assert!((census[n.tx_row].item - 23.0).abs() < 1e-9);

    // One more station heard by RX_DEAF tips it over the threshold, and then
    // its miss DOES become a negative. The threshold is the only thing
    // standing between "quiet receiver" and "evidence".
    let mut more: Vec<Observation<f64>> =
        census.iter().map(|o| row(&o.tx_call, &o.rx_call, o.item)).collect();
    more.push(row("TX3", "RX_DEAF", 23.0));
    let negs = negative_candidates(&more);
    assert_eq!(negs.len(), 2, "{negs:#?}");
    assert!(negs.iter().any(|n| more[n.rx_row].rx_call == "RX_DEAF"));
}

/// Candidates come out by receiver and then by transmitter, in text order,
/// whatever order the census rows came in; and each names the first row of
/// its two stations.
#[test]
fn negatives_are_ordered_by_receiver_then_transmitter() {
    let census = vec![
        row("TXB", "RXZ", 20.0),
        row("TXC", "RXZ", 30.0),
        row("TXD", "RXZ", 37.0),
        row("TXB", "RXA", 20.0),
        row("TXC", "RXA", 30.0),
        row("TXE", "RXA", 10.0),
        row("TXA", "RXQ", 23.0),
    ];
    let negs = negative_candidates(&census);
    let pairs: Vec<(String, String)> = negs.iter().map(|n| named(&census, n)).collect();
    let want: Vec<(String, String)> = vec![
        ("TXA".into(), "RXA".into()),
        ("TXD".into(), "RXA".into()),
        ("TXA".into(), "RXZ".into()),
        ("TXE".into(), "RXZ".into()),
    ];
    assert_eq!(pairs, want);
    assert_eq!(negs[0], NegativeCandidate { tx_row: 6, rx_row: 3, rx_heard: 3 });
    assert_eq!(negs[1], NegativeCandidate { tx_row: 2, rx_row: 3, rx_heard: 3 });
    assert_eq!(negs[2], NegativeCandidate { tx_row: 6, rx_row: 0, rx_heard: 3 });
    assert_eq!(negs[3], NegativeCandidate { tx_row: 5, rx_row: 0, rx_heard: 3 });
}

/// Hearing the same station twice is not two pieces of evidence of health,
/// and a station is never its own negative.
#[test]
fn repeats_do_not_make_a_receiver_healthy() {
    let census = vec![
        row("TX1", "RX", 23.0),
        row("TX1", "RX", 23.0),
        row("TX2", "RX", 23.0),
        row("TX2", "RX", 23.0),
        row("TX3", "OTHER", 23.0),
    ];
    assert!(negative_candidates(&census).is_empty());

    // A receiver that also transmits is not a negative of itself.
    let census = vec![
        row("TX1", "RX", 23.0),
        row("TX2", "RX", 23.0),
        row("TX3", "RX", 23.0),
        row("RX", "TX1", 23.0),
    ];
    let negs = negative_candidates(&census);
    assert!(negs.is_empty(), "{negs:#?}");
}

/// An empty census has no negatives.
#[test]
fn empty_census_has_no_negatives() {
    let census: Vec<Observation<f64>> = Vec::new();
    assert!(negative_candidates(&census).is_empty());
}

/// Text order is code point order, a proper prefix first.
#[test]
fn text_order_is_code_point_order() {
    let s = |x: &str| x.to_string();
    assert!(text_less(&s("A"), &s("B")));
    assert!(!text_less(&s("B"), &s("A")));
    assert!(text_less(&s("A"), &s("AB")));
    assert!(!text_less(&s("AB"), &s("A")));
    assert!(text_less(&s(""), &s("A")));
    assert!(!text_less(&s("K1ABC"), &s("K1ABC")));
    assert!(text_less(&s("Z"), &s("a")));
    assert!(text_less(&s("z"), &s("é")));
    // The same answer as `str` ordering.
    for (a, b) in [("W9XYZ", "N0DEF"), ("RX_OK", "RX_DEAF"), ("TX10", "TX9")] {
        assert_eq!(text_less(&s(a), &s(b)), a < b);
    }
}

/// The negatives are determined by who heard whom, not by the order the
/// census rows came in: the same rows reversed name the same pairs, in the
/// same order, with the same counts.
#[test]
fn row_order_does_not_change_the_negatives() {
    let rows = [
        ("TX1", "RX_GOOD"),
        ("TX2", "RX_GOOD"),
        ("TX3", "RX_GOOD"),
        ("TX4", "RX_OK"),
        ("TX1", "RX_OK"),
        ("TX5", "RX_OK"),
        ("TX2", "RX_OK"),
        ("TX3", "RX_DEAF"),
    ];
    let forward: Vec<Observation<f64>> = rows.iter().map(|(t, r)| row(t, r, 23.0)).collect();
    let backward: Vec<Observation<f64>> = rows.iter().rev().map(|(t, r)| row(t, r, 23.0)).collect();
    let a = negative_candidates(&forward);
    let b = negative_candidates(&backward);
    let names = |census: &[Observation<f64>], negs: &[NegativeCandidate]| -> Vec<(String, String, usize)> {
        negs.iter()
            .map(|n| {
                let (tx, rx) = named(census, n);
                (tx, rx, n.rx_heard)
            })
            .collect()
    };
    assert_eq!(names(&forward, &a), names(&backward, &b));
    assert_eq!(
        names(&forward, &a),
        vec![
            ("TX4".to_string(), "RX_GOOD".to_string(), 3),
            ("TX5".to_string(), "RX_GOOD".to_string(), 3),
            ("TX3".to_string(), "RX_OK".to_string(), 4),
        ]
    );
}

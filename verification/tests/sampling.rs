use skipzone_app::sampling::{every_nth, thin_to_cap};

#[test]
fn every_nth_starts_with_the_first() {
    let v: Vec<u32> = (0..10).collect();
    assert_eq!(every_nth(v.clone(), 3), vec![0, 3, 6, 9]);
    assert_eq!(every_nth(v.clone(), 1), v);
    assert_eq!(every_nth(v, 20), vec![0]);
    assert!(every_nth(Vec::<u32>::new(), 4).is_empty());
}

/// A list already under the cap, or no cap at all, is kept whole.
#[test]
fn thinning_keeps_a_short_list_whole() {
    let v: Vec<u32> = (0..10).collect();
    assert_eq!(thin_to_cap(v.clone(), 10), v);
    assert_eq!(thin_to_cap(v.clone(), 0), v);
    assert_eq!(thin_to_cap(v.clone(), 50), v);
}

/// Over the cap, a fixed stride brings the list down to at most the cap.
#[test]
fn thinning_respects_the_cap() {
    let v: Vec<u32> = (0..15).collect();
    let t = thin_to_cap(v, 10);
    assert_eq!(t, vec![0, 2, 4, 6, 8, 10, 12, 14]);
    assert!(t.len() <= 10);
    let v: Vec<u32> = (0..100).collect();
    let t = thin_to_cap(v, 7);
    assert_eq!(t, vec![0, 15, 30, 45, 60, 75, 90]);
    for max in 1..40usize {
        let v: Vec<usize> = (0..137).collect();
        let t = thin_to_cap(v, max);
        assert!(t.len() <= max, "cap {max} gave {}", t.len());
        assert_eq!(t[0], 0);
    }
}

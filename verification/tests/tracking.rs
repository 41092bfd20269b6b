use mddem::measure::{sample_due, type_histogram, TagTracker};

#[test]
fn tracker_reports_tags_it_already_held() {
    let mut t = TagTracker::new();
    let first = t.record(&[4, 1, 2], 3);
    assert_eq!(first, vec![false, false, false]);
    assert_eq!(t.has_entry, vec![false, true, true, false, true]);
    // Tag 7 is new and grows the table; tag 3 was never held.
    let second = t.record(&[1, 7, 3, 4], 4);
    assert_eq!(second, vec![true, false, false, true]);
    assert_eq!(t.has_entry.len(), 8);
    assert!(t.has_entry[3] && t.has_entry[7] && !t.has_entry[0]);
}

#[test]
fn tracker_ignores_atoms_past_the_local_count() {
    let mut t = TagTracker::new();
    let seen = t.record(&[0, 9], 1);
    assert_eq!(seen, vec![false]);
    assert_eq!(t.has_entry, vec![true]);
}

#[test]
fn histogram_counts_local_atoms_per_type() {
    assert_eq!(type_histogram(&[0, 2, 2, 1, 2, 0], 5, 3), vec![1, 1, 3]);
    // Types beyond the table are not counted.
    assert_eq!(type_histogram(&[0, 5, 1], 3, 2), vec![1, 1]);
    assert_eq!(type_histogram(&[], 0, 2), vec![0, 0]);
}

#[test]
fn samples_at_positive_multiples_only() {
    assert!(sample_due(20, 10));
    assert!(!sample_due(0, 10));
    assert!(!sample_due(25, 10));
    assert!(!sample_due(20, 0));
}

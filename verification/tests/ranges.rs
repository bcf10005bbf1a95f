use ofs_convert::ranges::{NotCoveredRange, Ranges};

fn example() -> Ranges {
    Ranges::from(vec![0..2, 6..9, 11..14])
}

#[test]
fn inserts_range() {
    let mut ranges = example();
    ranges.insert(3..5);
    assert_eq!(ranges.as_slice().to_vec(), vec![0..2, 3..5, 6..9, 11..14]);
}

#[test]
fn pushes_range() {
    let mut ranges = example();
    ranges.insert(15..16);
    assert_eq!(ranges.as_slice().to_vec(), vec![0..2, 6..9, 11..14, 15..16]);
}

#[test]
fn merges_subrange() {
    let mut ranges = example();
    ranges.insert(5..10);
    assert_eq!(ranges.as_slice().to_vec(), vec![0..2, 5..10, 11..14]);
}

#[test]
fn merges_superrange() {
    let mut ranges = example();
    ranges.insert(7..9);
    assert_eq!(ranges.as_slice().to_vec(), vec![0..2, 6..9, 11..14]);
}

#[test]
fn merges_multiple_subranges() {
    let mut ranges = example();
    ranges.insert(5..15);
    assert_eq!(ranges.as_slice().to_vec(), vec![0..2, 5..15]);
}

#[test]
fn merges_multiple_ranges() {
    let mut ranges = example();
    ranges.insert(8..12);
    assert_eq!(ranges.as_slice().to_vec(), vec![0..2, 6..14]);
}

#[test]
fn merges_ranges_at_edges() {
    let mut ranges = example();
    ranges.insert(9..11);
    assert_eq!(ranges.as_slice().to_vec(), vec![0..2, 6..14]);
}

#[test]
fn from_merges_unsorted_input() {
    let ranges = Ranges::from(vec![11..14, 0..2, 6..9, 1..3]);
    assert_eq!(ranges.as_slice().to_vec(), vec![0..3, 6..9, 11..14]);
}

#[test]
fn next_not_covered_inside_gap() {
    match example().next_not_covered(3) {
        NotCoveredRange::Bounded(r) => assert_eq!(r, 3..6),
        NotCoveredRange::Unbounded(_) => panic!("expected a bounded range"),
    }
}

#[test]
fn next_not_covered_skips_covered() {
    match example().next_not_covered(0) {
        NotCoveredRange::Bounded(r) => assert_eq!(r, 2..6),
        NotCoveredRange::Unbounded(_) => panic!("expected a bounded range"),
    }
    match example().next_not_covered(12) {
        NotCoveredRange::Unbounded(x) => assert_eq!(x, 14),
        NotCoveredRange::Bounded(_) => panic!("expected an unbounded range"),
    }
}

#[test]
fn next_not_covered_on_empty_set() {
    match Ranges::new().next_not_covered(7) {
        NotCoveredRange::Unbounded(x) => assert_eq!(x, 7),
        NotCoveredRange::Bounded(_) => panic!("expected an unbounded range"),
    }
}

#[test]
fn splits_overlapping_range() {
    let parts = example().split_overlapping(1..12);
    assert_eq!(parts, vec![(1..2, true), (2..6, false), (6..9, true), (9..11, false), (11..12, true)]);
}

#[test]
fn splits_range_past_the_end() {
    let parts = example().split_overlapping(13..20);
    assert_eq!(parts, vec![(13..14, true), (14..20, false)]);
    assert!(example().split_overlapping(5..5).is_empty());
}

#[test]
fn counts_free_elements() {
    let ranges = example();
    assert_eq!(ranges.free_element_count(0, 20), 20 - 2 - 3 - 3);
    assert_eq!(ranges.free_element_count(7, 12), 2);
    assert_eq!(ranges.free_element_count(12, 12), 0);
}

#[test]
fn inserting_an_empty_range_changes_nothing() {
    let mut ranges = example();
    ranges.insert(4..4);
    assert_eq!(ranges.as_slice().to_vec(), vec![0..2, 6..9, 11..14]);
    let mut empty = Ranges::new();
    empty.insert(3..3);
    assert!(empty.as_slice().is_empty());
}

#[test]
fn split_pieces_are_never_empty() {
    let parts = example().split_overlapping(0..14);
    assert_eq!(parts, vec![(0..2, true), (2..6, false), (6..9, true), (9..11, false), (11..14, true)]);
    assert!(parts.iter().all(|(r, _)| r.start < r.end));
}

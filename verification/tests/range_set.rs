use line_test::range_set::RangeSet;

fn ranges_of(set: &RangeSet<u32>) -> Vec<(u32, u32)> {
    set.clone().into_ranges().into_iter().map(|r| (r.start, r.end)).collect()
}

#[test]
fn empty_set_holds_nothing() {
    let set: RangeSet<u32> = RangeSet::new();
    assert!(set.is_empty());
    assert!(!set.contains(0));
    assert!(!set.contains(u32::MAX));
    assert_eq!(ranges_of(&set), vec![]);
}

#[test]
fn insert_merges_overlapping_and_touching_ranges() {
    let mut set: RangeSet<u32> = RangeSet::new();
    set.insert_range(5..8);
    set.insert_range(10..12);
    assert_eq!(ranges_of(&set), vec![(5, 8), (10, 12)]);
    set.insert_range(8..10);
    assert_eq!(ranges_of(&set), vec![(5, 12)]);
    set.insert_range(1..2);
    set.insert_range(20..30);
    set.insert_range(0..25);
    assert_eq!(ranges_of(&set), vec![(0, 30)]);
}

#[test]
fn insert_is_idempotent_and_independent_of_order() {
    let mut a: RangeSet<u32> = RangeSet::new();
    a.insert_range(1..3);
    a.insert_range(7..9);
    a.insert_range(2..8);
    a.insert_range(2..8);
    let mut b: RangeSet<u32> = RangeSet::new();
    b.insert_range(2..8);
    b.insert_range(7..9);
    b.insert_range(1..3);
    assert_eq!(ranges_of(&a), vec![(1, 9)]);
    assert_eq!(ranges_of(&a), ranges_of(&b));
}

#[test]
fn insert_of_an_empty_range_changes_nothing() {
    let mut set: RangeSet<u32> = RangeSet::new();
    set.insert_range(4..4);
    assert!(set.is_empty());
    set.insert_range(3..6);
    set.insert_range(9..2);
    assert_eq!(ranges_of(&set), vec![(3, 6)]);
}

#[test]
fn contains_follows_the_half_open_ranges() {
    let mut set: RangeSet<u32> = RangeSet::new();
    set.insert_range(5..8);
    set.insert_range(10..11);
    for x in 0..20u32 {
        assert_eq!(set.contains(x), (5..8).contains(&x) || x == 10, "{}", x);
    }
}

#[test]
fn remove_splits_the_range_around_the_point() {
    let mut set: RangeSet<u32> = RangeSet::new();
    set.insert_range(5..10);
    assert!(set.remove(7));
    assert_eq!(ranges_of(&set), vec![(5, 7), (8, 10)]);
    assert!(!set.contains(7));
    assert!(set.contains(6));
    assert!(set.contains(8));
    assert!(set.remove(5));
    assert_eq!(ranges_of(&set), vec![(6, 7), (8, 10)]);
    assert!(set.remove(9));
    assert_eq!(ranges_of(&set), vec![(6, 7), (8, 9)]);
    assert!(set.remove(6));
    assert_eq!(ranges_of(&set), vec![(8, 9)]);
    assert!(set.remove(8));
    assert!(set.is_empty());
}

#[test]
fn remove_of_an_absent_point_changes_nothing() {
    let mut set: RangeSet<u32> = RangeSet::new();
    set.insert_range(5..10);
    assert!(!set.remove(10));
    assert!(!set.remove(4));
    assert!(!set.remove(u32::MAX));
    assert_eq!(ranges_of(&set), vec![(5, 10)]);
}

#[test]
fn the_last_line_number_can_be_held_and_removed() {
    let mut set: RangeSet<u32> = RangeSet::new();
    set.insert_range(u32::MAX - 1..u32::MAX);
    assert!(set.contains(u32::MAX - 1));
    assert!(set.remove(u32::MAX - 1));
    assert!(set.is_empty());
}

use unicode_intervals::IntervalSet;

#[test]
fn test_codepoint_at_empty_set() {
    let interval_set = IntervalSet::new(vec![]);
    assert!(interval_set.codepoint_at(0).is_none());
}

#[test]
fn test_index_not_present_single() {
    assert!(IntervalSet::new(vec![(1, 1)]).index_of(0).is_none());
}

#[test]
fn test_index_not_present_empty() {
    assert!(IntervalSet::new(vec![]).index_of(0).is_none());
}

#[test]
fn test_get_empty() {
    assert_eq!(IntervalSet::new(vec![]).codepoint_at(1), None);
}

#[test]
fn test_get_past_end() {
    assert_eq!(IntervalSet::new(vec![(1, 10)]).codepoint_at(11), None);
}

#[test]
fn test_index_above_first() {
    assert_eq!(IntervalSet::new(vec![(1, 10)]).index_above(1), 0);
}

#[test]
fn test_index_above_second() {
    assert_eq!(IntervalSet::new(vec![(1, 10)]).index_above(2), 1);
}

#[test]
fn test_index_above_past_end() {
    assert_eq!(IntervalSet::new(vec![(1, 10)]).index_above(100), 10);
}

#[test]
fn test_offsets_across_intervals() {
    let set = IntervalSet::new(vec![(1, 3), (10, 11), (20, 25)]);
    assert_eq!(set.len(), 11);
    assert!(!set.is_empty());
    assert_eq!(set.codepoint_at(0), Some(1));
    assert_eq!(set.codepoint_at(2), Some(3));
    assert_eq!(set.codepoint_at(3), Some(10));
    assert_eq!(set.codepoint_at(4), Some(11));
    assert_eq!(set.codepoint_at(5), Some(20));
    assert_eq!(set.codepoint_at(10), Some(25));
    assert_eq!(set.codepoint_at(11), None);
    assert_eq!(set.codepoint_at(u32::MAX), None);
    assert_eq!(set.index_of(11), Some(4));
    assert_eq!(set.index_of(22), Some(7));
    assert_eq!(set.index_of(5), None);
    assert!(set.contains(10));
    assert!(!set.contains(12));
    assert_eq!(set.index_above(0), 0);
    assert_eq!(set.index_above(5), 3);
    assert_eq!(set.index_above(12), 5);
    assert_eq!(set.index_above(26), 11);
    assert_eq!(
        set.iter(),
        vec![1, 2, 3, 10, 11, 20, 21, 22, 23, 24, 25]
    );
}

#[test]
fn test_round_trip() {
    let set = IntervalSet::new(vec![(0, 0), (5, 9), (100, 140), (0x10FFF0, 0x10FFFF)]);
    for i in 0..set.len() as u32 {
        let c = set.codepoint_at(i).expect("in range");
        assert_eq!(set.index_of(c), Some(i));
    }
    for c in set.iter() {
        let i = set.index_of(c).expect("member");
        assert_eq!(set.codepoint_at(i), Some(c));
    }
}

#[test]
fn test_index_above_is_monotone() {
    let set = IntervalSet::new(vec![(3, 4), (8, 8), (12, 20)]);
    let mut previous = 0;
    for c in 0..30 {
        let rank = set.index_above(c);
        assert!(rank >= previous);
        previous = rank;
    }
    assert_eq!(set.index_above(21), set.len() as u32);
    assert_eq!(set.index_above(u32::MAX), set.len() as u32);
}

#[test]
fn test_whole_codepoint_range() {
    let set = IntervalSet::new(vec![(0, 0x10FFFF)]);
    assert_eq!(set.len(), 0x110000);
    assert_eq!(set.codepoint_at(0x10FFFF), Some(0x10FFFF));
    assert_eq!(set.index_of(0x10FFFF), Some(0x10FFFF));
}

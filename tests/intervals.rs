use unicode_intervals::intervals::{from_str, merge, subtract};
use unicode_intervals::Interval;

fn merged(mut left: Vec<Interval>, right: &[Interval]) -> Vec<Interval> {
    left.extend_from_slice(right);
    merge(&mut left);
    left
}

#[test]
fn test_union_empty_both() {
    assert_eq!(merged(vec![], &[]), vec![]);
}

#[test]
fn test_union_empty_left() {
    assert_eq!(merged(vec![], &[(1, 2)]), vec![(1, 2)]);
}

#[test]
fn test_union_empty_right() {
    assert_eq!(merged(vec![(1, 2)], &[]), vec![(1, 2)]);
}

#[test]
fn test_union_totally_overlapped_gap() {
    assert_eq!(merged(vec![(2, 3)], &[(1, 2), (4, 5)]), vec![(1, 5)]);
}

#[test]
fn test_union_partially_overlapped_gap() {
    assert_eq!(
        merged(vec![(3, 3)], &[(1, 2), (5, 5)]),
        vec![(1, 3), (5, 5)]
    );
}

#[test]
fn test_merge_touching_and_overlapping() {
    let mut intervals = vec![(2, 3), (1, 2), (4, 5)];
    merge(&mut intervals);
    assert_eq!(intervals, vec![(1, 5)]);
}

#[test]
fn test_merge_sorts_and_keeps_gaps() {
    let mut intervals = vec![(10, 12), (0, 1), (5, 5), (3, 3)];
    merge(&mut intervals);
    assert_eq!(intervals, vec![(0, 1), (3, 3), (5, 5), (10, 12)]);
}

#[test]
fn test_merge_is_idempotent() {
    let mut intervals = vec![(7, 9), (1, 4), (3, 5), (11, 11)];
    merge(&mut intervals);
    let once = intervals.clone();
    merge(&mut intervals);
    assert_eq!(intervals, once);
    assert_eq!(once, vec![(1, 5), (7, 9), (11, 11)]);
}

#[test]
fn test_merge_result_is_normalized() {
    let mut intervals = vec![(40, 50), (0, 0), (45, 60), (2, 2), (1, 1), (62, 70)];
    merge(&mut intervals);
    for pair in intervals.windows(2) {
        assert!(pair[1].0 > pair[0].1 + 1);
    }
    assert_eq!(intervals, vec![(0, 2), (40, 60), (62, 70)]);
}

#[test]
fn test_merge_extremes() {
    let mut intervals = vec![(u32::MAX, u32::MAX), (0, u32::MAX - 1)];
    merge(&mut intervals);
    assert_eq!(intervals, vec![(0, u32::MAX)]);
}

#[test]
fn test_subtract_nothing() {
    assert_eq!(subtract(vec![(0, 1)], &[]), vec![(0, 1)]);
}

#[test]
fn test_subtract_everything() {
    assert_eq!(subtract(vec![(0, 1), (3, 3)], &[(0, 3)]), vec![]);
}

#[test]
fn test_subtract_partial() {
    assert_eq!(subtract(vec![(0, 1), (3, 3)], &[(1, 3)]), vec![(0, 0)]);
}

#[test]
fn test_subtract_two_holes() {
    assert_eq!(
        subtract(vec![(0, 10)], &[(2, 3), (9, 15)]),
        vec![(0, 1), (4, 8)]
    );
}

#[test]
fn test_subtract_after() {
    assert_eq!(subtract(vec![(0, 10)], &[(11, 15)]), vec![(0, 10)]);
}

#[test]
fn test_subtract_inside() {
    assert_eq!(
        subtract(vec![(0, 10)], &[(8, 9)]),
        vec![(0, 7), (10, 10)]
    );
}

#[test]
fn test_subtract_left_edge() {
    assert_eq!(subtract(vec![(5, 10)], &[(4, 7)]), vec![(8, 10)]);
}

#[test]
fn test_subtract_before() {
    assert_eq!(subtract(vec![(5, 10)], &[(1, 3)]), vec![(5, 10)]);
}

#[test]
fn test_subtract_laws() {
    let list = vec![(1, 3), (6, 9), (20, 20)];
    assert_eq!(subtract(list.clone(), &list), vec![]);
    assert_eq!(subtract(list.clone(), &[]), list);
    assert_eq!(subtract(vec![], &list), vec![]);
}

#[test]
fn test_subtract_pointwise() {
    let left = vec![(0, 30), (40, 60)];
    let right = vec![(5, 10), (25, 45), (50, 50), (59, 70)];
    let result = subtract(left.clone(), &right);
    let holds = |s: &[Interval], c: u32| s.iter().any(|&(l, h)| l <= c && c <= h);
    for c in 0..80 {
        assert_eq!(holds(&result, c), holds(&left, c) && !holds(&right, c));
    }
    assert_eq!(result, vec![(0, 4), (11, 24), (46, 49), (51, 58)]);
}

#[test]
fn test_from_str_empty() {
    assert_eq!(from_str(""), vec![]);
}

#[test]
fn test_from_str_astral() {
    assert_eq!(from_str("\u{10A07}"), vec![(68103, 68103)]);
}

#[test]
fn test_from_str_single() {
    assert_eq!(from_str("a"), vec![(97, 97)]);
}

#[test]
fn test_from_str_repeated() {
    assert_eq!(from_str("aa"), vec![(97, 97)]);
}

#[test]
fn test_from_str_digits_and_letters() {
    assert_eq!(from_str("abcdef0123456789"), vec![(48, 57), (97, 102)]);
}

#[test]
fn test_from_str_shuffled() {
    assert_eq!(from_str("01234fedcba98765"), vec![(48, 57), (97, 102)]);
}

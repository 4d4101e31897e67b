use scm_core::spanset::{Span, SpanSet, MAX_ID};

fn set(ranges: &[(u64, u64)]) -> SpanSet {
    let mut out = SpanSet::empty();
    for (low, high) in ranges {
        out = out.union(&SpanSet::from_range(*low, *high));
    }
    out
}

fn spans(s: &SpanSet) -> Vec<(u64, u64)> {
    s.as_spans().iter().map(|s| (s.low, s.high)).collect()
}

fn ascending(s: &SpanSet) -> Vec<u64> {
    let mut cursor = s.iter();
    let mut out = Vec::new();
    while let Some(id) = cursor.next_back() {
        out.push(id);
    }
    out
}

fn descending(s: &SpanSet) -> Vec<u64> {
    let mut cursor = s.iter();
    let mut out = Vec::new();
    while let Some(id) = cursor.next() {
        out.push(id);
    }
    out
}

fn assert_normalized(s: &SpanSet) {
    let list = spans(s);
    for (low, high) in &list {
        assert!(low <= high);
    }
    for pair in list.windows(2) {
        assert!(pair[0].1 + 1 < pair[1].0, "spans overlap or touch: {:?}", list);
    }
}

#[test]
fn test_span_new() {
    assert_eq!(Span::new(2, 5), Some(Span { low: 2, high: 5 }));
    assert_eq!(Span::new(5, 5), Some(Span { low: 5, high: 5 }));
    assert_eq!(Span::new(6, 5), None);
    assert_eq!(Span::new(0, MAX_ID), Some(Span { low: 0, high: MAX_ID }));
    assert_eq!(Span::new(0, u64::MAX), None);
}

#[test]
fn test_from_range() {
    assert_eq!(spans(&SpanSet::from_range(3, 7)), vec![(3, 7)]);
    assert_eq!(spans(&SpanSet::from_range(7, 3)), vec![]);
    assert_eq!(spans(&SpanSet::from_range(5, u64::MAX)), vec![(5, MAX_ID)]);
    assert_eq!(spans(&SpanSet::from_range(u64::MAX, u64::MAX)), vec![]);
    assert!(SpanSet::empty().is_empty());
    assert!(!SpanSet::from_range(0, 0).is_empty());
}

#[test]
fn test_from_ids_merges_neighbours() {
    let s = SpanSet::from_ids(&vec![6, 0, 4, 1, 5, 1, u64::MAX]);
    assert_eq!(spans(&s), vec![(0, 1), (4, 6)]);
    assert_eq!(s.debug_string(), "0 1 4 5 6");
}

#[test]
fn test_union_merges_overlapping_and_touching_spans() {
    let a = set(&[(0, 3), (10, 12), (20, 20)]);
    let b = set(&[(4, 5), (11, 15), (22, 30)]);
    let u = a.union(&b);
    assert_eq!(spans(&u), vec![(0, 5), (10, 15), (20, 20), (22, 30)]);
    assert_eq!(spans(&b.union(&a)), spans(&u));
    assert_normalized(&u);
    assert_eq!(spans(&set(&[(0, 1)]).union(&set(&[(3, 4)]))), vec![(0, 1), (3, 4)]);
    assert_eq!(spans(&set(&[(0, 1)]).union(&set(&[(2, 4)]))), vec![(0, 4)]);
    assert_eq!(spans(&set(&[(0, 9)]).union(&set(&[(2, 4)]))), vec![(0, 9)]);
}

#[test]
fn test_intersection() {
    let a = set(&[(0, 3), (10, 12), (20, 20)]);
    let b = set(&[(2, 10), (12, 25)]);
    let i = a.intersection(&b);
    assert_eq!(spans(&i), vec![(2, 3), (10, 10), (12, 12), (20, 20)]);
    assert_eq!(spans(&b.intersection(&a)), spans(&i));
    assert_normalized(&i);
}

#[test]
fn test_difference_depends_on_the_order() {
    let a = set(&[(0, 3), (10, 12), (20, 20)]);
    let b = set(&[(2, 10), (12, 25)]);
    assert_eq!(spans(&a.difference(&b)), vec![(0, 1), (11, 11)]);
    assert_eq!(spans(&b.difference(&a)), vec![(4, 9), (13, 19), (21, 25)]);
    assert_normalized(&b.difference(&a));
}

#[test]
fn test_complement() {
    assert_eq!(spans(&SpanSet::empty().complement()), vec![(0, MAX_ID)]);
    assert_eq!(spans(&SpanSet::from_range(0, MAX_ID).complement()), vec![]);
    let s = set(&[(0, 3), (10, 12)]);
    assert_eq!(spans(&s.complement()), vec![(4, 9), (13, MAX_ID)]);
    assert_eq!(spans(&s.complement().complement()), spans(&s));
    assert_eq!(spans(&set(&[(5, MAX_ID)]).complement()), vec![(0, 4)]);
}

#[test]
fn test_empty_operand() {
    let a = set(&[(0, 3), (10, 12)]);
    let e = SpanSet::empty();
    assert_eq!(spans(&a.union(&e)), spans(&a));
    assert_eq!(spans(&e.union(&a)), spans(&a));
    assert_eq!(spans(&a.intersection(&e)), vec![]);
    assert_eq!(spans(&a.difference(&e)), spans(&a));
    assert_eq!(spans(&e.difference(&a)), vec![]);
}

#[test]
fn test_idempotence() {
    let a = set(&[(0, 3), (10, 12), (14, 14)]);
    assert_eq!(spans(&a.union(&a)), spans(&a));
    assert_eq!(spans(&a.intersection(&a)), spans(&a));
    assert_eq!(spans(&a.difference(&a)), vec![]);
}

#[test]
fn test_count_of_union_and_intersection() {
    let a = set(&[(0, 3), (10, 12), (20, 20)]);
    let b = set(&[(2, 10), (12, 25)]);
    assert_eq!(a.count(), 8);
    assert_eq!(b.count(), 23);
    assert_eq!(a.union(&b).count(), 26);
    assert_eq!(a.intersection(&b).count(), 5);
    assert_eq!(a.union(&b).count(), a.count() + b.count() - a.intersection(&b).count());
    assert_eq!(SpanSet::empty().count(), 0);
    assert_eq!(SpanSet::from_range(0, MAX_ID).count(), u64::MAX);
}

#[test]
fn test_min_max_contains() {
    let a = set(&[(2, 3), (10, 12), (20, 20)]);
    assert_eq!(a.min(), Some(2));
    assert_eq!(a.max(), Some(20));
    assert_eq!(SpanSet::empty().min(), None);
    assert_eq!(SpanSet::empty().max(), None);
    for id in 0..25 {
        let inside = [2, 3, 10, 11, 12, 20].contains(&id);
        assert_eq!(a.contains(id), inside, "id {}", id);
    }
    assert!(!a.contains(u64::MAX));
}

#[test]
fn test_cursor_from_both_ends() {
    let a = set(&[(2, 3), (10, 12), (20, 20)]);
    assert_eq!(descending(&a), vec![20, 12, 11, 10, 3, 2]);
    assert_eq!(ascending(&a), vec![2, 3, 10, 11, 12, 20]);
    let mut cursor = a.iter();
    assert_eq!(cursor.next(), Some(20));
    assert_eq!(cursor.next_back(), Some(2));
    assert_eq!(cursor.next_back(), Some(3));
    assert_eq!(cursor.next(), Some(12));
    assert_eq!(cursor.next_back(), Some(10));
    assert_eq!(cursor.next(), Some(11));
    assert_eq!(cursor.next(), None);
    assert_eq!(cursor.next_back(), None);
    // the set itself is untouched
    assert_eq!(a.count(), 6);
    assert_eq!(a.clone().count(), 6);
}

#[test]
fn test_span_text() {
    assert_eq!(SpanSet::empty().debug_string(), "");
    assert_eq!(set(&[(7, 7)]).debug_string(), "7");
    assert_eq!(set(&[(7, 8)]).debug_string(), "7 8");
    assert_eq!(set(&[(7, 9)]).debug_string(), "7 8 9");
    assert_eq!(set(&[(7, 10)]).debug_string(), "7..=10");
    assert_eq!(set(&[(0, 3), (99, 100), (1000, 20000)]).debug_string(), "0..=3 99 100 1000..=20000");
    assert_eq!(
        set(&[(MAX_ID, MAX_ID)]).debug_string(),
        "18446744073709551614"
    );
}

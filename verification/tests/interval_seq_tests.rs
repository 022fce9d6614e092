use vec_collections::interval::Interval;
use vec_collections::interval_seq::{IntervalSeq, IntervalSet};

#[test]
fn intervalseq_or_test() {
    // (25, 60) (-90, 25]
    let a = IntervalSeq::from(Interval::range(25, false, 60, false).unwrap());
    let b = IntervalSeq::from(Interval::range(-90, false, 25, true).unwrap());
    let c = a | b;
    assert!(c.is_valid())
}

#[test]
fn interval_xor_test() {
    // [-30, 11] [-98, -5)
    let a = IntervalSeq::from(Interval::range(-30, true, 11, true).unwrap());
    let b = IntervalSeq::from(Interval::range(-98, true, -5, false).unwrap());
    let c = a.clone() ^ b.clone();
    assert!(c.is_valid())
}

#[test]
fn intervalseq_membership_after_or() {
    let a = IntervalSeq::from(Interval::range(25i64, false, 60, false).unwrap());
    let b = IntervalSeq::from(Interval::range(-90i64, false, 25, true).unwrap());
    let c = a | b;
    assert!(!c.at(-90));
    assert!(c.above(-90));
    assert!(c.at(25));
    assert!(c.at(59));
    assert!(!c.at(60));
    assert!(!c.above(60));
    assert!(c.below(60));
}

#[test]
fn intervalseq_and_not() {
    let a: IntervalSeq<i64> = IntervalSeq::at_or_above(10) & IntervalSeq::at_or_below(11);
    assert!(a.at(10) && a.at(11) && !a.at(9) && !a.at(12));
    let n = !a;
    assert!(!n.at(10) && n.at(12) && n.below_all() && n.above_all());
    assert!(!n.is_empty());
    let e: IntervalSeq<i64> = IntervalSeq::empty();
    assert!(e.is_empty());
}

#[test]
fn next_interval_except_point() {
    let s: IntervalSeq<i32> = IntervalSeq::except(5);
    let mut it = s.intervals();
    assert_eq!(it.next_interval(), Some(Interval::Below(5, false)));
    assert_eq!(it.next_interval(), Some(Interval::Above(5, false)));
    assert_eq!(it.next_interval(), None);
}

#[test]
fn next_interval_waits_for_closing_boundary() {
    // [1, 3]: the first boundary opens the interval, the second closes it
    let s: IntervalSeq<i32> = IntervalSeq::from(Interval::range(1, true, 3, true).unwrap());
    let mut it = s.intervals();
    assert_eq!(it.next_interval(), None);
    assert_eq!(it.next_interval(), Some(Interval::Bounded(1, true, 3, true)));
    assert_eq!(it.next_interval(), None);
}

#[test]
fn edges_are_membership_changes() {
    let s: IntervalSeq<i32> = IntervalSeq::from(Interval::range(1, true, 3, false).unwrap());
    let mut e = s.edges();
    assert_eq!(e.next(), Some(&1));
    assert_eq!(e.next(), Some(&3));
    assert_eq!(e.next(), None);
}

#[test]
fn interval_set_queries_on_constructors() {
    let e: IntervalSeq<i32> = IntervalSeq::empty();
    assert!(IntervalSet::is_empty(&e));
    let b: IntervalSeq<i32> = IntervalSeq::below(5);
    assert!(IntervalSet::at(&b, 4));
    assert!(!IntervalSet::at(&b, 5));
    assert!(IntervalSet::below(&b, 5));
    assert!(!IntervalSet::above(&b, 5));
}

#[test]
fn interval_list_is_the_whole_walk() {
    let s: IntervalSeq<i32> = IntervalSeq::except(5);
    assert_eq!(s.interval_list(), vec![Interval::Below(5, false), Interval::Above(5, false)]);
    let e: IntervalSeq<i32> = IntervalSeq::empty();
    assert_eq!(e.interval_list(), vec![]);
    assert_eq!(IntervalSet::hull(&e), Interval::Empty);
    let p: IntervalSeq<i32> = IntervalSeq::at(3);
    assert_eq!(IntervalSet::hull(&p), Interval::Point(3));
}

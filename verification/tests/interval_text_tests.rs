use vec_collections::text::TextKey;
use vec_collections::interval::Interval;
use vec_collections::interval_seq::{IntervalSeq, IntervalSet};

#[test]
fn intervalseq_parse_test() {
    let input =
        "[-98]; [-89]; [-83, -81); [-70, -48]; [-10, 23); [27, 76]; [80, 89]; [92, 93); (93, ∞)";
    input.parse::<IntervalSeq<i64>>().unwrap();
}

#[test]
fn parse_tests() {
    assert_eq!("[0]".parse::<Interval<i32>>().unwrap(), Interval::at(0));
    assert_eq!(
        "(0,1)".parse::<Interval<i32>>().unwrap(),
        Interval::range(0, false, 1, false).unwrap()
    );
}

#[test]
fn interval_text_round_trip() {
    let cases: Vec<Interval<i64>> = vec![
        Interval::Empty,
        Interval::All,
        Interval::at(3),
        Interval::above(-2),
        Interval::at_or_above(7),
        Interval::below(10),
        Interval::at_or_below(-10),
        Interval::range(1, true, 5, false).unwrap(),
        Interval::range(-4, false, 9, true).unwrap(),
    ];
    let texts = vec![
        "(Ø)", "(-∞, ∞)", "[3]", "(-2, ∞)", "[7, ∞)", "(-∞, 10)", "(-∞, -10]", "[1, 5)", "(-4, 9]",
    ];
    for (iv, t) in cases.iter().zip(texts.iter()) {
        assert_eq!(iv.to_text(), t.to_string());
        assert_eq!(t.parse::<Interval<i64>>().unwrap(), *iv);
    }
}

#[test]
fn interval_parse_errors() {
    assert_eq!("[x]".parse::<Interval<i64>>(), Err(String::from("Parse error!")));
    assert_eq!("nonsense".parse::<Interval<i64>>(), Err(String::from("Parse error!")));
    assert_eq!("(5, 1)".parse::<Interval<i64>>(), Err(String::from("Error")));
    assert_eq!("(1, 1)".parse::<Interval<i64>>(), Err(String::from("Error")));
    assert_eq!("[1, 1]".parse::<Interval<i64>>().unwrap(), Interval::at(1));
    assert_eq!("  ( Ø )  ".parse::<Interval<i64>>().unwrap(), Interval::Empty);
}

#[test]
fn intervalseq_text() {
    let s: IntervalSeq<i64> = "[-98]; [-83, -81); (93, ∞)".parse().unwrap();
    assert_eq!(s.to_text(), "[-98]; [-83, -81); (93, ∞)");
    assert!(s.at(-98) && !s.at(-97) && s.at(-83) && !s.at(-81) && s.at(94));
    let e: IntervalSeq<i64> = "   ".parse().unwrap();
    assert!(e.is_empty());
    assert_eq!(e.to_text(), "");
    assert_eq!("[1]; bad".parse::<IntervalSeq<i64>>().err(), Some(String::from("Parse error")));
    let all = IntervalSeq::<i64>::all();
    assert_eq!(all.to_text(), "(-∞, ∞)");
}

#[test]
fn intervals_and_hull() {
    let s: IntervalSeq<i64> = "[1, 3]; (5, 7); [9]".parse().unwrap();
    let mut it = s.intervals();
    assert_eq!(it.next(), Some(Interval::range(1, true, 3, true).unwrap()));
    assert_eq!(it.next(), Some(Interval::range(5, false, 7, false).unwrap()));
    assert_eq!(it.next(), Some(Interval::at(9)));
    assert_eq!(it.next(), None);
    assert_eq!(s.hull(), Interval::range(1, true, 9, true).unwrap());
    assert!(!s.is_contiguous());
    let c: IntervalSeq<i64> = "[1, 3)".parse().unwrap();
    assert!(c.is_contiguous());
    assert!(!IntervalSeq::<i64>::all().is_contiguous());
    assert!(IntervalSeq::<i64>::empty().is_contiguous());
    assert_eq!(IntervalSeq::<i64>::below(4).hull(), Interval::below(4));
    let mut edges = s.edges();
    assert_eq!(edges.next(), Some(&1));
    assert_eq!(edges.next(), Some(&3));
}

#[test]
fn integer_text_round_trip() {
    for v in [0i64, 7, -42, i64::MIN, i64::MAX] {
        assert_eq!(i64::parse_text(&v.to_text()), Some(v));
    }
    for v in [0i32, -1, i32::MIN, i32::MAX] {
        assert_eq!(i32::parse_text(&v.to_text()), Some(v));
    }
    assert_eq!(i64::parse_text("+17"), Some(17));
    assert_eq!(i64::parse_text("-"), None);
    assert_eq!(i64::parse_text(" 1"), None);
    assert_eq!(i32::parse_text("2147483648"), None);
}

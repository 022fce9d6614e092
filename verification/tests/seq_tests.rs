use vec_collections::countable_interval_set::CountableIntervalSet;
use vec_collections::total_seq::{ArraySeq, TotalArraySeq, TotalVecSeq, VecSeq};

#[test]
fn usage() {
    type Test = TotalVecSeq<i64>;
    let x: Test = Test::new(vec![1, 2, 3], 0);
    let y: Test = Test::new(vec![4, 5], 6);
    let z: Test = x + y;
    println!("{}", z.to_text());
}

#[test]
fn total_vec_seq_values() {
    type Test = TotalVecSeq<i64>;
    let x: Test = Test::new(vec![1, 2, 3], 0);
    let y: Test = Test::new(vec![4, 5, 6, 6], 6);
    let z = x.clone() + y.clone();
    assert_eq!(z.to_text(), "TotalVecSeq([5, 7, 9], 6)");
    assert_eq!(z.index(10), 6);
    let m = x.supremum(&y);
    assert_eq!(m.to_text(), "TotalVecSeq([4, 5], 6)");
    let n = x.infimum(&y);
    assert_eq!(n.to_text(), "TotalVecSeq([1, 2, 3], 0)");
    let d = y - x;
    assert_eq!(d.to_text(), "TotalVecSeq([3, 3, 3], 6)");
    let p = Test::new(vec![2, 3], 1) * Test::new(vec![5], 7);
    assert_eq!(p.to_text(), "TotalVecSeq([10, 21], 7)");
    let q = -Test::new(vec![2, 0], 0);
    assert_eq!(q.to_text(), "TotalVecSeq([-2], 0)");
    assert_eq!(Test::constant(3).to_text(), "TotalVecSeq([], 3)");
}

#[test]
fn vec_seq_ops() {
    let a: VecSeq<i64> = vec![1, 2, 3].into();
    let b: VecSeq<i64> = vec![4].into();
    let mut c = &a + &b;
    c += &b;
    assert_eq!(c.to_text(), "VecSeq([1, 2, 3, 4, 4])");
    let t = c.into_total(4);
    assert_eq!(t.to_text(), "TotalVecSeq([1, 2, 3], 4)");
    let x: ArraySeq<i32> = vec![7, 8].into();
    let y = x.operate(&x);
    assert_eq!(y.to_text(), "ArraySeq([7, 8, 7, 8])");
    let ta: TotalArraySeq<i32> = y.as_total(8);
    assert_eq!(ta.to_text(), "TotalArraySeq([7, 8, 7], 8)");
    let tb = ta.zip_with(&TotalArraySeq::constant(1), |a, b| a + b);
    assert_eq!(tb.to_text(), "TotalArraySeq([8, 9, 8], 9)");
    let tc = tb.map(|a| a * 2);
    assert_eq!(tc.to_text(), "TotalArraySeq([16, 18, 16], 18)");
}

#[test]
fn countable_interval_set_smoke_test() {
    type Test = CountableIntervalSet<i32>;
    let x: Test = Test::from(0..10);
    println!("{:?} {:?} {:?} {:?} {:?}", x, x.contains(&0), x.contains(&1), x.contains(&9), x.contains(&10));

    let y: Test = Test::from(..15);

    let r: Test = x.union(&y);
    let r2: Test = x.intersection(&y);
    let r3: Test = x.xor(&y);

    println!("{:?}", r2);
    println!("{:?}", r3);
    println!("{:?}", r);
}

#[test]
fn countable_interval_set_values() {
    type Test = CountableIntervalSet<i32>;
    let x: Test = Test::from(0..10);
    assert!(x.contains(&0) && x.contains(&9) && !x.contains(&10));
    let y: Test = Test::from(5..15);
    let u = x.union(&y);
    assert!(u.contains(&0) && u.contains(&14) && !u.contains(&15));
    let i = x.intersection(&y);
    assert!(!i.contains(&4) && i.contains(&5) && i.contains(&9) && !i.contains(&10));
    let z = x.xor(&y);
    assert!(z.contains(&0) && !z.contains(&5) && z.contains(&10) && !z.contains(&15));
    let n = Test::from(3..).negate();
    assert!(n.contains(&3) == false && n.contains(&100) == false);
}

#[test]
fn test_basic_usage() {
    let a: ArraySeq<i64> = vec![1, 2, 3].into();
    let b: ArraySeq<i64> = vec![1, 2, 3].into();
    let mut c = &a + &b;
    c += &b;
    let at = a.clone().as_total(0);
    let bt = b.clone().as_total(0);
    let ct = at.operate(&bt);
    println!("{} {} {}", a.to_text(), b.to_text(), c.to_text());
    println!("{} {} {}", at.to_text(), bt.to_text(), ct.to_text());
    assert_eq!(c.to_text(), "ArraySeq([1, 2, 3, 1, 2, 3, 1, 2, 3])");
    assert_eq!(ct.to_text(), "TotalArraySeq([2, 4, 6], 0)");
}

#[test]
fn total_vec_seq_generic_operators() {
    let a: TotalVecSeq<i32> = TotalVecSeq::new(vec![10, 20, 7], 9);
    let b: TotalVecSeq<i32> = TotalVecSeq::new(vec![2, 5], 3);
    let q = a.clone() / b.clone();
    assert_eq!(q.to_text(), "TotalVecSeq([5, 4, 2], 3)");
    let s = a + b;
    assert_eq!(s.to_text(), "TotalVecSeq([12, 25, 10], 12)");
}

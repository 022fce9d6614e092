use std::ops::{BitAnd, BitOr, BitXor};
use vec_collections::range_set::RangeSet;

type Test = RangeSet<i32>;

#[test]
fn range_set_smoke_test() {
    let x: Test = Test::from(0..10);
    println!(
        "{:?} {:?} {:?} {:?} {:?}",
        x,
        x.contains(&0),
        x.contains(&1),
        x.contains(&9),
        x.contains(&10)
    );

    let y: Test = Test::from(..10);
    let z: Test = Test::from(20..);

    let r: Test = x.bitor(&y);
    let r2: Test = x.bitand(&y);
    let r3: Test = x.bitxor(&y);
    let r4 = y.is_disjoint(&z);
    let r5 = y.bitand(&z);

    println!("{:?}", r);
    println!("{:?}", r2);
    println!("{:?}", r3);
    println!("{:?} {:?}", r4, r5);
    assert!(x.contains(&0) && x.contains(&9) && !x.contains(&10));
    assert!(r4);
    assert!(r5.is_empty());
    assert!(r3.contains(&-1) && !r3.contains(&5));
}

#[test]
fn range_set_algebra() {
    let a: Test = Test::from(0..10);
    let b: Test = Test::from(5..20);
    let all = Test::all();
    let empty = Test::empty();
    assert!((&a & &all).is_subset(&a) && a.is_subset(&(&a & &all)));
    assert!((&a | &empty).is_subset(&a) && a.is_subset(&(&a | &empty)));
    assert!((&a | &all).is_all());
    let not_a = !&a;
    assert!((&all - &a).is_subset(&not_a) && not_a.is_subset(&(&all - &a)));
    let d = &a - &b;
    assert!(d.contains(&4) && !d.contains(&5));
    let sym = &a ^ &b;
    assert!(sym.contains(&0) && !sym.contains(&7) && sym.contains(&15));
    assert!(!(!&(!&a)).contains(&10) && (!&(!&a)).contains(&3));
}

#[test]
fn disjoint_and_subset_over_values() {
    assert!(Test::from(..10).is_disjoint(&Test::from(20..)));
    assert!(!Test::all().is_disjoint(&Test::all()));
    assert!(!Test::all().is_subset(&Test::empty()));
    // below every i32: the sets meet below i32::MIN, though they hold no i32 value
    let low = Test::from(..i32::MIN);
    assert!(!low.contains(&i32::MIN));
    assert!(!low.is_disjoint(&low));
}

use vec_collections::array_map::ArrayMap;
use vec_collections::total_array_map::TotalArrayMap;

type Test = TotalArrayMap<i32, i32>;

fn from_ref(elements: Vec<(i32, i32)>, default: i32) -> Test {
    TotalArrayMap::new(ArrayMap::from_vec(elements), default)
}

#[test]
fn total_map_index() {
    let x = from_ref(vec![(1, 10), (2, 0), (5, 50)], 0);
    assert_eq!(*x.index(&1), 10);
    assert_eq!(*x.index(&2), 0);
    assert_eq!(*x.index(&3), 0);
    assert_eq!(*x.index(&5), 50);
    // the mapping to the default is not stored
    assert_eq!(x.non_default_mappings().as_slice(), &[(1, 10), (5, 50)]);
}

#[test]
fn total_map_supremum_and_infimum() {
    let a = from_ref(vec![(1, 10), (2, -5)], 0);
    let b = from_ref(vec![(2, 3), (3, -7)], 1);
    let s = a.supremum(&b);
    assert_eq!(*s.index(&1), 10);
    assert_eq!(*s.index(&2), 3);
    assert_eq!(*s.index(&3), 0);
    assert_eq!(*s.index(&4), 1);
    let i = a.infimum(&b);
    assert_eq!(*i.index(&1), 1);
    assert_eq!(*i.index(&2), -5);
    assert_eq!(*i.index(&3), -7);
    assert_eq!(*i.index(&4), 0);
    assert_eq!(i.non_default_mappings().as_slice(), &[(1, 1), (2, -5), (3, -7)]);
}

#[test]
fn total_map_combine_and_map_values() {
    let a = from_ref(vec![(1, 1), (2, 2)], 0);
    let b = from_ref(vec![(2, 2), (3, 3)], 0);
    let sum = a.combine_ref(&b, |x, y| x + y);
    assert_eq!(sum.non_default_mappings().as_slice(), &[(1, 1), (2, 4), (3, 3)]);
    let diff = a.combine_ref(&a, |x, y| x - y);
    assert!(diff.non_default_mappings().is_empty());
    assert_eq!(*diff.index(&7), 0);
    let doubled: TotalArrayMap<i32, i32> = a.map_values(|x| x * 2 + 1);
    assert_eq!(*doubled.index(&1), 3);
    assert_eq!(*doubled.index(&9), 1);
    let c: Test = TotalArrayMap::constant(4);
    assert_eq!(*c.index(&-100), 4);
    let d: Test = TotalArrayMap::from(4);
    assert!(d.non_default_mappings().is_empty());
}

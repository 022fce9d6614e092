use vec_collections::array_set::ArraySet;

#[test]
fn intersection_1() {
    let mut a: ArraySet<usize> = ArraySet::from_vec(vec![0]);
    let b: ArraySet<usize> = ArraySet::from_vec(vec![]);
    a.intersection_with(&b);
    println!("a {:?}", a);
    assert_eq!(a.into_vec(), vec![]);
}

#[test]
fn array_set_ops() {
    let a: ArraySet<u32> = ArraySet::from_vec(vec![5, 1, 3, 3, 9]);
    let b: ArraySet<u32> = ArraySet::from_vec(vec![3, 4, 5]);
    assert_eq!((&a | &b).into_vec(), vec![1, 3, 4, 5, 9]);
    assert_eq!((&a & &b).into_vec(), vec![3, 5]);
    assert_eq!((&a ^ &b).into_vec(), vec![1, 4, 9]);
    assert_eq!((&a - &b).into_vec(), vec![1, 9]);
    assert!(a.contains(&9));
    assert!(!a.contains(&4));
    assert!(!a.is_disjoint(&b));
    assert!(!b.is_subset(&a));
}

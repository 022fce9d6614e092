use vec_collections::array_map::{ArrayMap, LeftJoinArg, OuterJoinArg, RightJoinArg};

fn map(v: Vec<(i32, i32)>) -> ArrayMap<i32, i32> {
    ArrayMap::from_vec(v)
}

#[test]
fn array_map_smoke_test() {
    let a = map(vec![(1, 1), (2, 3)]);
    let b = map(vec![(1, 2), (3, 4)]);
    let expected = map(vec![(1, 2), (2, 3), (3, 4)]);
    let actual = a.outer_join(&b, |arg| match arg {
        OuterJoinArg::Left(a) => *a,
        OuterJoinArg::Right(b) => *b,
        OuterJoinArg::Both(_, b) => *b,
    });
    assert_eq!(actual.as_slice(), expected.as_slice());
    println!("{:?}", actual);
}

#[test]
fn array_map_joins() {
    let a = map(vec![(1, 10), (2, 20), (4, 40)]);
    let b = map(vec![(2, 200), (3, 300), (4, 400)]);
    let inner = a.inner_join(&b, |x, y| x + y);
    assert_eq!(inner.as_slice(), &[(2, 220), (4, 440)]);
    let left = a.left_join(&b, |arg| match arg {
        LeftJoinArg::Left(x) => *x,
        LeftJoinArg::Both(x, y) => x * y,
    });
    assert_eq!(left.as_slice(), &[(1, 10), (2, 4000), (4, 16000)]);
    let right = a.right_join(&b, |arg| match arg {
        RightJoinArg::Right(y) => -*y,
        RightJoinArg::Both(x, _) => *x,
    });
    assert_eq!(right.as_slice(), &[(2, 20), (3, -300), (4, 40)]);
    let merged = a.merge(&b);
    assert_eq!(merged.as_slice(), &[(1, 10), (2, 20), (3, 300), (4, 40)]);
}

#[test]
fn array_map_access() {
    let mut a = map(vec![(5, 50), (1, 10), (3, 30), (1, 11)]);
    assert_eq!(a.len(), 3);
    assert!(!a.is_empty());
    assert_eq!(a.get(&1), Some(&11));
    assert_eq!(a.get(&2), None);
    assert_eq!(a.get_mut(&5), Some(&mut 50));
    a.retain(|(k, _)| *k != 3);
    assert_eq!(a.as_slice(), &[(1, 11), (5, 50)]);
    let doubled = a.map_values(|v| v * 2);
    assert_eq!(doubled.as_slice(), &[(1, 22), (5, 100)]);
    let mut it = doubled.iter();
    assert_eq!(it.next(), Some(&(1, 22)));
    assert_eq!(it.as_slice(), &[(5, 100)]);
    let s = ArrayMap::single(7, 70);
    assert_eq!(s.as_slice(), &[(7, 70)]);
    assert!(ArrayMap::<i32, i32>::empty().is_empty());
}

#[test]
fn test_sorted_iter() {
    let a = vec_collections::array_map::SPI::new((0..10).step_by(2).map(|k| (k, k)).collect());
    let b = vec_collections::array_map::SPI::new((0..5).map(|k| (k, k)).collect());
    let r: Vec<_> = a.outer_join(b, |a, b| (a, b)).into_vec();
    println!("{:?}", r);
    assert_eq!(
        r,
        vec![
            (0, (Some(0), Some(0))),
            (1, (None, Some(1))),
            (2, (Some(2), Some(2))),
            (3, (None, Some(3))),
            (4, (Some(4), Some(4))),
            (6, (Some(6), None)),
            (8, (Some(8), None)),
        ]
    );
}

#[test]
fn array_map_insert_and_combine() {
    let mut m: ArrayMap<i32, i32> = ArrayMap::from_vec(vec![(1, 10), (3, 30)]);
    assert_eq!(m.insert(2, 20), None);
    assert_eq!(m.insert(3, 33), Some(30));
    assert_eq!(m.as_slice(), &[(1, 10), (2, 20), (3, 33)]);
    let other: ArrayMap<i32, i32> = ArrayMap::from_vec(vec![(0, 1), (2, 5)]);
    let mut c = ArrayMap::from_vec(m.as_slice().to_vec());
    c.combine_with(other, |a, b| a + b);
    assert_eq!(c.as_slice(), &[(0, 1), (1, 10), (2, 25), (3, 33)]);
    let mut r = ArrayMap::from_vec(vec![(1, 1), (2, 2)]);
    r.merge_with(ArrayMap::from_vec(vec![(2, 20), (4, 40)]));
    assert_eq!(r.as_slice(), &[(1, 1), (2, 20), (4, 40)]);
}

#[test]
fn vec_map_smoke_test() {
    let a = map(vec![(1, 1), (2, 3)]);
    let b = map(vec![(1, 2), (3, 4)]);
    let expected = map(vec![(1, 2), (2, 3), (3, 4)]);
    let actual = a.outer_join(&b, |arg| match arg {
        OuterJoinArg::Left(a) => *a,
        OuterJoinArg::Right(b) => *b,
        OuterJoinArg::Both(_, b) => *b,
    });
    assert_eq!(actual.as_slice(), expected.as_slice());
    println!("{:?}", actual);
}

#[test]
fn array_map_get_mut_writes() {
    let mut a = map(vec![(5, 50), (1, 10), (3, 30)]);
    if let Some(v) = a.get_mut(&3) {
        *v = 33;
    }
    assert_eq!(a.get(&3), Some(&33));
    assert_eq!(a.as_slice(), &[(1, 10), (3, 33), (5, 50)]);
    assert_eq!(a.get_mut(&4), None);
    assert_eq!(a.as_slice(), &[(1, 10), (3, 33), (5, 50)]);
}

use vec_collections::dedup::{sort_dedup, sort_dedup_by_key, Keep};

#[test]
fn sort_and_dedup_by_test() {
    let v: Vec<(i32, i32)> = vec![(0, 1), (0, 2), (0, 3), (1, 1), (1, 2)];
    let keep_first: Vec<_> = sort_dedup_by_key(v.clone(), Keep::First);
    let keep_last: Vec<_> = sort_dedup_by_key(v.clone(), Keep::Last);
    assert_eq!(keep_first, vec![(0, 1), (1, 1)]);
    assert_eq!(keep_last, vec![(0, 3), (1, 2)]);
    let expected: Vec<(i32, i32)> = v
        .iter()
        .cloned()
        .collect::<std::collections::BTreeMap<i32, i32>>()
        .into_iter()
        .collect();
    println!("{:?} {:?} {:?}", keep_first, keep_last, expected)
}

#[test]
fn sort_dedup_many() {
    let mut v: Vec<i64> = Vec::new();
    for i in 0..200i64 {
        v.push((i * 37) % 50);
    }
    let r: Vec<i64> = sort_dedup(v, Keep::First);
    let expected: Vec<i64> = (0..50).collect();
    assert_eq!(r, expected);
}

#[test]
fn sort_dedup_keep_across_compactions() {
    let mut v: Vec<(u32, u32)> = Vec::new();
    for i in 0..100u32 {
        v.push((i % 7, i));
    }
    let first: Vec<(u32, u32)> = sort_dedup_by_key(v.clone(), Keep::First);
    let last: Vec<(u32, u32)> = sort_dedup_by_key(v, Keep::Last);
    assert_eq!(first, (0..7).map(|k| (k, k)).collect::<Vec<_>>());
    assert_eq!(last, vec![(0, 98), (1, 99), (2, 93), (3, 94), (4, 95), (5, 96), (6, 97)]);
}

#[test]
fn reduce_numbers() {
    assert_eq!(
        4950,
        vec_collections::sonic_reducer::reduce((1..100).collect::<Vec<i32>>(), |a, b| a + b).unwrap()
    );
}

#[test]
fn reduce_keeps_order() {
    let words: Vec<String> = (0..37).map(|i| format!("{};", i)).collect();
    let expected: String = words.concat();
    let actual = vec_collections::sonic_reducer::reduce(words, |a, b| a + &b).unwrap();
    assert_eq!(actual, expected);
    let empty: Vec<i32> = Vec::new();
    assert_eq!(vec_collections::sonic_reducer::reduce(empty, |a, b| a + b), None);
}

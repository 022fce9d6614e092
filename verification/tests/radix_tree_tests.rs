use std::collections::BTreeSet;
use vec_collections::radix_tree::{IterKey, RadixTree};

type Test = RadixTree<u8, ()>;
type Reference = BTreeSet<Vec<u8>>;

fn r2t(r: &Reference) -> Test {
    let entries: Vec<(Vec<u8>, ())> = r.iter().map(|t| (t.to_vec(), ())).collect();
    RadixTree::from_entries(&entries)
}

fn differencex(a: Reference, b: Reference) -> bool {
    let a: Reference = a.into_iter().take(2).collect();
    let b: Reference = b.into_iter().take(2).collect();
    let a1: Test = r2t(&a);
    let b1: Test = r2t(&b);
    let mut r1 = a1;
    r1.difference_with(&b1);
    let expected = r2t(&a.difference(&b).cloned().collect());
    if expected != r1 {
        println!("expected:{:#?}\nvalue:{:#?}", expected, r1);
    }
    expected == r1
}

#[test]
fn values_iter() {
    let elems = &["abc", "ab", "a", "ba"];
    let entries: Vec<(Vec<u8>, &str)> = elems.iter().map(|x| (x.as_bytes().to_vec(), *x)).collect();
    let tree = RadixTree::from_entries(&entries);
    for x in tree.values() {
        println!("{}", x);
    }
    for (k, v) in tree.iter() {
        println!("{:?} {}", k, v);
    }
    assert_eq!(tree.values(), vec!["a", "ab", "abc", "ba"]);
    let keys: Vec<Vec<u8>> = tree.iter().into_iter().map(|(k, _)| k).collect();
    assert_eq!(keys, vec![b"a".to_vec(), b"ab".to_vec(), b"abc".to_vec(), b"ba".to_vec()]);
}

#[test]
fn radix_tree_smoke_test() {
    let mut res: Test = RadixTree::default();
    let keys = ["aabbcc", "aabb", "aabbee"];
    let nope = ["xaabbcc", "aabbx", "aabbx", "aabbeex"];
    for key in keys {
        let x = RadixTree::single(key.as_bytes(), ());
        res.union_with(&x);
        // any set is subset of itself
        assert!(res.is_subset(&res));
    }
    for key in nope {
        assert!(!res.contains_key(key.as_bytes()));
        // keys not contained in the set must not be a subset
        let mut t = RadixTree::single(key.as_bytes(), ());
        assert!(!t.is_subset(&res));
        t.intersection_with(&res);
        assert!(t.is_empty());
        let mut dif = res.clone();
        dif.difference_with(&RadixTree::single(key.as_bytes(), ()));
        assert_eq!(dif, res);
    }
    for key in keys {
        assert!(res.contains_key(key.as_bytes()));
        // keys contained in the set must be a subset
        assert!(RadixTree::single(key.as_bytes(), ()).is_subset(&res));
        let mut t = RadixTree::single(key.as_bytes(), ());
        assert!(t.is_subset(&res));
        t.intersection_with(&res);
        assert!(t == RadixTree::single(key.as_bytes(), ()));
        let mut dif = res.clone();
        dif.difference_with(&RadixTree::single(key.as_bytes(), ()));
        assert!(!dif.contains_key(key.as_bytes()));
    }
}

#[test]
fn difference1() {
    let a: Reference = [vec![1, 0]].into_iter().collect();
    let b: Reference = [vec![1, 1]].into_iter().collect();
    println!("{:#?}", r2t(&a));
    println!("{:#?}", r2t(&b));
    assert!(differencex(a, b));
}

#[test]
fn radix_tree_union_keeps_first_value() {
    let mut a = RadixTree::single(b"key", 1u32);
    a.union_with(&RadixTree::single(b"key", 2u32));
    a.union_with(&RadixTree::single(b"kex", 3u32));
    assert_eq!(a.iter(), vec![(b"kex".to_vec(), 3), (b"key".to_vec(), 1)]);
    assert_eq!(a.prefix(), b"ke");
    assert_eq!(a.children().len(), 2);
    assert_eq!(*a.value(), None);
}

#[test]
fn radix_tree_from_entries_first_wins() {
    let entries = vec![(b"ab".to_vec(), 1u32), (b"ab".to_vec(), 2), (b"a".to_vec(), 3)];
    let t = RadixTree::from_entries(&entries);
    assert_eq!(t.iter(), vec![(b"a".to_vec(), 3), (b"ab".to_vec(), 1)]);
    assert_eq!(t.values(), vec![3, 1]);
}

#[test]
fn radix_tree_set_operations() {
    let words = |ws: &[&str]| -> Test {
        let entries: Vec<(Vec<u8>, ())> = ws.iter().map(|w| (w.as_bytes().to_vec(), ())).collect();
        RadixTree::from_entries(&entries)
    };
    let a = words(&["car", "cart", "cat", "dog"]);
    let b = words(&["cart", "cat", "cow"]);
    let mut i = a.clone();
    i.intersection_with(&b);
    assert_eq!(i.iter(), words(&["cart", "cat"]).iter());
    let mut d = a.clone();
    d.difference_with(&b);
    assert_eq!(d.iter(), words(&["car", "dog"]).iter());
    let mut u = a.clone();
    u.union_with(&b);
    assert_eq!(u.iter(), words(&["car", "cart", "cat", "cow", "dog"]).iter());
    assert!(a.intersects(&b));
    assert!(!a.is_disjoint(&b));
    assert!(a.is_disjoint(&words(&["ca", "do", "carts"])));
    assert!(words(&["cat", "cart"]).is_subset(&a));
    assert!(!b.is_subset(&a));
    assert!(a.contains_key(b"car"));
    assert!(!a.contains_key(b"ca"));
}

#[test]
fn radix_tree_leaf_and_prepend() {
    let mut t = RadixTree::leaf(7u8);
    assert!(t.contains_key(b""));
    t.prepend(b"xy");
    assert!(t.contains_key(b"xy"));
    assert!(!t.contains_key(b""));
    assert_eq!(t.iter(), vec![(b"xy".to_vec(), 7)]);
    let e: RadixTree<u8, u8> = RadixTree::new();
    assert!(e.is_empty());
    assert!(!t.is_empty());
}

#[test]
fn iter_key_append_and_pop() {
    let mut k: IterKey<u8> = IterKey::new();
    k.append(b"abc");
    k.append(b"de");
    assert_eq!(k.as_slice(), b"abcde");
    k.pop(2);
    assert_eq!(k.as_slice(), b"abc");
    k.pop(10);
    assert!(k.as_slice().is_empty());
}

/// The key sequences at which two trees are compared: the empty one, and each key sequence of
/// a tree with one key more and one key less.
fn samples(t: &Test, res: &mut BTreeSet<Vec<u8>>) {
    res.insert(vec![]);
    for (k, _) in t.iter() {
        let a = k.clone();
        let mut b = a.clone();
        let mut c = a.clone();
        b.push(0);
        c.pop();
        res.insert(a);
        res.insert(b);
        res.insert(c);
    }
}

fn binary_element_test(a: &Test, b: &Test, r: Test, op: impl Fn(bool, bool) -> bool) -> bool {
    let mut s: BTreeSet<Vec<u8>> = BTreeSet::new();
    samples(a, &mut s);
    samples(b, &mut s);
    samples(&r, &mut s);
    s.into_iter().all(|key| {
        let actual = op(a.contains_key(&key), b.contains_key(&key));
        let expected = r.contains_key(&key);
        if expected != actual {
            println!("expected!=actual at: {:?}. {:?}!={:?}", key, expected, actual);
            false
        } else {
            true
        }
    })
}

fn binary_property_test(a: &Test, b: &Test, r: bool, op: impl Fn(bool, bool) -> bool) -> bool {
    let mut s: BTreeSet<Vec<u8>> = BTreeSet::new();
    samples(a, &mut s);
    samples(b, &mut s);
    if r {
        s.iter().cloned().all(|e| op(a.contains_key(&e), b.contains_key(&e)))
    } else {
        s.iter().cloned().any(|e| !op(a.contains_key(&e), b.contains_key(&e)))
    }
}

fn test_tree(strings: &[&str]) -> RadixTree<u8, ()> {
    let mut res = RadixTree::default();
    for key in strings {
        res.insert(key.as_bytes(), ());
    }
    res
}

#[test]
fn mod_smoke_test() {
    let mut res: Test = RadixTree::default();
    let keys = ["aabbcc", "aabb", "aabbee"];
    let nope = ["xaabbcc", "aabbx", "aabbx", "aabbeex"];
    for key in keys {
        let x = RadixTree::single(key.as_bytes(), ());
        res.union_with(&x);
        // any set is subset of itself
        assert!(res.is_subset(&res));
    }
    for (key, _) in res.scan_prefix("aa".as_bytes()) {
        println!("{:?}", std::str::from_utf8(key.as_ref()).unwrap());
    }
    for key in nope {
        assert!(!res.contains_key(key.as_bytes()));
        // keys not contained in the set must not be a subset
        let mut t = RadixTree::single(key.as_bytes(), ());
        assert!(!t.is_subset(&res));
        t.intersection_with(&res);
        assert!(t.is_empty());
        let mut dif = res.clone();
        dif.difference_with(&RadixTree::single(key.as_bytes(), ()));
        assert_eq!(dif, res);
    }
    for key in keys {
        assert!(res.contains_key(key.as_bytes()));
        // keys contained in the set must be a subset
        assert!(RadixTree::single(key.as_bytes(), ()).is_subset(&res));
        let mut t = RadixTree::single(key.as_bytes(), ());
        assert!(t.is_subset(&res));
        t.intersection_with(&res);
        assert!(t == RadixTree::single(key.as_bytes(), ()));
        let mut dif = res.clone();
        dif.difference_with(&RadixTree::single(key.as_bytes(), ()));
        assert!(!dif.contains_key(key.as_bytes()));
    }
}

#[test]
fn is_subset_sample1() {
    let a = r2t(&[vec![1]].into_iter().collect());
    let b = r2t(&BTreeSet::new());
    println!("a.is_subset(b): {}", a.is_subset(&b));
    assert!(binary_property_test(&a, &b, a.is_subset(&b), |a, b| !a | b));
}

#[test]
fn difference_sample1() {
    let a = r2t(&[vec![]].into_iter().collect());
    let b = r2t(&[vec![0]].into_iter().collect());
    println!("a.difference(b): {:#?}", a.difference(&b));
    assert!(binary_element_test(&a, &b, a.difference(&b), |a, b| a & !b));
}

#[test]
fn difference_sample2() {
    let a = r2t(&[vec![0]].into_iter().collect());
    let b = r2t(&[vec![1]].into_iter().collect());
    println!("a.difference(b): {:#?}", a.difference(&b));
    assert!(binary_element_test(&a, &b, a.difference(&b), |a, b| a & !b));
}

#[test]
fn remove_prefix_sample1() {
    let mut test = test_tree(&["a", "aa", "aaa", "ab", "b", "bc", "bc", "eeeee", "eeeef"]);
    let exclude = test_tree(&["aa", "bc", "ee"]);
    test.remove_prefix_with(&exclude, |_| true);
    let expected = test_tree(&["a", "ab", "b"]);
    assert_eq!(test, expected);
}

#[test]
fn retain_prefix_sample1() {
    let a = r2t(&[vec![0]].into_iter().collect());
    let b = r2t(&[vec![0], vec![1]].into_iter().collect());
    let mut r = a.clone();
    r.retain_prefix_with(&b, |_| true);
    assert_eq!(r, a);
}

#[test]
fn retain_prefix_sample() {
    let mut test = test_tree(&["a", "aa", "aaa", "ab", "b", "bc", "bcd", "eeeee", "eeeef"]);
    let exclude = test_tree(&["aa", "bc", "ee"]);
    test.retain_prefix_with(&exclude, |_| true);
    let expected = test_tree(&["aa", "aaa", "bc", "bcd", "eeeee", "eeeef"]);
    assert_eq!(test, expected);
}

#[test]
fn radix_tree_filter_and_scan_prefix() {
    let t = test_tree(&["car", "cart", "cat", "dog"]);
    let f = t.filter_prefix(b"car");
    assert_eq!(f.iter(), vec![(b"car".to_vec(), ()), (b"cart".to_vec(), ())]);
    let keys: Vec<Vec<u8>> = t.scan_prefix(b"ca").into_iter().map(|(k, _)| k).collect();
    assert_eq!(keys, vec![b"car".to_vec(), b"cart".to_vec(), b"cat".to_vec()]);
    assert!(t.filter_prefix(b"x").is_empty());
    let mut m = RadixTree::single(b"k", 1u32);
    m.insert(b"k", 2);
    assert_eq!(m.iter(), vec![(b"k".to_vec(), 2)]);
}

#[test]
fn remove_prefix_with_predicate() {
    let t = test_tree(&["aa", "ab", "ba"]);
    let mut marks: RadixTree<u8, u32> = RadixTree::single(b"a", 1);
    marks.insert(b"b", 2);
    let mut r = t.clone();
    r.remove_prefix_with(&marks, |v| *v == 2);
    let keys: Vec<Vec<u8>> = r.iter().into_iter().map(|(k, _)| k).collect();
    assert_eq!(keys, vec![b"aa".to_vec(), b"ab".to_vec()]);
    let mut s = t.clone();
    s.retain_prefix_with(&marks, |v| *v == 2);
    let keys: Vec<Vec<u8>> = s.iter().into_iter().map(|(k, _)| k).collect();
    assert_eq!(keys, vec![b"ba".to_vec()]);
}

#[test]
fn outer_and_inner_combine_with_function() {
    let a: RadixTree<u8, u32> = RadixTree::from_entries(&[(b"a".to_vec(), 1), (b"ab".to_vec(), 2)]);
    let b: RadixTree<u8, u32> = RadixTree::from_entries(&[(b"ab".to_vec(), 10), (b"b".to_vec(), 20)]);
    let sum = |x: &u32, y: &u32| if *x < 1000 && *y < 1000 { Some(*x + *y) } else { None };
    let o = a.outer_combine(&b, sum);
    assert_eq!(o.iter(), vec![(b"a".to_vec(), 1), (b"ab".to_vec(), 12), (b"b".to_vec(), 20)]);
    let i = a.inner_combine(&b, sum);
    assert_eq!(i.iter(), vec![(b"ab".to_vec(), 12)]);
    let drop_both = |_x: &u32, _y: &u32| -> Option<u32> { None };
    let d = a.outer_combine(&b, drop_both);
    assert_eq!(d.iter(), vec![(b"a".to_vec(), 1), (b"b".to_vec(), 20)]);
}

#[test]
fn left_combine_and_get() {
    let a: RadixTree<u8, u32> = RadixTree::from_entries(&[(b"a".to_vec(), 1), (b"ab".to_vec(), 2)]);
    let b: RadixTree<u8, u32> = RadixTree::from_entries(&[(b"ab".to_vec(), 10), (b"b".to_vec(), 20)]);
    let f = |x: &u32, y: Option<&u32>| -> Option<u32> {
        match y {
            Some(y) => Some(*x + *y),
            None => Some(*x * 100),
        }
    };
    let l = a.left_combine(&b, f);
    assert_eq!(l.iter(), vec![(b"a".to_vec(), 100), (b"ab".to_vec(), 12)]);
    assert_eq!(a.get(b"ab"), Some(&2));
    assert_eq!(a.get(b"a"), Some(&1));
    assert_eq!(a.get(b"b"), None);
    assert_eq!(a.get(b""), None);
}

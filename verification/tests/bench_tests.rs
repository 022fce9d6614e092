use std::time::Instant;
use vec_collections::interval_seq::IntervalSeq;
use vec_collections::sonic_reducer::reduce;

/// The set that toggles at each point of `support`, starting from `below_all`: the symmetric
/// difference of the half lines at or above each point. The half lines are combined in a
/// balanced way, which gives the same set as combining them one after the other.
fn make_profile_xor(below_all: bool, support: &Vec<i32>) -> IntervalSeq<i32> {
    let start: IntervalSeq<i32> = IntervalSeq::from(below_all);
    let mut parts: Vec<IntervalSeq<i32>> = vec![start];
    for x in support {
        parts.push(IntervalSeq::at_or_above(*x));
    }
    reduce(parts, |a, b| a ^ b).unwrap()
}

fn make_on_off_profile(n: i32, offset: i32, stride: i32) -> IntervalSeq<i32> {
    let support = (0..n).map(|x| x * stride + offset).collect::<Vec<i32>>();
    make_profile_xor(false, &support)
}

/// Runs `f` a few times and prints the time per run.
fn bench<F, U>(name: &str, f: F) -> Vec<U>
where
    F: Fn() -> U,
{
    let mut res: Vec<U> = Vec::new();
    let n = 3;
    let t0 = Instant::now();
    for _ in 0..n {
        res.push(f());
    }
    let dt = Instant::now() - t0;
    println!("{}\t{} ns", name, dt.as_nanos() / n);
    res
}

fn full_traversal_bench(n: i32) {
    println!("Full traversal benchmark (n={})", n);
    let a = make_on_off_profile(n, 0, 2);
    let b = make_on_off_profile(n, 1, 2);
    bench("or", || a.clone() | b.clone());
    bench("and", || a.clone() & b.clone());
    bench("xor", || a.clone() & b.clone());
}

fn cutoff_bench(n: i32) {
    println!("Cutoff benchmark (n={})", n);
    let a = make_on_off_profile(n, 0, 2);
    let b = make_on_off_profile(n, 1, 1000);
    bench("or", || a.clone() | b.clone());
    bench("and", || a.clone() & b.clone());
    bench("xor", || a.clone() & b.clone());
}

#[test]
fn full_traversal_bench_large() {
    full_traversal_bench(100000);
}

#[test]
fn cutoff_bench_large() {
    cutoff_bench(100000);
}

#[test]
fn on_off_profile_small() {
    let a = make_on_off_profile(3, 0, 2);
    assert_eq!(a.to_text(), "[0, 2); [4, ∞)");
    let b = make_on_off_profile(3, 1, 2);
    assert_eq!(b.to_text(), "[1, 3); [5, ∞)");
    assert_eq!((a.clone() & b.clone()).to_text(), "[1, 2); [5, ∞)");
    assert_eq!((a | b).to_text(), "[0, 3); [4, ∞)");
}

//! Sets of values described by ascending boundaries at which membership flips.
//!
//! A boundary sequence `s` with the flag `below` describes the set whose membership below every
//! boundary is `below` and flips at each boundary: a value `k` is in the set exactly when
//! `below` differs from the parity of the number of boundaries at or below `k`.
use vstd::prelude::*;
use crate::key::SortKey;
use crate::sorted::sorted;
use crate::set_merge::SetOp;

verus! {

/// `n` is odd.
pub open spec fn odd(n: int) -> bool {
    n % 2 == 1
}

/// Whether `k` is in the set that `below` and the boundaries `s` describe.
pub open spec fn flip_value<T: SortKey>(below: bool, s: Seq<T>, k: int) -> bool
    decreases s.len(),
{
    if s.len() == 0 {
        below
    } else if s.last().key() <= k {
        below != odd(s.len() as int)
    } else {
        flip_value(below, s.drop_last(), k)
    }
}

/// The set that `below` and the boundaries `s` describe.
pub open spec fn flip_set<T: SortKey>(below: bool, s: Seq<T>) -> Set<int> {
    Set::new(|k: int| flip_value(below, s, k))
}

/// Between boundary `i - 1` and boundary `i`, membership is `below` flipped `i` times.
pub proof fn lemma_flip_value_at<T: SortKey>(below: bool, s: Seq<T>, i: int, k: int)
    requires
        sorted(s),
        0 <= i <= s.len(),
        i == 0 || s[i - 1].key() <= k,
        i == s.len() || k < s[i].key(),
    ensures
        flip_value(below, s, k) == (below != odd(i)),
    decreases s.len(),
{
    if s.len() == 0 {
    } else if i == s.len() {
    } else {
        let t = s.drop_last();
        assert(s.last().key() > k) by {
            if i < s.len() - 1 {
                assert(s[i].key() < s[s.len() - 1].key());
            }
        }
        assert(sorted(t)) by {
            assert forall|x: int, y: int| 0 <= x < y < t.len() implies #[trigger] t[x].key()
                < #[trigger] t[y].key() by {
                assert(t[x] == s[x] && t[y] == s[y]);
            }
        }
        if i > 0 {
            assert(t[i - 1] == s[i - 1]);
        }
        if i < t.len() {
            assert(t[i] == s[i]);
        }
        lemma_flip_value_at(below, t, i, k);
    }
}

/// Appending a boundary above `k` does not change membership of `k`.
pub proof fn lemma_flip_value_push<T: SortKey>(below: bool, s: Seq<T>, v: T, k: int)
    ensures
        flip_value(below, s.push(v), k) == (if v.key() <= k {
            below != odd(s.len() + 1 as int)
        } else {
            flip_value(below, s, k)
        }),
{
    assert(s.push(v).drop_last() =~= s);
    assert(s.push(v).last() == v);
}

/// The boundaries are not redundant: membership differs right below and at the first boundary.
pub proof fn lemma_flip_first<T: SortKey>(below: bool, s: Seq<T>)
    requires
        sorted(s),
        s.len() > 0,
    ensures
        flip_value(below, s, s[0].key() - 1) == below,
        flip_value(below, s, s[0].key()) == !below,
{
    lemma_flip_value_at(below, s, 0, s[0].key() - 1);
    if s.len() > 1 {
        assert(s[0].key() < s[1].key());
    }
    lemma_flip_value_at(below, s, 1, s[0].key());
}

/// The value of `op` on two booleans.
pub fn apply_op(op: SetOp, a: bool, b: bool) -> (r: bool)
    ensures
        r == op.keep(a, b),
{
    match op {
        SetOp::Union => a || b,
        SetOp::Intersection => a && b,
        SetOp::Xor => a != b,
        SetOp::Except => a && !b,
    }
}

/// The boundaries of the combination under `op` of the sets that `(a_below, a)` and
/// `(b_below, b)` describe, when the combination's flag is `op.keep(a_below, b_below)`.
///
/// A tape merge: the boundaries of both sides are visited in ascending order, and a boundary is
/// kept when the combination flips there.
#[verifier::rlimit(60)]
pub fn flip_merge<T: SortKey>(op: SetOp, a_below: bool, a: &[T], b_below: bool, b: &[T]) -> (r: Vec<T>)
    requires
        sorted(a@),
        sorted(b@),
    ensures
        sorted(r@),
        forall|k: int|
            #[trigger] flip_value(op.keep(a_below, b_below), r@, k) == op.keep(
                flip_value(a_below, a@, k),
                flip_value(b_below, b@, k),
            ),
{
    let r_below = apply_op(op, a_below, b_below);
    let mut out: Vec<T> = Vec::new();
    let mut i: usize = 0;
    let mut j: usize = 0;
    let mut ac = a_below;
    let mut bc = b_below;
    assert forall|k: int|
        (i < a@.len() ==> k < a@[i as int].key()) && (j < b@.len() ==> k < b@[j as int].key())
            implies #[trigger] flip_value(r_below, out@, k) == op.keep(
        flip_value(a_below, a@, k),
        flip_value(b_below, b@, k),
    ) by {
        lemma_flip_value_at(a_below, a@, 0, k);
        lemma_flip_value_at(b_below, b@, 0, k);
    }
    while i < a.len() || j < b.len()
        invariant
            sorted(a@),
            sorted(b@),
            r_below == op.keep(a_below, b_below),
            i <= a@.len(),
            j <= b@.len(),
            sorted(out@),
            forall|x: int, y: int|
                0 <= x < out@.len() && i <= y < a@.len() ==> #[trigger] out@[x].key()
                    < #[trigger] a@[y].key(),
            forall|x: int, y: int|
                0 <= x < out@.len() && j <= y < b@.len() ==> #[trigger] out@[x].key()
                    < #[trigger] b@[y].key(),
            forall|x: int| 0 <= x < out@.len() ==> (i > 0 && #[trigger] out@[x].key() <= a@[i - 1].key())
                || (j > 0 && out@[x].key() <= b@[j - 1].key()),
            j > 0 && i < a@.len() ==> b@[j - 1].key() < a@[i as int].key(),
            i > 0 && j < b@.len() ==> a@[i - 1].key() < b@[j as int].key(),
            ac == (a_below != odd(i as int)),
            bc == (b_below != odd(j as int)),
            (r_below != odd(out@.len() as int)) == op.keep(ac, bc),
            forall|k: int|
                (i < a@.len() ==> k < a@[i as int].key()) && (j < b@.len() ==> k < b@[j as int].key())
                    ==> #[trigger] flip_value(r_below, out@, k) == op.keep(
                    flip_value(a_below, a@, k),
                    flip_value(b_below, b@, k),
                ),
        decreases a@.len() + b@.len() - i - j,
    {
        let take_a = j >= b.len() || (i < a.len() && a[i].key_lt(&b[j]));
        let take_b = i >= a.len() || (j < b.len() && b[j].key_lt(&a[i]));
        let ghost out0 = out@;
        let ghost i0 = i as int;
        let ghost j0 = j as int;
        if take_a {
            let x = a[i];
            let now = apply_op(op, ac, bc);
            let next = apply_op(op, !ac, bc);
            if now != next {
                out.push(x);
            }
            ac = !ac;
            i = i + 1;
            proof {
                assert forall|k: int|
                    (i < a@.len() ==> k < a@[i as int].key()) && (j < b@.len() ==> k < b@[j as int].key())
                        implies #[trigger] flip_value(r_below, out@, k) == op.keep(
                    flip_value(a_below, a@, k),
                    flip_value(b_below, b@, k),
                ) by {
                    if now != next {
                        lemma_flip_value_push(r_below, out0, x, k);
                    }
                    if k < x.key() {
                    } else {
                        lemma_flip_value_at(a_below, a@, i as int, k);
                        if j > 0 {
                            assert(b@[j - 1].key() < x.key());
                        }
                        lemma_flip_value_at(b_below, b@, j as int, k);
                        if out0.len() > 0 {
                            assert(out0[out0.len() - 1].key() < x.key());
                        }
                        if now == next {
                            lemma_flip_value_at(r_below, out0, out0.len() as int, k);
                        }
                    }
                }
            }
        } else if take_b {
            let x = b[j];
            let now = apply_op(op, ac, bc);
            let next = apply_op(op, ac, !bc);
            if now != next {
                out.push(x);
            }
            bc = !bc;
            j = j + 1;
            proof {
                assert forall|k: int|
                    (i < a@.len() ==> k < a@[i as int].key()) && (j < b@.len() ==> k < b@[j as int].key())
                        implies #[trigger] flip_value(r_below, out@, k) == op.keep(
                    flip_value(a_below, a@, k),
                    flip_value(b_below, b@, k),
                ) by {
                    if now != next {
                        lemma_flip_value_push(r_below, out0, x, k);
                    }
                    if k < x.key() {
                    } else {
                        lemma_flip_value_at(b_below, b@, j as int, k);
                        if i > 0 {
                            assert(a@[i - 1].key() < x.key());
                        }
                        lemma_flip_value_at(a_below, a@, i as int, k);
                        if out0.len() > 0 {
                            assert(out0[out0.len() - 1].key() < x.key());
                        }
                        if now == next {
                            lemma_flip_value_at(r_below, out0, out0.len() as int, k);
                        }
                    }
                }
            }
        } else {
            let x = a[i];
            let now = apply_op(op, ac, bc);
            let next = apply_op(op, !ac, !bc);
            if now != next {
                out.push(x);
            }
            ac = !ac;
            bc = !bc;
            i = i + 1;
            j = j + 1;
            proof {
                assert(a@[i0].key() == b@[j0].key());
                assert forall|k: int|
                    (i < a@.len() ==> k < a@[i as int].key()) && (j < b@.len() ==> k < b@[j as int].key())
                        implies #[trigger] flip_value(r_below, out@, k) == op.keep(
                    flip_value(a_below, a@, k),
                    flip_value(b_below, b@, k),
                ) by {
                    if now != next {
                        lemma_flip_value_push(r_below, out0, x, k);
                    }
                    if k < x.key() {
                    } else {
                        lemma_flip_value_at(a_below, a@, i as int, k);
                        lemma_flip_value_at(b_below, b@, j as int, k);
                        if out0.len() > 0 {
                            assert(out0[out0.len() - 1].key() < x.key());
                        }
                        if now == next {
                            lemma_flip_value_at(r_below, out0, out0.len() as int, k);
                        }
                    }
                }
            }
        }
    }
    out
}

/// A value below every boundary of `a` and of `b`.
pub open spec fn below_both<T: SortKey>(a: Seq<T>, b: Seq<T>) -> int {
    if a.len() == 0 && b.len() == 0 {
        0
    } else if a.len() == 0 {
        b[0].key() - 1
    } else if b.len() == 0 {
        a[0].key() - 1
    } else if a[0].key() < b[0].key() {
        a[0].key() - 1
    } else {
        b[0].key() - 1
    }
}

/// Whether the combination under `op` of the sets that `(a_below, a)` and `(b_below, b)`
/// describe holds any value. Stops at the first boundary where the combination becomes true.
#[verifier::rlimit(60)]
pub fn flip_any<T: SortKey>(op: SetOp, a_below: bool, a: &[T], b_below: bool, b: &[T]) -> (r: bool)
    requires
        sorted(a@),
        sorted(b@),
    ensures
        r == exists|k: int|
            op.keep(#[trigger] flip_value(a_below, a@, k), #[trigger] flip_value(b_below, b@, k)),
{
    if apply_op(op, a_below, b_below) {
        proof {
            let k = below_both(a@, b@);
            lemma_flip_value_at(a_below, a@, 0, k);
            lemma_flip_value_at(b_below, b@, 0, k);
            assert(op.keep(flip_value(a_below, a@, k), flip_value(b_below, b@, k)));
        }
        return true;
    }
    let mut i: usize = 0;
    let mut j: usize = 0;
    let mut ac = a_below;
    let mut bc = b_below;
    assert forall|k: int|
        (i < a@.len() ==> k < a@[i as int].key()) && (j < b@.len() ==> k < b@[j as int].key())
            implies !op.keep(#[trigger] flip_value(a_below, a@, k), #[trigger] flip_value(b_below, b@, k)) by {
        lemma_flip_value_at(a_below, a@, 0, k);
        lemma_flip_value_at(b_below, b@, 0, k);
    }
    while i < a.len() || j < b.len()
        invariant
            sorted(a@),
            sorted(b@),
            i <= a@.len(),
            j <= b@.len(),
            j > 0 && i < a@.len() ==> b@[j - 1].key() < a@[i as int].key(),
            i > 0 && j < b@.len() ==> a@[i - 1].key() < b@[j as int].key(),
            ac == (a_below != odd(i as int)),
            bc == (b_below != odd(j as int)),
            !op.keep(ac, bc),
            forall|k: int|
                (i < a@.len() ==> k < a@[i as int].key()) && (j < b@.len() ==> k < b@[j as int].key())
                    ==> !op.keep(#[trigger] flip_value(a_below, a@, k), #[trigger] flip_value(b_below, b@, k)),
        decreases a@.len() + b@.len() - i - j,
    {
        let take_a = j >= b.len() || (i < a.len() && a[i].key_lt(&b[j]));
        let take_b = i >= a.len() || (j < b.len() && b[j].key_lt(&a[i]));
        let ghost i0 = i as int;
        let ghost j0 = j as int;
        if take_a {
            let x = a[i];
            ac = !ac;
            i = i + 1;
            if apply_op(op, ac, bc) {
                proof {
                    let k = x.key();
                    lemma_flip_value_at(a_below, a@, i as int, k);
                    if j > 0 {
                        assert(b@[j - 1].key() < x.key());
                    }
                    lemma_flip_value_at(b_below, b@, j as int, k);
                    assert(op.keep(flip_value(a_below, a@, k), flip_value(b_below, b@, k)));
                }
                return true;
            }
            proof {
                assert forall|k: int|
                    (i < a@.len() ==> k < a@[i as int].key()) && (j < b@.len() ==> k < b@[j as int].key())
                        implies !op.keep(#[trigger] flip_value(a_below, a@, k), #[trigger] flip_value(b_below, b@, k)) by {
                    if k >= x.key() {
                        lemma_flip_value_at(a_below, a@, i as int, k);
                        if j > 0 {
                            assert(b@[j - 1].key() < x.key());
                        }
                        lemma_flip_value_at(b_below, b@, j as int, k);
                    }
                }
            }
        } else if take_b {
            let x = b[j];
            bc = !bc;
            j = j + 1;
            if apply_op(op, ac, bc) {
                proof {
                    let k = x.key();
                    lemma_flip_value_at(b_below, b@, j as int, k);
                    if i > 0 {
                        assert(a@[i - 1].key() < x.key());
                    }
                    lemma_flip_value_at(a_below, a@, i as int, k);
                    assert(op.keep(flip_value(a_below, a@, k), flip_value(b_below, b@, k)));
                }
                return true;
            }
            proof {
                assert forall|k: int|
                    (i < a@.len() ==> k < a@[i as int].key()) && (j < b@.len() ==> k < b@[j as int].key())
                        implies !op.keep(#[trigger] flip_value(a_below, a@, k), #[trigger] flip_value(b_below, b@, k)) by {
                    if k >= x.key() {
                        lemma_flip_value_at(b_below, b@, j as int, k);
                        if i > 0 {
                            assert(a@[i - 1].key() < x.key());
                        }
                        lemma_flip_value_at(a_below, a@, i as int, k);
                    }
                }
            }
        } else {
            let x = a[i];
            assert(a@[i0].key() == b@[j0].key());
            ac = !ac;
            bc = !bc;
            i = i + 1;
            j = j + 1;
            if apply_op(op, ac, bc) {
                proof {
                    let k = x.key();
                    lemma_flip_value_at(a_below, a@, i as int, k);
                    lemma_flip_value_at(b_below, b@, j as int, k);
                    assert(op.keep(flip_value(a_below, a@, k), flip_value(b_below, b@, k)));
                }
                return true;
            }
            proof {
                assert forall|k: int|
                    (i < a@.len() ==> k < a@[i as int].key()) && (j < b@.len() ==> k < b@[j as int].key())
                        implies !op.keep(#[trigger] flip_value(a_below, a@, k), #[trigger] flip_value(b_below, b@, k)) by {
                    if k >= x.key() {
                        lemma_flip_value_at(a_below, a@, i as int, k);
                        lemma_flip_value_at(b_below, b@, j as int, k);
                    }
                }
            }
        }
    }
    false
}

/// Membership changes between `k - 1` and `k` exactly where `k` is a boundary.
pub proof fn lemma_flip_change<T: SortKey>(below: bool, s: Seq<T>, k: int)
    requires
        sorted(s),
    ensures
        crate::sorted::key_set(s).contains(k) <==> flip_value(below, s, k) != flip_value(below, s, k - 1),
    decreases s.len(),
{
    if s.len() > 0 {
        let t = s.drop_last();
        let l = s.last().key();
        assert(sorted(t)) by {
            assert forall|x: int, y: int| 0 <= x < y < t.len() implies #[trigger] t[x].key() < #[trigger] t[y].key() by {
                assert(t[x] == s[x] && t[y] == s[y]);
            }
        }
        if l < k {
            assert(flip_value(below, s, k) == (below != odd(s.len() as int)));
            assert(flip_value(below, s, k - 1) == (below != odd(s.len() as int)));
            if crate::sorted::key_set(s).contains(k) {
                let i = choose|i: int| 0 <= i < s.len() && #[trigger] s[i].key() == k;
                if i < s.len() - 1 {
                    assert(s[i].key() < s[s.len() - 1].key());
                }
            }
        } else if l == k {
            assert(s[s.len() - 1].key() == k);
            assert(crate::sorted::key_set(s).contains(k));
            assert(flip_value(below, s, k) == (below != odd(s.len() as int)));
            assert(flip_value(below, s, k - 1) == flip_value(below, t, k - 1));
            if t.len() > 0 {
                assert(t.last().key() < l) by {
                    assert(s[t.len() - 1].key() < s[s.len() - 1].key());
                }
                assert(flip_value(below, t, k - 1) == (below != odd(t.len() as int)));
            } else {
                assert(flip_value(below, t, k - 1) == below);
            }
        } else {
            assert(flip_value(below, s, k) == flip_value(below, t, k));
            assert(flip_value(below, s, k - 1) == flip_value(below, t, k - 1));
            lemma_flip_change(below, t, k);
            assert(crate::sorted::key_set(s).contains(k) == crate::sorted::key_set(t).contains(k)) by {
                if crate::sorted::key_set(s).contains(k) {
                    let i = choose|i: int| 0 <= i < s.len() && #[trigger] s[i].key() == k;
                    assert(i < s.len() - 1);
                    assert(t[i].key() == k);
                }
                if crate::sorted::key_set(t).contains(k) {
                    let i = choose|i: int| 0 <= i < t.len() && #[trigger] t[i].key() == k;
                    assert(s[i].key() == k);
                }
            }
        }
    }
}

/// Below every boundary, membership is `below`.
pub proof fn lemma_flip_low<T: SortKey>(below: bool, s: Seq<T>, k: int)
    requires
        sorted(s),
        s.len() == 0 || k < s[0].key(),
    ensures
        flip_value(below, s, k) == below,
{
    lemma_flip_value_at(below, s, 0, k);
}

} // verus!

//! The binary merge of two strictly ascending sequences under a boolean set operation.
//!
//! The merge picks the middle element of the first sequence, finds its place in the second by
//! binary search, and recurses on both halves. This takes few comparisons when one side is much
//! smaller than the other or when the two sides do not interleave.
use vstd::prelude::*;
use crate::key::SortKey;
use crate::sorted::{all_below, has_key, search, sorted};

verus! {

/// The set operation that a merge computes.
#[derive(Clone, Copy, Debug, PartialEq, Eq)]
pub enum SetOp {
    /// elements in either side
    Union,
    /// elements in both sides
    Intersection,
    /// elements in exactly one side
    Xor,
    /// elements in the first side but not in the second
    Except,
}

impl SetOp {
    /// Whether an element that is (or is not) in each side is in the result.
    pub open spec fn keep(self, in_a: bool, in_b: bool) -> bool {
        match self {
            SetOp::Union => in_a || in_b,
            SetOp::Intersection => in_a && in_b,
            SetOp::Xor => in_a != in_b,
            SetOp::Except => in_a && !in_b,
        }
    }

    /// Whether elements that are only in the first side are kept.
    pub fn keeps_a_only(self) -> (r: bool)
        ensures
            r == self.keep(true, false),
    {
        match self {
            SetOp::Union => true,
            SetOp::Intersection => false,
            SetOp::Xor => true,
            SetOp::Except => true,
        }
    }

    /// Whether elements that are only in the second side are kept.
    pub fn keeps_b_only(self) -> (r: bool)
        ensures
            r == self.keep(false, true),
    {
        match self {
            SetOp::Union => true,
            SetOp::Intersection => false,
            SetOp::Xor => true,
            SetOp::Except => false,
        }
    }

    /// Whether elements that are in both sides are kept.
    pub fn keeps_both(self) -> (r: bool)
        ensures
            r == self.keep(true, true),
    {
        match self {
            SetOp::Union => true,
            SetOp::Intersection => true,
            SetOp::Xor => false,
            SetOp::Except => false,
        }
    }
}

/// Appending a value to a sequence adds exactly its key.
pub proof fn lemma_has_key_push<T: SortKey>(s: Seq<T>, v: T, k: int)
    ensures
        has_key(s.push(v), 0, s.len() + 1 as int, k) <==> (has_key(s, 0, s.len() as int, k) || v.key() == k),
{
    if has_key(s.push(v), 0, s.len() + 1 as int, k) {
        let i = choose|i: int| 0 <= i < s.len() + 1 && #[trigger] s.push(v)[i].key() == k;
        if i < s.len() {
            assert(s[i] == s.push(v)[i]);
        }
    }
    if has_key(s, 0, s.len() as int, k) {
        let i = choose|i: int| 0 <= i < s.len() && #[trigger] s[i].key() == k;
        assert(s.push(v)[i] == s[i]);
    }
    if v.key() == k {
        assert(s.push(v)[s.len() as int] == v);
    }
}

/// Splitting a range at `m` splits the keys it holds.
pub proof fn lemma_has_key_split<T: SortKey>(s: Seq<T>, lo: int, m: int, hi: int, k: int)
    requires
        lo <= m <= hi,
    ensures
        has_key(s, lo, hi, k) <==> (has_key(s, lo, m, k) || has_key(s, m, hi, k)),
{
    if has_key(s, lo, hi, k) {
        let i = choose|i: int| lo <= i < hi && #[trigger] s[i].key() == k;
        if i < m {
            assert(has_key(s, lo, m, k));
        } else {
            assert(has_key(s, m, hi, k));
        }
    }
}

/// A key below (or above) every key of a range is not in it.
pub proof fn lemma_has_key_outside<T: SortKey>(s: Seq<T>, lo: int, hi: int, k: int)
    requires
        (forall|j: int| lo <= j < hi ==> k < #[trigger] s[j].key()) || (forall|j: int|
            lo <= j < hi ==> #[trigger] s[j].key() < k),
    ensures
        !has_key(s, lo, hi, k),
{
}

/// Every key held by a sequence is the key of one of its positions.
pub proof fn lemma_keys_of_positions<T: SortKey>(s: Seq<T>)
    ensures
        forall|i: int| 0 <= i < s.len() ==> has_key(s, 0, s.len() as int, #[trigger] s[i].key()),
{
    assert forall|i: int| 0 <= i < s.len() implies has_key(
        s,
        0,
        s.len() as int,
        #[trigger] s[i].key(),
    ) by {
        assert(s[i].key() == s[i].key());
    }
}

/// The precondition shared by the merge functions: the output holds only keys below both ranges.
pub open spec fn out_below<T: SortKey>(out: Seq<T>, s: Seq<T>, lo: int, hi: int) -> bool {
    forall|i: int, j: int|
        0 <= i < out.len() && lo <= j < hi ==> #[trigger] out[i].key() < #[trigger] s[j].key()
}

/// Appends `s[lo..hi]` to `out`.
pub fn copy_range<T: SortKey>(s: &[T], lo: usize, hi: usize, out: &mut Vec<T>)
    requires
        sorted(s@),
        lo <= hi <= s@.len(),
        sorted(old(out)@),
        out_below(old(out)@, s@, lo as int, hi as int),
    ensures
        sorted(final(out)@),
        forall|k: int|
            #![trigger has_key(final(out)@, 0, final(out)@.len() as int, k)]
            #![trigger has_key(s@, lo as int, hi as int, k)]
            has_key(final(out)@, 0, final(out)@.len() as int, k) <==> (has_key(
                old(out)@,
                0,
                old(out)@.len() as int,
                k,
            ) || has_key(s@, lo as int, hi as int, k)),
{
    let ghost out0 = out@;
    let mut i = lo;
    while i < hi
        invariant
            sorted(s@),
            lo <= i <= hi <= s@.len(),
            sorted(out@),
            out_below(out@, s@, i as int, hi as int),
            forall|k: int|
                #![trigger has_key(out@, 0, out@.len() as int, k)]
                #![trigger has_key(s@, lo as int, i as int, k)]
                has_key(out@, 0, out@.len() as int, k) <==> (has_key(out0, 0, out0.len() as int, k)
                    || has_key(s@, lo as int, i as int, k)),
        decreases hi - i,
    {
        let ghost before = out@;
        out.push(s[i]);
        proof {
            assert forall|k: int|
                #![trigger has_key(out@, 0, out@.len() as int, k)]
                #![trigger has_key(s@, lo as int, i + 1, k)]
                has_key(out@, 0, out@.len() as int, k) <==> (has_key(out0, 0, out0.len() as int, k)
                    || has_key(s@, lo as int, i + 1, k)) by {
                lemma_has_key_push(before, s@[i as int], k);
                lemma_has_key_split(s@, lo as int, i as int, i + 1, k);
                if has_key(s@, i as int, i + 1, k) {
                    let j = choose|j: int| i <= j < i + 1 && #[trigger] s@[j].key() == k;
                    assert(j == i);
                }
                if s@[i as int].key() == k {
                    assert(has_key(s@, i as int, i + 1, k));
                }
            }
        }
        i = i + 1;
    }
    assert(i == hi);
}

/// Merges `a[a0..a1]` and `b[b0..b1]` under `op` and appends the result to `out`.
#[verifier::rlimit(50)]
pub fn merge0<T: SortKey>(
    op: SetOp,
    a: &[T],
    a0: usize,
    a1: usize,
    b: &[T],
    b0: usize,
    b1: usize,
    out: &mut Vec<T>,
)
    requires
        sorted(a@),
        sorted(b@),
        a0 <= a1 <= a@.len(),
        b0 <= b1 <= b@.len(),
        sorted(old(out)@),
        out_below(old(out)@, a@, a0 as int, a1 as int),
        out_below(old(out)@, b@, b0 as int, b1 as int),
    ensures
        sorted(final(out)@),
        forall|k: int|
            #![trigger has_key(final(out)@, 0, final(out)@.len() as int, k)]
            #![trigger has_key(a@, a0 as int, a1 as int, k)]
            #![trigger has_key(b@, b0 as int, b1 as int, k)]
            has_key(final(out)@, 0, final(out)@.len() as int, k) <==> (has_key(
                old(out)@,
                0,
                old(out)@.len() as int,
                k,
            ) || op.keep(has_key(a@, a0 as int, a1 as int, k), has_key(b@, b0 as int, b1 as int, k))),
    decreases a1 - a0,
{
    if a0 == a1 {
        if op.keeps_b_only() {
            copy_range(b, b0, b1, out);
        }
        proof {
            assert forall|k: int| !has_key(a@, a0 as int, a1 as int, k) by {
                lemma_has_key_outside(a@, a0 as int, a1 as int, k);
            }
        }
    } else if b0 == b1 {
        if op.keeps_a_only() {
            copy_range(a, a0, a1, out);
        }
        proof {
            assert forall|k: int| !has_key(b@, b0 as int, b1 as int, k) by {
                lemma_has_key_outside(b@, b0 as int, b1 as int, k);
            }
        }
    } else {
        let am = a0 + (a1 - a0) / 2;
        let ghost out0 = out@;
        let found = search(b, b0, b1, &a[am]);
        let (bl, br, both) = match found {
            Ok(bm) => (bm, bm + 1, true),
            Err(bi) => (bi, bi, false),
        };
        let ghost pivot = a@[am as int].key();
        assert(forall|j: int| b0 <= j < bl ==> #[trigger] b@[j].key() < pivot);
        assert(forall|j: int| br <= j < b1 ==> pivot < #[trigger] b@[j].key());
        merge0(op, a, a0, am, b, b0, bl, out);
        let ghost out1 = out@;
        proof {
            lemma_keys_of_positions(out1);
            assert forall|i: int| 0 <= i < out1.len() implies #[trigger] out1[i].key() < pivot by {
                let k = out1[i].key();
                assert(has_key(out1, 0, out1.len() as int, k));
                if has_key(a@, a0 as int, am as int, k) {
                    let j = choose|j: int| a0 <= j < am && #[trigger] a@[j].key() == k;
                }
                if has_key(b@, b0 as int, bl as int, k) {
                    let j = choose|j: int| b0 <= j < bl && #[trigger] b@[j].key() == k;
                }
                if has_key(out0, 0, out0.len() as int, k) {
                    let j = choose|j: int| 0 <= j < out0.len() && #[trigger] out0[j].key() == k;
                    assert(out0[j].key() < a@[am as int].key());
                }
            }
        }
        let keep_mid = if both {
            op.keeps_both()
        } else {
            op.keeps_a_only()
        };
        if keep_mid {
            out.push(a[am]);
        }
        let ghost out2 = out@;
        proof {
            assert forall|k: int|
                has_key(out2, 0, out2.len() as int, k) <==> (has_key(out1, 0, out1.len() as int, k)
                    || (keep_mid && k == pivot)) by {
                if keep_mid {
                    lemma_has_key_push(out1, a@[am as int], k);
                }
            }
            lemma_keys_of_positions(out2);
            assert forall|i: int, j: int|
                0 <= i < out2.len() && am + 1 <= j < a1 implies #[trigger] out2[i].key()
                < #[trigger] a@[j].key() by {
                let k = out2[i].key();
                assert(has_key(out2, 0, out2.len() as int, k));
                if i < out1.len() {
                    assert(out2[i] == out1[i]);
                }
            }
            assert forall|i: int, j: int|
                0 <= i < out2.len() && br <= j < b1 implies #[trigger] out2[i].key()
                < #[trigger] b@[j].key() by {
                if i < out1.len() {
                    assert(out2[i] == out1[i]);
                }
            }
            assert(sorted(out2)) by {
                assert forall|i: int, j: int| 0 <= i < j < out2.len() implies #[trigger] out2[i].key()
                    < #[trigger] out2[j].key() by {
                    if j < out1.len() {
                        assert(out2[i] == out1[i]);
                        assert(out2[j] == out1[j]);
                    } else {
                        assert(out2[i] == out1[i]);
                    }
                }
            }
        }
        merge0(op, a, am + 1, a1, b, br, b1, out);
        proof {
            assert forall|k: int|
                #![trigger has_key(out@, 0, out@.len() as int, k)]
                #![trigger has_key(a@, a0 as int, a1 as int, k)]
                #![trigger has_key(b@, b0 as int, b1 as int, k)]
                has_key(out@, 0, out@.len() as int, k) <==> (has_key(
                    old(out)@,
                    0,
                    old(out)@.len() as int,
                    k,
                ) || op.keep(has_key(a@, a0 as int, a1 as int, k), has_key(b@, b0 as int, b1 as int, k))) by {
                lemma_has_key_split(a@, a0 as int, am as int, a1 as int, k);
                lemma_has_key_split(a@, am as int, am + 1, a1 as int, k);
                lemma_has_key_split(b@, b0 as int, bl as int, b1 as int, k);
                lemma_has_key_split(b@, bl as int, br as int, b1 as int, k);
                if k < pivot {
                    lemma_has_key_outside(a@, am as int, a1 as int, k);
                    lemma_has_key_outside(b@, bl as int, b1 as int, k);
                } else if k > pivot {
                    lemma_has_key_outside(a@, a0 as int, am + 1, k);
                    lemma_has_key_outside(b@, b0 as int, br as int, k);
                } else {
                    lemma_has_key_outside(a@, a0 as int, am as int, k);
                    lemma_has_key_outside(a@, am + 1, a1 as int, k);
                    lemma_has_key_outside(b@, b0 as int, bl as int, k);
                    lemma_has_key_outside(b@, br as int, b1 as int, k);
                    assert(has_key(a@, am as int, am + 1, k));
                    if both {
                        assert(has_key(b@, bl as int, br as int, k));
                    } else {
                        assert(bl == br);
                    }
                }
            }
        }
    }
}

} // verus!

verus! {

/// How the keys of two ranges split around a pivot that has been located in both.
pub proof fn lemma_pivot_split<T: SortKey>(
    a: Seq<T>,
    a0: int,
    am: int,
    a1: int,
    b: Seq<T>,
    b0: int,
    bl: int,
    br: int,
    b1: int,
    k: int,
)
    requires
        sorted(a),
        0 <= a0 <= am < a1 <= a.len(),
        0 <= b0 <= bl <= br <= b1 <= b.len(),
        br == bl || br == bl + 1,
        br == bl + 1 ==> b[bl].key() == a[am].key(),
        forall|j: int| b0 <= j < bl ==> #[trigger] b[j].key() < a[am].key(),
        forall|j: int| br <= j < b1 ==> a[am].key() < #[trigger] b[j].key(),
    ensures
        k < a[am].key() ==> has_key(a, a0, a1, k) == has_key(a, a0, am, k) && has_key(b, b0, b1, k)
            == has_key(b, b0, bl, k),
        k > a[am].key() ==> has_key(a, a0, a1, k) == has_key(a, am + 1, a1, k) && has_key(
            b,
            b0,
            b1,
            k,
        ) == has_key(b, br, b1, k),
        k == a[am].key() ==> has_key(a, a0, a1, k) && has_key(b, b0, b1, k) == (br == bl + 1)
            && !has_key(a, a0, am, k) && !has_key(a, am + 1, a1, k) && !has_key(b, b0, bl, k)
            && !has_key(b, br, b1, k),
{
    lemma_has_key_split(a, a0, am, a1, k);
    lemma_has_key_split(a, am, am + 1, a1, k);
    lemma_has_key_split(b, b0, bl, b1, k);
    lemma_has_key_split(b, bl, br, b1, k);
    let pivot = a[am].key();
    if k < pivot {
        lemma_has_key_outside(a, am, a1, k);
        lemma_has_key_outside(b, bl, b1, k);
    } else if k > pivot {
        lemma_has_key_outside(a, a0, am + 1, k);
        lemma_has_key_outside(b, b0, br, k);
    } else {
        lemma_has_key_outside(a, a0, am, k);
        lemma_has_key_outside(a, am + 1, a1, k);
        lemma_has_key_outside(b, b0, bl, k);
        lemma_has_key_outside(b, br, b1, k);
        assert(has_key(a, am, am + 1, k));
        if br == bl + 1 {
            assert(has_key(b, bl, br, k));
        }
    }
}

/// Whether the merge of `a[a0..a1]` and `b[b0..b1]` under `op` would produce any element.
/// Stops at the first element that it finds.
#[verifier::rlimit(50)]
pub fn merge0_any<T: SortKey>(
    op: SetOp,
    a: &[T],
    a0: usize,
    a1: usize,
    b: &[T],
    b0: usize,
    b1: usize,
) -> (r: bool)
    requires
        sorted(a@),
        sorted(b@),
        a0 <= a1 <= a@.len(),
        b0 <= b1 <= b@.len(),
    ensures
        r == exists|k: int|
            op.keep(
                #[trigger] has_key(a@, a0 as int, a1 as int, k),
                #[trigger] has_key(b@, b0 as int, b1 as int, k),
            ),
    decreases a1 - a0,
{
    if a0 == a1 {
        proof {
            assert forall|k: int| !has_key(a@, a0 as int, a1 as int, k) by {
                lemma_has_key_outside(a@, a0 as int, a1 as int, k);
            }
        }
        if op.keeps_b_only() && b0 < b1 {
            let ghost w = b@[b0 as int].key();
            assert(has_key(b@, b0 as int, b1 as int, w));
            assert(op.keep(has_key(a@, a0 as int, a1 as int, w), has_key(b@, b0 as int, b1 as int, w)));
            true
        } else {
            proof {
                if b0 == b1 {
                    assert forall|k: int| !has_key(b@, b0 as int, b1 as int, k) by {
                        lemma_has_key_outside(b@, b0 as int, b1 as int, k);
                    }
                }
            }
            false
        }
    } else if b0 == b1 {
        proof {
            assert forall|k: int| !has_key(b@, b0 as int, b1 as int, k) by {
                lemma_has_key_outside(b@, b0 as int, b1 as int, k);
            }
        }
        if op.keeps_a_only() {
            let ghost w = a@[a0 as int].key();
            assert(has_key(a@, a0 as int, a1 as int, w));
            assert(op.keep(has_key(a@, a0 as int, a1 as int, w), has_key(b@, b0 as int, b1 as int, w)));
            true
        } else {
            false
        }
    } else {
        let am = a0 + (a1 - a0) / 2;
        let found = search(b, b0, b1, &a[am]);
        let (bl, br, both) = match found {
            Ok(bm) => (bm, bm + 1, true),
            Err(bi) => (bi, bi, false),
        };
        let ghost pivot = a@[am as int].key();
        assert(forall|j: int| b0 <= j < bl ==> #[trigger] b@[j].key() < pivot);
        assert(forall|j: int| br <= j < b1 ==> pivot < #[trigger] b@[j].key());
        if merge0_any(op, a, a0, am, b, b0, bl) {
            proof {
                let k = choose|k: int|
                    op.keep(
                        #[trigger] has_key(a@, a0 as int, am as int, k),
                        #[trigger] has_key(b@, b0 as int, bl as int, k),
                    );
                lemma_pivot_split(
                    a@,
                    a0 as int,
                    am as int,
                    a1 as int,
                    b@,
                    b0 as int,
                    bl as int,
                    br as int,
                    b1 as int,
                    k,
                );
                if has_key(a@, a0 as int, am as int, k) {
                    let j = choose|j: int| a0 <= j < am && #[trigger] a@[j].key() == k;
                }
                if has_key(b@, b0 as int, bl as int, k) {
                    let j = choose|j: int| b0 <= j < bl && #[trigger] b@[j].key() == k;
                }
                assert(op.keep(has_key(a@, a0 as int, a1 as int, k), has_key(b@, b0 as int, b1 as int, k)));
            }
            return true;
        }
        let keep_mid = if both {
            op.keeps_both()
        } else {
            op.keeps_a_only()
        };
        if keep_mid {
            proof {
                lemma_pivot_split(
                    a@,
                    a0 as int,
                    am as int,
                    a1 as int,
                    b@,
                    b0 as int,
                    bl as int,
                    br as int,
                    b1 as int,
                    pivot,
                );
                assert(op.keep(has_key(a@, a0 as int, a1 as int, pivot), has_key(b@, b0 as int, b1 as int, pivot)));
            }
            return true;
        }
        let r = merge0_any(op, a, am + 1, a1, b, br, b1);
        proof {
            if r {
                let k = choose|k: int|
                    op.keep(
                        #[trigger] has_key(a@, am + 1, a1 as int, k),
                        #[trigger] has_key(b@, br as int, b1 as int, k),
                    );
                lemma_pivot_split(
                    a@,
                    a0 as int,
                    am as int,
                    a1 as int,
                    b@,
                    b0 as int,
                    bl as int,
                    br as int,
                    b1 as int,
                    k,
                );
                if has_key(a@, am + 1, a1 as int, k) {
                    let j = choose|j: int| am + 1 <= j < a1 && #[trigger] a@[j].key() == k;
                }
                if has_key(b@, br as int, b1 as int, k) {
                    let j = choose|j: int| br <= j < b1 && #[trigger] b@[j].key() == k;
                }
                assert(op.keep(has_key(a@, a0 as int, a1 as int, k), has_key(b@, b0 as int, b1 as int, k)));
            } else {
                assert forall|k: int|
                    !op.keep(
                        #[trigger] has_key(a@, a0 as int, a1 as int, k),
                        #[trigger] has_key(b@, b0 as int, b1 as int, k),
                    ) by {
                    lemma_pivot_split(
                        a@,
                        a0 as int,
                        am as int,
                        a1 as int,
                        b@,
                        b0 as int,
                        bl as int,
                        br as int,
                        b1 as int,
                        k,
                    );
                }
            }
        }
        r
    }
}

} // verus!

verus! {

/// The values of `v[lo..hi]` in ascending order, each key once. Of values with equal keys the
/// first one is kept.
pub fn sort_unique<T: SortKey>(v: &[T], lo: usize, hi: usize) -> (r: Vec<T>)
    requires
        lo <= hi <= v@.len(),
    ensures
        sorted(r@),
        forall|k: int|
            #![trigger has_key(r@, 0, r@.len() as int, k)]
            #![trigger has_key(v@, lo as int, hi as int, k)]
            has_key(r@, 0, r@.len() as int, k) <==> has_key(v@, lo as int, hi as int, k),
    decreases hi - lo,
{
    if hi - lo == 0 {
        let r: Vec<T> = Vec::new();
        proof {
            assert forall|k: int| !has_key(v@, lo as int, hi as int, k) by {
                lemma_has_key_outside(v@, lo as int, hi as int, k);
            }
        }
        r
    } else if hi - lo == 1 {
        let mut r: Vec<T> = Vec::new();
        r.push(v[lo]);
        proof {
            assert forall|k: int|
                #![trigger has_key(r@, 0, r@.len() as int, k)]
                #![trigger has_key(v@, lo as int, hi as int, k)]
                has_key(r@, 0, r@.len() as int, k) <==> has_key(v@, lo as int, hi as int, k) by {
                if has_key(v@, lo as int, hi as int, k) {
                    let j = choose|j: int| lo <= j < hi && #[trigger] v@[j].key() == k;
                    assert(r@[0] == v@[lo as int]);
                }
                if has_key(r@, 0, r@.len() as int, k) {
                    let j = choose|j: int| 0 <= j < r@.len() && #[trigger] r@[j].key() == k;
                    assert(v@[lo as int] == r@[0]);
                }
            }
        }
        r
    } else {
        let mid = lo + (hi - lo) / 2;
        let left = sort_unique(v, lo, mid);
        let right = sort_unique(v, mid, hi);
        let mut out: Vec<T> = Vec::new();
        merge0(SetOp::Union, left.as_slice(), 0, left.len(), right.as_slice(), 0, right.len(), &mut out);
        proof {
            assert forall|k: int|
                #![trigger has_key(out@, 0, out@.len() as int, k)]
                #![trigger has_key(v@, lo as int, hi as int, k)]
                has_key(out@, 0, out@.len() as int, k) <==> has_key(v@, lo as int, hi as int, k) by {
                lemma_has_key_split(v@, lo as int, mid as int, hi as int, k);
            }
        }
        out
    }
}

/// Below this many elements on both sides, [merge] walks both sides element by element: the
/// binary merge takes about as many comparisons there and keeps more state.
pub const MCM_THRESHOLD: usize = 8;

/// Merges `a[a0..a1]` and `b[b0..b1]` under `op` by walking both in step, and appends the
/// result to `out`.
pub fn tape_merge<T: SortKey>(
    op: SetOp,
    a: &[T],
    a0: usize,
    a1: usize,
    b: &[T],
    b0: usize,
    b1: usize,
    out: &mut Vec<T>,
)
    requires
        sorted(a@),
        sorted(b@),
        a0 <= a1 <= a@.len(),
        b0 <= b1 <= b@.len(),
        sorted(old(out)@),
        out_below(old(out)@, a@, a0 as int, a1 as int),
        out_below(old(out)@, b@, b0 as int, b1 as int),
    ensures
        sorted(final(out)@),
        forall|k: int|
            #![trigger has_key(final(out)@, 0, final(out)@.len() as int, k)]
            #![trigger has_key(a@, a0 as int, a1 as int, k)]
            #![trigger has_key(b@, b0 as int, b1 as int, k)]
            has_key(final(out)@, 0, final(out)@.len() as int, k) <==> (has_key(
                old(out)@,
                0,
                old(out)@.len() as int,
                k,
            ) || op.keep(has_key(a@, a0 as int, a1 as int, k), has_key(b@, b0 as int, b1 as int, k))),
{
    let ghost out0 = out@;
    let mut i = a0;
    let mut j = b0;
    while i < a1 && j < b1
        invariant
            sorted(a@),
            sorted(b@),
            a0 <= i <= a1 <= a@.len(),
            b0 <= j <= b1 <= b@.len(),
            sorted(out@),
            out_below(out@, a@, i as int, a1 as int),
            out_below(out@, b@, j as int, b1 as int),
            forall|x: int, y: int| a0 <= x < i && j <= y < b1 ==> #[trigger] a@[x].key() < #[trigger] b@[y].key(),
            forall|x: int, y: int| b0 <= y < j && i <= x < a1 ==> #[trigger] b@[y].key() < #[trigger] a@[x].key(),
            forall|k: int|
                #![trigger has_key(out@, 0, out@.len() as int, k)]
                has_key(out@, 0, out@.len() as int, k) <==> (has_key(out0, 0, out0.len() as int, k)
                    || op.keep(has_key(a@, a0 as int, i as int, k), has_key(b@, b0 as int, j as int, k))),
        decreases a1 - i + b1 - j,
    {
        let ghost before = out@;
        let ghost i0 = i;
        let ghost j0 = j;
        let ka = a[i].key_lt(&b[j]);
        let kb = b[j].key_lt(&a[i]);
        let mut pushed = false;
        if ka {
            if op.keeps_a_only() {
                out.push(a[i]);
                pushed = true;
            }
            i = i + 1;
        } else if kb {
            if op.keeps_b_only() {
                out.push(b[j]);
                pushed = true;
            }
            j = j + 1;
        } else {
            if op.keeps_both() {
                out.push(a[i]);
                pushed = true;
            }
            i = i + 1;
            j = j + 1;
        }
        proof {
            let x = if ka || !kb { a@[i0 as int] } else { b@[j0 as int] };
            assert forall|k: int| #![trigger has_key(out@, 0, out@.len() as int, k)]
                has_key(out@, 0, out@.len() as int, k) <==> (has_key(out0, 0, out0.len() as int, k)
                    || op.keep(has_key(a@, a0 as int, i as int, k), has_key(b@, b0 as int, j as int, k))) by {
                if pushed {
                    lemma_has_key_push(before, x, k);
                }
                lemma_has_key_split(a@, a0 as int, i0 as int, i as int, k);
                lemma_has_key_split(b@, b0 as int, j0 as int, j as int, k);
                if has_key(a@, i0 as int, i as int, k) {
                    assert(a@[i0 as int].key() == k);
                }
                if has_key(b@, j0 as int, j as int, k) {
                    assert(b@[j0 as int].key() == k);
                }
                if ka {
                    if k == a@[i0 as int].key() {
                        assert(has_key(a@, i0 as int, i as int, k));
                        assert(!has_key(b@, b0 as int, j as int, k)) by {
                            if has_key(b@, b0 as int, j as int, k) {
                                let y = choose|y: int| b0 <= y < j && #[trigger] b@[y].key() == k;
                                assert(b@[y].key() < a@[i0 as int].key());
                            }
                        }
                        assert(!has_key(a@, a0 as int, i0 as int, k)) by {
                            if has_key(a@, a0 as int, i0 as int, k) {
                                let y = choose|y: int| a0 <= y < i0 && #[trigger] a@[y].key() == k;
                                assert(a@[y].key() < a@[i0 as int].key());
                            }
                        }
                    }
                } else if kb {
                    if k == b@[j0 as int].key() {
                        assert(has_key(b@, j0 as int, j as int, k));
                        assert(!has_key(a@, a0 as int, i as int, k)) by {
                            if has_key(a@, a0 as int, i as int, k) {
                                let y = choose|y: int| a0 <= y < i && #[trigger] a@[y].key() == k;
                                assert(a@[y].key() < b@[j0 as int].key());
                            }
                        }
                        assert(!has_key(b@, b0 as int, j0 as int, k)) by {
                            if has_key(b@, b0 as int, j0 as int, k) {
                                let y = choose|y: int| b0 <= y < j0 && #[trigger] b@[y].key() == k;
                                assert(b@[y].key() < b@[j0 as int].key());
                            }
                        }
                    }
                } else {
                    if k == a@[i0 as int].key() {
                        assert(b@[j0 as int].key() == k);
                        assert(has_key(a@, i0 as int, i as int, k));
                        assert(has_key(b@, j0 as int, j as int, k));
                        assert(!has_key(a@, a0 as int, i0 as int, k)) by {
                            if has_key(a@, a0 as int, i0 as int, k) {
                                let y = choose|y: int| a0 <= y < i0 && #[trigger] a@[y].key() == k;
                                assert(a@[y].key() < a@[i0 as int].key());
                            }
                        }
                        assert(!has_key(b@, b0 as int, j0 as int, k)) by {
                            if has_key(b@, b0 as int, j0 as int, k) {
                                let y = choose|y: int| b0 <= y < j0 && #[trigger] b@[y].key() == k;
                                assert(b@[y].key() < b@[j0 as int].key());
                            }
                        }
                    }
                }
            }
            assert forall|x1: int, y1: int| a0 <= x1 < i && j <= y1 < b1 implies #[trigger] a@[x1].key() < #[trigger] b@[y1].key() by {
                if x1 < i0 {
                } else {
                    if j0 < y1 {
                        assert(b@[j0 as int].key() < b@[y1].key());
                    }
                }
            }
            assert forall|x1: int, y1: int| b0 <= y1 < j && i <= x1 < a1 implies #[trigger] b@[y1].key() < #[trigger] a@[x1].key() by {
                if y1 < j0 {
                } else {
                    if i0 < x1 {
                        assert(a@[i0 as int].key() < a@[x1].key());
                    }
                }
            }
            if pushed {
                assert(sorted(out@)) by {
                    assert forall|p: int, q: int| 0 <= p < q < out@.len() implies #[trigger] out@[p].key() < #[trigger] out@[q].key() by {
                        if q == before.len() {
                            assert(out@[p] == before[p]);
                            if ka || !kb {
                                assert(before[p].key() < a@[i0 as int].key());
                            } else {
                                assert(before[p].key() < b@[j0 as int].key());
                            }
                        } else {
                            assert(out@[p] == before[p] && out@[q] == before[q]);
                        }
                    }
                }
            }
            assert(out_below(out@, a@, i as int, a1 as int)) by {
                assert forall|p: int, q: int| 0 <= p < out@.len() && i <= q < a1 implies #[trigger] out@[p].key() < #[trigger] a@[q].key() by {
                    if pushed && p == before.len() {
                        if ka || !kb {
                            assert(a@[i0 as int].key() < a@[q].key());
                        } else {
                            assert(b@[j0 as int].key() < a@[q].key());
                        }
                    } else {
                        assert(out@[p] == before[p]);
                        if q == i0 {
                        } else {
                            assert(a@[i0 as int].key() < a@[q].key());
                        }
                    }
                }
            }
            assert(out_below(out@, b@, j as int, b1 as int)) by {
                assert forall|p: int, q: int| 0 <= p < out@.len() && j <= q < b1 implies #[trigger] out@[p].key() < #[trigger] b@[q].key() by {
                    if pushed && p == before.len() {
                        if ka || !kb {
                            if j0 < q {
                                assert(b@[j0 as int].key() < b@[q].key());
                            }
                        } else {
                            assert(b@[j0 as int].key() < b@[q].key());
                        }
                    } else {
                        assert(out@[p] == before[p]);
                        if q == j0 {
                        } else {
                            assert(b@[j0 as int].key() < b@[q].key());
                        }
                    }
                }
            }
        }
    }
    let ghost mid = out@;
    if i < a1 && op.keeps_a_only() {
        copy_range(a, i, a1, out);
    } else if j < b1 && op.keeps_b_only() {
        copy_range(b, j, b1, out);
    }
    proof {
        assert forall|k: int|
            #![trigger has_key(out@, 0, out@.len() as int, k)]
            #![trigger has_key(a@, a0 as int, a1 as int, k)]
            #![trigger has_key(b@, b0 as int, b1 as int, k)]
            has_key(out@, 0, out@.len() as int, k) <==> (has_key(out0, 0, out0.len() as int, k)
                || op.keep(has_key(a@, a0 as int, a1 as int, k), has_key(b@, b0 as int, b1 as int, k))) by {
            lemma_has_key_split(a@, a0 as int, i as int, a1 as int, k);
            lemma_has_key_split(b@, b0 as int, j as int, b1 as int, k);
            assert(has_key(mid, 0, mid.len() as int, k) <==> (has_key(out0, 0, out0.len() as int, k)
                || op.keep(has_key(a@, a0 as int, i as int, k), has_key(b@, b0 as int, j as int, k))));
        }
    }
}

/// Merges `a[a0..a1]` and `b[b0..b1]` under `op` and appends the result to `out`: by binary
/// search where a side is long, element by element where both are short.
pub fn merge<T: SortKey>(
    op: SetOp,
    a: &[T],
    a0: usize,
    a1: usize,
    b: &[T],
    b0: usize,
    b1: usize,
    out: &mut Vec<T>,
)
    requires
        sorted(a@),
        sorted(b@),
        a0 <= a1 <= a@.len(),
        b0 <= b1 <= b@.len(),
        sorted(old(out)@),
        out_below(old(out)@, a@, a0 as int, a1 as int),
        out_below(old(out)@, b@, b0 as int, b1 as int),
    ensures
        sorted(final(out)@),
        forall|k: int|
            #![trigger has_key(final(out)@, 0, final(out)@.len() as int, k)]
            #![trigger has_key(a@, a0 as int, a1 as int, k)]
            #![trigger has_key(b@, b0 as int, b1 as int, k)]
            has_key(final(out)@, 0, final(out)@.len() as int, k) <==> (has_key(
                old(out)@,
                0,
                old(out)@.len() as int,
                k,
            ) || op.keep(has_key(a@, a0 as int, a1 as int, k), has_key(b@, b0 as int, b1 as int, k))),
{
    if a1 - a0 > MCM_THRESHOLD || b1 - b0 > MCM_THRESHOLD {
        merge0(op, a, a0, a1, b, b0, b1, out)
    } else {
        tape_merge(op, a, a0, a1, b, b0, b1, out)
    }
}

} // verus!

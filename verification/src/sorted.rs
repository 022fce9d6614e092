//! Strictly ascending sequences and searching in them.
use vstd::prelude::*;
use crate::key::SortKey;

verus! {

/// The keys of `s` ascend strictly: `s` holds no value twice and is in order.
pub open spec fn sorted<T: SortKey>(s: Seq<T>) -> bool {
    forall|i: int, j: int| 0 <= i < j < s.len() ==> #[trigger] s[i].key() < #[trigger] s[j].key()
}

/// Some position in `lo..hi` of `s` holds a value with key `k`.
pub open spec fn has_key<T: SortKey>(s: Seq<T>, lo: int, hi: int, k: int) -> bool {
    exists|i: int| lo <= i < hi && #[trigger] s[i].key() == k
}

/// The set of keys that `s` holds.
pub open spec fn key_set<T: SortKey>(s: Seq<T>) -> Set<int> {
    Set::new(|k: int| has_key(s, 0, s.len() as int, k))
}

/// Every key of `s` lies strictly below every key of `t`.
pub open spec fn all_below<T: SortKey>(s: Seq<T>, t: Seq<T>) -> bool {
    forall|i: int, j: int|
        0 <= i < s.len() && 0 <= j < t.len() ==> #[trigger] s[i].key() < #[trigger] t[j].key()
}

/// Searches `s[lo..hi]` for the key of `x`. `Ok(i)` is the position that holds it; `Err(i)`
/// is the position where it would be inserted to keep `s` in order.
pub fn search<T: SortKey>(s: &[T], lo: usize, hi: usize, x: &T) -> (r: Result<usize, usize>)
    requires
        sorted(s@),
        lo <= hi <= s@.len(),
    ensures
        match r {
            Ok(i) => lo <= i < hi && s@[i as int].key() == x.key(),
            Err(i) => {
                &&& lo <= i <= hi
                &&& forall|j: int| lo <= j < i ==> #[trigger] s@[j].key() < x.key()
                &&& forall|j: int| i <= j < hi ==> x.key() < #[trigger] s@[j].key()
            },
        },
{
    let mut l = lo;
    let mut h = hi;
    while l < h
        invariant
            sorted(s@),
            lo <= l <= h <= hi <= s@.len(),
            forall|j: int| lo <= j < l ==> #[trigger] s@[j].key() < x.key(),
            forall|j: int| h <= j < hi ==> x.key() < #[trigger] s@[j].key(),
        decreases h - l,
    {
        let m = l + (h - l) / 2;
        if s[m].key_lt(x) {
            l = m + 1;
        } else if x.key_lt(&s[m]) {
            h = m;
        } else {
            return Ok(m);
        }
    }
    Err(l)
}

/// The keys of a sequence form a finite set.
pub proof fn lemma_key_set_finite<T: SortKey>(s: Seq<T>)
    ensures
        key_set(s).finite(),
    decreases s.len(),
{
    if s.len() == 0 {
        assert(key_set(s) =~= Set::<int>::empty());
    } else {
        let t = s.drop_last();
        lemma_key_set_finite(t);
        assert forall|k: int| key_set(s).contains(k) <==> key_set(t).insert(s.last().key()).contains(k) by {
            if has_key(s, 0, s.len() as int, k) {
                let i = choose|i: int| 0 <= i < s.len() && #[trigger] s[i].key() == k;
                if i < t.len() {
                    assert(t[i] == s[i]);
                }
            }
            if has_key(t, 0, t.len() as int, k) {
                let i = choose|i: int| 0 <= i < t.len() && #[trigger] t[i].key() == k;
                assert(s[i] == t[i]);
            }
            if k == s.last().key() {
                assert(s[s.len() - 1].key() == k);
            }
        }
        assert(key_set(s) =~= key_set(t).insert(s.last().key()));
    }
}

/// An `Err` of [search] means that the key is not in the searched range.
pub proof fn lemma_search_err_absent<T: SortKey>(s: Seq<T>, lo: int, i: int, hi: int, k: int)
    requires
        lo <= i <= hi,
        forall|j: int| lo <= j < i ==> #[trigger] s[j].key() < k,
        forall|j: int| i <= j < hi ==> k < #[trigger] s[j].key(),
    ensures
        !has_key(s, lo, hi, k),
{
}

/// Two strictly ascending sequences with the same keys are the same sequence.
pub proof fn lemma_sorted_unique<T: SortKey>(s: Seq<T>, t: Seq<T>)
    requires
        sorted(s),
        sorted(t),
        key_set(s) == key_set(t),
    ensures
        s == t,
    decreases s.len(),
{
    if s.len() == 0 || t.len() == 0 {
        if t.len() > 0 {
            assert(key_set(t).contains(t[0].key()));
        }
        if s.len() > 0 {
            assert(key_set(s).contains(s[0].key()));
        }
        assert(s =~= t);
    } else {
        assert(key_set(t).contains(s[0].key()));
        assert(key_set(s).contains(t[0].key()));
        let j = choose|j: int| 0 <= j < t.len() && #[trigger] t[j].key() == s[0].key();
        let i = choose|i: int| 0 <= i < s.len() && #[trigger] s[i].key() == t[0].key();
        if j > 0 {
            assert(t[0].key() < t[j].key());
        }
        if i > 0 {
            assert(s[0].key() < s[i].key());
        }
        T::lemma_key_injective(s[0], t[0]);
        let s1 = s.drop_first();
        let t1 = t.drop_first();
        assert(sorted(s1)) by {
            assert forall|x: int, y: int| 0 <= x < y < s1.len() implies #[trigger] s1[x].key() < #[trigger] s1[y].key() by {
                assert(s1[x] == s[x + 1] && s1[y] == s[y + 1]);
            }
        }
        assert(sorted(t1)) by {
            assert forall|x: int, y: int| 0 <= x < y < t1.len() implies #[trigger] t1[x].key() < #[trigger] t1[y].key() by {
                assert(t1[x] == t[x + 1] && t1[y] == t[y + 1]);
            }
        }
        assert forall|k: int| #[trigger] key_set(s1).contains(k) == key_set(t1).contains(k) by {
            if key_set(s1).contains(k) {
                let x = choose|x: int| 0 <= x < s1.len() && #[trigger] s1[x].key() == k;
                assert(s[x + 1].key() == k);
                assert(s[0].key() < s[x + 1].key());
                assert(key_set(t).contains(k));
                let y = choose|y: int| 0 <= y < t.len() && #[trigger] t[y].key() == k;
                assert(y != 0);
                assert(t1[y - 1].key() == k);
            }
            if key_set(t1).contains(k) {
                let y = choose|y: int| 0 <= y < t1.len() && #[trigger] t1[y].key() == k;
                assert(t[y + 1].key() == k);
                assert(t[0].key() < t[y + 1].key());
                assert(key_set(s).contains(k));
                let x = choose|x: int| 0 <= x < s.len() && #[trigger] s[x].key() == k;
                assert(x != 0);
                assert(s1[x - 1].key() == k);
            }
        }
        assert(key_set(s1) =~= key_set(t1));
        lemma_sorted_unique(s1, t1);
        assert(s =~= t) by {
            assert forall|x: int| 0 <= x < s.len() implies s[x] == t[x] by {
                if x > 0 {
                    assert(s[x] == s1[x - 1] && t[x] == t1[x - 1]);
                }
            }
        }
    }
}

} // verus!

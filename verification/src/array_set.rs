//! A set backed by a vector of strictly ascending elements.
use vstd::prelude::*;
use std::ops::{BitAnd, BitAndAssign, BitOr, BitOrAssign, BitXor, BitXorAssign, Sub, SubAssign};
use crate::key::SortKey;
use crate::sorted::{has_key, key_set, sorted};
use crate::set_merge::{merge, merge0, merge0_any, sort_unique, SetOp};

verus! {

/// A set of elements, stored as a vector in ascending order without duplicates.
///
/// Its view is the set of the keys of its elements.
#[derive(Debug)]
pub struct ArraySet<T: SortKey>(Vec<T>);

/// The result of combining two key sets under a set operation.
pub open spec fn combined(op: SetOp, a: Set<int>, b: Set<int>) -> Set<int> {
    Set::new(|k: int| op.keep(a.contains(k), b.contains(k)))
}

impl<T: SortKey> View for ArraySet<T> {
    type V = Set<int>;

    closed spec fn view(&self) -> Set<int> {
        key_set(self.0@)
    }
}

impl<T: SortKey> ArraySet<T> {
    /// The elements ascend strictly.
    #[verifier::type_invariant]
    pub closed spec fn ascending(self) -> bool {
        sorted(self.0@)
    }

    /// An array set is determined by its set: two with the same set hold the same elements
    /// in the same order.
    pub proof fn lemma_canonical(a: Self, b: Self)
        requires
            a.ascending(),
            b.ascending(),
            a@ == b@,
        ensures
            a.elements() == b.elements(),
    {
        crate::sorted::lemma_sorted_unique(a.0@, b.0@);
    }

    /// The elements in ascending order.
    pub closed spec fn elements(&self) -> Seq<T> {
        self.0@
    }

    /// The set is finite.
    pub proof fn lemma_finite(&self)
        ensures
            self@.finite(),
    {
        crate::sorted::lemma_key_set_finite(self.0@);
    }

    /// The empty set.
    pub fn empty() -> (r: Self)
        ensures
            r@ == Set::<int>::empty(),
    {
        let r = ArraySet(Vec::new());
        assert(r@ =~= Set::<int>::empty());
        r
    }

    /// The set holding just `value`.
    pub fn single(value: T) -> (r: Self)
        ensures
            r@ == set![value.key()],
    {
        let mut v: Vec<T> = Vec::new();
        v.push(value);
        let r = ArraySet(v);
        assert forall|k: int| r@.contains(k) <==> k == value.key() by {
            if k == value.key() {
                assert(v@[0].key() == k);
            }
        }
        assert(r@ =~= set![value.key()]);
        r
    }

    /// The set of the elements of `vec`. Of elements with equal keys the first is kept.
    pub fn from_vec(vec: Vec<T>) -> (r: Self)
        ensures
            r@ == key_set(vec@),
    {
        let v = sort_unique(vec.as_slice(), 0, vec.len());
        let r = ArraySet(v);
        assert(r@ =~= key_set(vec@));
        r
    }

    /// The elements in ascending order.
    pub fn into_vec(self) -> (r: Vec<T>)
        ensures
            sorted(r@),
            key_set(r@) == self@,
            r@ == self.elements(),
    {
        proof {
            use_type_invariant(&self);
        }
        self.0
    }

    /// The elements in ascending order.
    pub fn as_slice(&self) -> (r: &[T])
        ensures
            sorted(r@),
            key_set(r@) == self@,
            r@ == self.elements(),
    {
        proof {
            use_type_invariant(self);
        }
        self.0.as_slice()
    }

    /// A copy of the set.
    pub fn copy(&self) -> (r: Self)
        ensures
            r@ == self@,
            r.elements() == self.elements(),
    {
        proof {
            use_type_invariant(self);
        }
        let mut v: Vec<T> = Vec::new();
        let mut i: usize = 0;
        while i < self.0.len()
            invariant
                i <= self.0@.len(),
                v@ == self.0@.subrange(0, i as int),
            decreases self.0@.len() - i,
        {
            v.push(self.0[i]);
            i = i + 1;
            assert(v@ =~= self.0@.subrange(0, i as int));
        }
        assert(v@ =~= self.0@);
        ArraySet(v)
    }

    /// Whether the set is empty.
    pub fn is_empty(&self) -> (r: bool)
        ensures
            r == (self@ == Set::<int>::empty()),
    {
        let r = self.0.len() == 0;
        if !r {
            assert(self@.contains(self.0@[0].key()));
        } else {
            assert(self@ =~= Set::<int>::empty());
        }
        r
    }

    /// Releases spare capacity; the set is unchanged.
    pub fn shrink_to_fit(&mut self)
        ensures
            final(self)@ == old(self)@,
    {
        proof {
            use_type_invariant(&*self);
        }
        let mut v: Vec<T> = Vec::new();
        std::mem::swap(&mut v, &mut self.0);
        crate::trusted::vec_shrink_to_fit(&mut v);
        self.0 = v;
    }

    /// Whether the set holds `value`.
    pub fn contains(&self, value: &T) -> (r: bool)
        ensures
            r == self@.contains(value.key()),
    {
        proof {
            use_type_invariant(self);
        }
        let s = self.0.as_slice();
        match crate::sorted::search(s, 0, s.len(), value) {
            Ok(i) => {
                assert(has_key(self.0@, 0, self.0@.len() as int, value.key()));
                true
            },
            Err(i) => false,
        }
    }

    /// The combination of `self` and `that` under `op`.
    fn combine(&self, that: &Self, op: SetOp) -> (r: Self)
        ensures
            r@ == combined(op, self@, that@),
    {
        proof {
            use_type_invariant(self);
            use_type_invariant(that);
        }
        let a = self.0.as_slice();
        let b = that.0.as_slice();
        let mut out: Vec<T> = Vec::new();
        merge(op, a, 0, a.len(), b, 0, b.len(), &mut out);
        let r = ArraySet(out);
        assert(r@ =~= combined(op, self@, that@));
        r
    }

    /// Whether combining `self` and `that` under `op` gives a non-empty set.
    fn combine_any(&self, that: &Self, op: SetOp) -> (r: bool)
        ensures
            r == exists|k: int| op.keep(#[trigger] self@.contains(k), #[trigger] that@.contains(k)),
    {
        proof {
            use_type_invariant(self);
            use_type_invariant(that);
        }
        let a = self.0.as_slice();
        let b = that.0.as_slice();
        let r = merge0_any(op, a, 0, a.len(), b, 0, b.len());
        proof {
            if r {
                let k = choose|k: int|
                    op.keep(
                        #[trigger] has_key(a@, 0, a@.len() as int, k),
                        #[trigger] has_key(b@, 0, b@.len() as int, k),
                    );
                assert(op.keep(self@.contains(k), that@.contains(k)));
            }
        }
        r
    }

    /// The elements that are in `self` or in `that`.
    pub fn union(&self, that: &Self) -> (r: Self)
        ensures
            r@ == self@.union(that@),
    {
        let r = self.combine(that, SetOp::Union);
        assert(r@ =~= self@.union(that@));
        r
    }

    /// The elements that are in both `self` and `that`.
    pub fn intersection(&self, that: &Self) -> (r: Self)
        ensures
            r@ == self@.intersect(that@),
    {
        let r = self.combine(that, SetOp::Intersection);
        assert(r@ =~= self@.intersect(that@));
        r
    }

    /// The elements that are in exactly one of `self` and `that`.
    pub fn xor(&self, that: &Self) -> (r: Self)
        ensures
            r@ == self@.difference(that@).union(that@.difference(self@)),
    {
        let r = self.combine(that, SetOp::Xor);
        assert(r@ =~= self@.difference(that@).union(that@.difference(self@)));
        r
    }

    /// The elements of `self` that are not in `that`.
    pub fn difference(&self, that: &Self) -> (r: Self)
        ensures
            r@ == self@.difference(that@),
    {
        let r = self.combine(that, SetOp::Except);
        assert(r@ =~= self@.difference(that@));
        r
    }

    /// Replaces `self` by its combination with `that` under `op`.
    fn combine_with(&mut self, that: &Self, op: SetOp)
        ensures
            final(self)@ == combined(op, old(self)@, that@),
    {
        let r = self.combine(that, op);
        *self = r;
    }

    /// Adds the elements of `that`.
    pub fn union_with(&mut self, that: &ArraySet<T>)
        ensures
            final(self)@ == old(self)@.union(that@),
    {
        self.combine_with(that, SetOp::Union);
        assert(self@ =~= old(self)@.union(that@));
    }

    /// Keeps only the elements that are also in `that`.
    pub fn intersection_with(&mut self, that: &ArraySet<T>)
        ensures
            final(self)@ == old(self)@.intersect(that@),
    {
        self.combine_with(that, SetOp::Intersection);
        assert(self@ =~= old(self)@.intersect(that@));
    }

    /// Keeps the elements that are in exactly one of `self` and `that`.
    pub fn xor_with(&mut self, that: &ArraySet<T>)
        ensures
            final(self)@ == old(self)@.difference(that@).union(that@.difference(old(self)@)),
    {
        self.combine_with(that, SetOp::Xor);
        assert(self@ =~= old(self)@.difference(that@).union(that@.difference(old(self)@)));
    }

    /// Removes the elements of `that`.
    pub fn except(&mut self, that: &ArraySet<T>)
        ensures
            final(self)@ == old(self)@.difference(that@),
    {
        self.combine_with(that, SetOp::Except);
        assert(self@ =~= old(self)@.difference(that@));
    }

    /// Whether `self` and `that` have no element in common.
    pub fn is_disjoint(&self, that: &ArraySet<T>) -> (r: bool)
        ensures
            r == self@.disjoint(that@),
    {
        let any = self.combine_any(that, SetOp::Intersection);
        if any {
            let ghost k = choose|k: int|
                SetOp::Intersection.keep(#[trigger] self@.contains(k), #[trigger] that@.contains(k));
            assert(self@.contains(k) && that@.contains(k));
        }
        !any
    }

    /// Whether every element of `self` is in `that`.
    pub fn is_subset(&self, that: &ArraySet<T>) -> (r: bool)
        ensures
            r == self@.subset_of(that@),
    {
        let any = self.combine_any(that, SetOp::Except);
        if any {
            let ghost k = choose|k: int|
                SetOp::Except.keep(#[trigger] self@.contains(k), #[trigger] that@.contains(k));
            assert(self@.contains(k) && !that@.contains(k));
        } else {
            assert forall|k: int| self@.contains(k) implies that@.contains(k) by {
                assert(!SetOp::Except.keep(self@.contains(k), that@.contains(k)));
            }
        }
        !any
    }

    /// Whether every element of `that` is in `self`.
    pub fn is_superset(&self, that: &ArraySet<T>) -> (r: bool)
        ensures
            r == that@.subset_of(self@),
    {
        that.is_subset(self)
    }

    /// Adds `that`.
    pub fn insert(&mut self, that: T)
        ensures
            final(self)@ == old(self)@.insert(that.key()),
    {
        let one = ArraySet::single(that);
        self.union_with(&one);
        assert(self@ =~= old(self)@.insert(that.key()));
    }

    /// Removes `that`.
    pub fn remove(&mut self, that: &T)
        ensures
            final(self)@ == old(self)@.remove(that.key()),
    {
        let one = ArraySet::single(*that);
        self.except(&one);
        assert(self@ =~= old(self)@.remove(that.key()));
    }
}

/// A copy of `v`.
pub fn copy_vec<T: Copy>(v: &Vec<T>) -> (r: Vec<T>)
    ensures
        r@ == v@,
{
    let mut r: Vec<T> = Vec::new();
    let mut i: usize = 0;
    while i < v.len()
        invariant
            i <= v@.len(),
            r@ == v@.subrange(0, i as int),
        decreases v@.len() - i,
    {
        r.push(v[i]);
        i = i + 1;
        assert(r@ =~= v@.subrange(0, i as int));
    }
    assert(r@ =~= v@);
    r
}

/// Adds the elements of `b` to the set `a`; both hold ascending values without duplicates.
pub fn union_u32(a: &mut Vec<u32>, b: &[u32])
    requires
        sorted(old(a)@),
        sorted(b@),
    ensures
        sorted(final(a)@),
        key_set(final(a)@) == key_set(old(a)@).union(key_set(b@)),
{
    let mut out: Vec<u32> = Vec::new();
    merge0(SetOp::Union, a.as_slice(), 0, a.len(), b, 0, b.len(), &mut out);
    assert(key_set(out@) =~= key_set(old(a)@).union(key_set(b@)));
    *a = out;
}

} // verus!

verus! {

impl<T: SortKey> Clone for ArraySet<T> {
    fn clone(&self) -> (r: Self)
        ensures
            r@ == self@,
    {
        self.copy()
    }
}

impl<T: SortKey> BitOrAssign for ArraySet<T> {
    fn bitor_assign(&mut self, rhs: ArraySet<T>)
        ensures
            final(self)@ == old(self)@.union(rhs@),
    {
        self.union_with(&rhs)
    }
}

impl<'a, T: SortKey> BitOr for &'a ArraySet<T> {
    type Output = ArraySet<T>;

    fn bitor(self, rhs: &'a ArraySet<T>) -> (r: ArraySet<T>)
        ensures
            r@ == self@.union(rhs@),
    {
        self.union(rhs)
    }
}

impl<'a, T: SortKey> vstd::std_specs::ops::BitOrSpecImpl for &'a ArraySet<T> {
    /// The result is described by the `ensures` of `bitor` alone.
    open spec fn obeys_bitor_spec() -> bool {
        false
    }

    open spec fn bitor_req(self, rhs: &'a ArraySet<T>) -> bool {
        true
    }

    open spec fn bitor_spec(self, rhs: &'a ArraySet<T>) -> ArraySet<T> {
        *self
    }
}

impl<T: SortKey> BitAndAssign for ArraySet<T> {
    fn bitand_assign(&mut self, rhs: ArraySet<T>)
        ensures
            final(self)@ == old(self)@.intersect(rhs@),
    {
        self.intersection_with(&rhs)
    }
}

impl<'a, T: SortKey> BitAnd for &'a ArraySet<T> {
    type Output = ArraySet<T>;

    fn bitand(self, rhs: &'a ArraySet<T>) -> (r: ArraySet<T>)
        ensures
            r@ == self@.intersect(rhs@),
    {
        self.intersection(rhs)
    }
}

impl<'a, T: SortKey> vstd::std_specs::ops::BitAndSpecImpl for &'a ArraySet<T> {
    /// The result is described by the `ensures` of `bitand` alone.
    open spec fn obeys_bitand_spec() -> bool {
        false
    }

    open spec fn bitand_req(self, rhs: &'a ArraySet<T>) -> bool {
        true
    }

    open spec fn bitand_spec(self, rhs: &'a ArraySet<T>) -> ArraySet<T> {
        *self
    }
}

impl<T: SortKey> BitXorAssign for ArraySet<T> {
    fn bitxor_assign(&mut self, rhs: ArraySet<T>)
        ensures
            final(self)@ == old(self)@.difference(rhs@).union(rhs@.difference(old(self)@)),
    {
        self.xor_with(&rhs)
    }
}

impl<'a, T: SortKey> BitXor for &'a ArraySet<T> {
    type Output = ArraySet<T>;

    fn bitxor(self, rhs: &'a ArraySet<T>) -> (r: ArraySet<T>)
        ensures
            r@ == self@.difference(rhs@).union(rhs@.difference(self@)),
    {
        self.xor(rhs)
    }
}

impl<'a, T: SortKey> vstd::std_specs::ops::BitXorSpecImpl for &'a ArraySet<T> {
    /// The result is described by the `ensures` of `bitxor` alone.
    open spec fn obeys_bitxor_spec() -> bool {
        false
    }

    open spec fn bitxor_req(self, rhs: &'a ArraySet<T>) -> bool {
        true
    }

    open spec fn bitxor_spec(self, rhs: &'a ArraySet<T>) -> ArraySet<T> {
        *self
    }
}

impl<T: SortKey> SubAssign for ArraySet<T> {
    fn sub_assign(&mut self, rhs: ArraySet<T>)
        ensures
            final(self)@ == old(self)@.difference(rhs@),
    {
        self.except(&rhs)
    }
}

impl<'a, T: SortKey> Sub for &'a ArraySet<T> {
    type Output = ArraySet<T>;

    fn sub(self, rhs: &'a ArraySet<T>) -> (r: ArraySet<T>)
        ensures
            r@ == self@.difference(rhs@),
    {
        self.difference(rhs)
    }
}

impl<'a, T: SortKey> vstd::std_specs::ops::SubSpecImpl for &'a ArraySet<T> {
    /// The result is described by the `ensures` of `sub` alone.
    open spec fn obeys_sub_spec() -> bool {
        false
    }

    open spec fn sub_req(self, rhs: &'a ArraySet<T>) -> bool {
        true
    }

    open spec fn sub_spec(self, rhs: &'a ArraySet<T>) -> ArraySet<T> {
        *self
    }
}

} // verus!

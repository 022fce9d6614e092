//! A set that may be the complement of a finite set, so that it supports negation.
use vstd::prelude::*;
use std::ops::{BitAnd, BitAndAssign, BitOr, BitOrAssign, BitXor, BitXorAssign, Neg, Sub, SubAssign};
use crate::key::SortKey;
use crate::array_set::ArraySet;

verus! {

/// The keys that a set with `elements` and the `negated` flag holds: with the flag, all keys
/// except `elements`.
pub open spec fn total_set(elements: Set<int>, negated: bool) -> Set<int> {
    Set::new(|k: int| negated != elements.contains(k))
}

/// A set of elements that is either finite or the complement of a finite set.
///
/// Its view is a set of keys, which may be infinite: the negated set of no elements holds
/// every integer.
#[derive(Debug)]
pub struct TotalArraySet<T: SortKey> {
    elements: ArraySet<T>,
    negated: bool,
}

impl<T: SortKey> View for TotalArraySet<T> {
    type V = Set<int>;

    closed spec fn view(&self) -> Set<int> {
        total_set(self.elements@, self.negated)
    }
}

impl<T: SortKey> TotalArraySet<T> {
    /// Whether the set is the complement of its elements.
    pub closed spec fn negated_flag(&self) -> bool {
        self.negated
    }

    /// The elements (or, when negated, the values missing), ascending.
    pub closed spec fn element_seq(&self) -> Seq<T> {
        self.elements.elements()
    }

    /// The elements ascend strictly.
    pub closed spec fn valid(&self) -> bool {
        self.elements.ascending()
    }

    /// A total set is determined by its set: two with the same set have the same flag and
    /// the same elements.
    pub proof fn lemma_canonical(a: Self, b: Self)
        requires
            a.valid(),
            b.valid(),
            a@ == b@,
        ensures
            a.negated_flag() == b.negated_flag(),
            a.element_seq() == b.element_seq(),
    {
        a.elements.lemma_finite();
        b.elements.lemma_finite();
        if a.negated != b.negated {
            lemma_complements_meet(a.elements@, b.elements@);
            let k = choose|k: int| !a.elements@.contains(k) && !b.elements@.contains(k);
            assert(a@.contains(k) == (a.negated != a.elements@.contains(k)));
            assert(b@.contains(k) == (b.negated != b.elements@.contains(k)));
            assert(a@.contains(k) != b@.contains(k));
        }
        assert forall|k: int| #[trigger] a.elements@.contains(k) == b.elements@.contains(k) by {
            assert(a@.contains(k) == (a.negated != a.elements@.contains(k)));
            assert(b@.contains(k) == (b.negated != b.elements@.contains(k)));
        }
        assert(a.elements@ =~= b.elements@);
        ArraySet::lemma_canonical(a.elements, b.elements);
    }

    fn new(elements: ArraySet<T>, negated: bool) -> (r: Self)
        ensures
            r@ == total_set(elements@, negated),
    {
        Self { elements, negated }
    }

    /// Whether the set is empty.
    pub fn is_empty(&self) -> (r: bool)
        ensures
            r == (self@ == Set::<int>::empty()),
    {
        let e = self.elements.is_empty();
        let r = !self.negated && e;
        if r {
            assert(self@ =~= Set::<int>::empty());
        } else if self.negated {
            proof {
                self.elements.lemma_finite();
                lemma_complement_nonempty(self.elements@);
                let k = choose|k: int| !self.elements@.contains(k);
                assert(self@.contains(k));
            }
        } else {
            proof {
                if forall|k: int| !self.elements@.contains(k) {
                    assert(self.elements@ =~= Set::<int>::empty());
                }
                let k = choose|k: int| self.elements@.contains(k);
                assert(self@.contains(k));
            }
        }
        r
    }

    /// The empty set.
    pub fn empty() -> (r: Self)
        ensures
            r@ == Set::<int>::empty(),
    {
        let r = Self::new(ArraySet::empty(), false);
        assert(r@ =~= Set::<int>::empty());
        r
    }

    /// The set of all values.
    pub fn all() -> (r: Self)
        ensures
            r@ == Set::<int>::full(),
    {
        let r = Self::new(ArraySet::empty(), true);
        assert(r@ =~= Set::<int>::full());
        r
    }

    /// Releases spare capacity; the set is unchanged.
    pub fn shrink_to_fit(&mut self)
        ensures
            final(self)@ == old(self)@,
    {
        self.elements.shrink_to_fit()
    }

    /// Whether the set holds `value`.
    pub fn contains(&self, value: &T) -> (r: bool)
        ensures
            r == self@.contains(value.key()),
    {
        self.negated != self.elements.contains(value)
    }

    /// `!self.is_subset(that)`: whether `self` holds an element that `that` lacks.
    pub fn is_superset(&self, that: &Self) -> (r: bool)
        ensures
            r == !self@.subset_of(that@),
    {
        !self.is_subset(that)
    }

    /// Whether every element of `self` is in `that`.
    pub fn is_subset(&self, that: &Self) -> (r: bool)
        ensures
            r == self@.subset_of(that@),
    {
        match (self.negated, that.negated) {
            (false, false) => {
                let r = self.elements.is_subset(&that.elements);
                assert(r == self@.subset_of(that@)) by {
                    if !r {
                        let k = choose|k: int| self.elements@.contains(k) && !that.elements@.contains(k);
                        assert(self@.contains(k) && !that@.contains(k));
                    }
                }
                r
            },
            (false, true) => {
                let r = self.elements.is_disjoint(&that.elements);
                assert(r == self@.subset_of(that@)) by {
                    if !r {
                        let k = choose|k: int| self.elements@.contains(k) && that.elements@.contains(k);
                        assert(self@.contains(k) && !that@.contains(k));
                    }
                }
                r
            },
            (true, false) => {
                proof {
                    self.elements.lemma_finite();
                    that.elements.lemma_finite();
                    lemma_complements_meet(self.elements@, that.elements@);
                    let k = choose|k: int| !self.elements@.contains(k) && !that.elements@.contains(k);
                    assert(self@.contains(k) && !that@.contains(k));
                }
                false
            },
            (true, true) => {
                let r = self.elements.is_superset(&that.elements);
                assert(r == self@.subset_of(that@)) by {
                    if !r {
                        let k = choose|k: int| that.elements@.contains(k) && !self.elements@.contains(k);
                        assert(self@.contains(k) && !that@.contains(k));
                    }
                }
                r
            },
        }
    }

    /// Whether `self` and `that` have no element in common.
    pub fn is_disjoint(&self, that: &Self) -> (r: bool)
        ensures
            r == self@.disjoint(that@),
    {
        match (self.negated, that.negated) {
            (false, false) => {
                let r = self.elements.is_disjoint(&that.elements);
                assert(r == self@.disjoint(that@)) by {
                    if !r {
                        let k = choose|k: int| self.elements@.contains(k) && that.elements@.contains(k);
                        assert(self@.contains(k) && that@.contains(k));
                    }
                }
                r
            },
            (false, true) => {
                let r = self.elements.is_subset(&that.elements);
                assert(r == self@.disjoint(that@)) by {
                    if !r {
                        let k = choose|k: int| self.elements@.contains(k) && !that.elements@.contains(k);
                        assert(self@.contains(k) && that@.contains(k));
                    }
                }
                r
            },
            (true, false) => {
                let r = self.elements.is_superset(&that.elements);
                assert(r == self@.disjoint(that@)) by {
                    if !r {
                        let k = choose|k: int| that.elements@.contains(k) && !self.elements@.contains(k);
                        assert(self@.contains(k) && that@.contains(k));
                    }
                }
                r
            },
            (true, true) => {
                proof {
                    self.elements.lemma_finite();
                    that.elements.lemma_finite();
                    lemma_complements_meet(self.elements@, that.elements@);
                    let k = choose|k: int| !self.elements@.contains(k) && !that.elements@.contains(k);
                    assert(self@.contains(k) && that@.contains(k));
                }
                false
            },
        }
    }

    /// Adds the elements of `that`.
    pub fn union_with(&mut self, that: Self)
        ensures
            final(self)@ == old(self)@.union(that@),
    {
        match (self.negated, that.negated) {
            (false, false) => {
                self.elements.union_with(&that.elements);
                self.negated = false;
            },
            (false, true) => {
                let mut that = that;
                std::mem::swap(&mut that.elements, &mut self.elements);
                self.elements.except(&that.elements);
                self.negated = true;
            },
            (true, false) => {
                self.elements.except(&that.elements);
                self.negated = true;
            },
            (true, true) => {
                self.elements.intersection_with(&that.elements);
                self.negated = true;
            },
        }
        assert(self@ =~= old(self)@.union(that@));
    }

    /// Keeps only the elements that are also in `that`.
    pub fn intersection_with(&mut self, that: Self)
        ensures
            final(self)@ == old(self)@.intersect(that@),
    {
        match (self.negated, that.negated) {
            (false, false) => {
                self.elements.intersection_with(&that.elements);
                self.negated = false;
            },
            (false, true) => {
                self.elements.except(&that.elements);
                self.negated = false;
            },
            (true, false) => {
                let mut that = that;
                std::mem::swap(&mut that.elements, &mut self.elements);
                self.elements.except(&that.elements);
                self.negated = false;
            },
            (true, true) => {
                self.elements.union_with(&that.elements);
                self.negated = true;
            },
        }
        assert(self@ =~= old(self)@.intersect(that@));
    }

    /// Removes the elements of `that`.
    pub fn difference_with(&mut self, that: Self)
        ensures
            final(self)@ == old(self)@.difference(that@),
    {
        match (self.negated, that.negated) {
            (false, false) => {
                self.elements.except(&that.elements);
                self.negated = false;
            },
            (false, true) => {
                self.elements.intersection_with(&that.elements);
                self.negated = false;
            },
            (true, false) => {
                self.elements.union_with(&that.elements);
                self.negated = true;
            },
            (true, true) => {
                let mut that = that;
                std::mem::swap(&mut that.elements, &mut self.elements);
                self.elements.except(&that.elements);
                self.negated = false;
            },
        }
        assert(self@ =~= old(self)@.difference(that@));
    }

    /// Keeps the elements that are in exactly one of `self` and `that`.
    pub fn xor_with(&mut self, that: Self)
        ensures
            final(self)@ == old(self)@.difference(that@).union(that@.difference(old(self)@)),
    {
        self.elements.xor_with(&that.elements);
        self.negated = self.negated != that.negated;
        assert(self@ =~= old(self)@.difference(that@).union(that@.difference(old(self)@)));
    }

    /// The complement of the set.
    fn negate(&self) -> (r: Self)
        ensures
            r@ == self@.complement(),
    {
        let r = Self::new(self.elements.clone(), !self.negated);
        assert(r@ =~= self@.complement());
        r
    }

    /// The elements that are in exactly one of `self` and `that`.
    pub fn xor(&self, that: &Self) -> (r: Self)
        ensures
            r@ == self@.difference(that@).union(that@.difference(self@)),
    {
        let r = Self::new(self.elements.xor(&that.elements), self.negated != that.negated);
        assert(r@ =~= self@.difference(that@).union(that@.difference(self@)));
        r
    }

    /// The elements that are in `self` or in `that`.
    pub fn union(&self, that: &Self) -> (r: Self)
        ensures
            r@ == self@.union(that@),
    {
        let r = match (self.negated, that.negated) {
            (false, false) => Self::new(self.elements.union(&that.elements), false),
            (false, true) => Self::new(that.elements.difference(&self.elements), true),
            (true, false) => Self::new(self.elements.difference(&that.elements), true),
            (true, true) => Self::new(that.elements.intersection(&self.elements), true),
        };
        assert(r@ =~= self@.union(that@));
        r
    }

    /// The elements that are in both `self` and `that`.
    pub fn intersection(&self, that: &Self) -> (r: Self)
        ensures
            r@ == self@.intersect(that@),
    {
        let r = match (self.negated, that.negated) {
            (false, false) => Self::new(self.elements.intersection(&that.elements), false),
            (false, true) => Self::new(self.elements.difference(&that.elements), false),
            (true, false) => Self::new(that.elements.difference(&self.elements), false),
            (true, true) => Self::new(that.elements.union(&self.elements), true),
        };
        assert(r@ =~= self@.intersect(that@));
        r
    }

    /// The elements of `self` that are not in `that`.
    pub fn difference(&self, that: &Self) -> (r: Self)
        ensures
            r@ == self@.difference(that@),
    {
        let r = match (self.negated, that.negated) {
            (false, false) => Self::new(self.elements.difference(&that.elements), false),
            (false, true) => Self::new(self.elements.intersection(&that.elements), false),
            (true, false) => Self::new(self.elements.union(&that.elements), true),
            (true, true) => Self::new(that.elements.difference(&self.elements), false),
        };
        assert(r@ =~= self@.difference(that@));
        r
    }
}

/// The complement of a finite set of integers is not empty.
pub proof fn lemma_complement_nonempty(s: Set<int>)
    requires
        s.finite(),
    ensures
        exists|k: int| !s.contains(k),
{
    let k = upper_bound(s);
    assert(!s.contains(k));
}

/// The complements of two finite sets of integers meet.
pub proof fn lemma_complements_meet(s: Set<int>, t: Set<int>)
    requires
        s.finite(),
        t.finite(),
    ensures
        exists|k: int| !s.contains(k) && !t.contains(k),
{
    vstd::set_lib::lemma_set_union_finite_iff(s, t);
    let k = upper_bound(s.union(t));
    assert(!s.union(t).contains(k));
    assert(!s.contains(k) && !t.contains(k));
}

/// An integer above every element of the finite set `s`.
pub proof fn upper_bound(s: Set<int>) -> (m: int)
    requires
        s.finite(),
    ensures
        forall|x: int| s.contains(x) ==> x < m,
    decreases s.len(),
{
    if s.len() == 0 {
        assert forall|x: int| s.contains(x) implies x < 0 by {
            assert(s.remove(x).len() < s.len());
        }
        0
    } else {
        let x = s.choose();
        let m = upper_bound(s.remove(x));
        if m > x {
            m
        } else {
            x + 1
        }
    }
}

} // verus!

verus! {

impl<T: SortKey> Clone for TotalArraySet<T> {
    fn clone(&self) -> (r: Self)
        ensures
            r@ == self@,
    {
        Self::new(self.elements.clone(), self.negated)
    }
}

impl<T: SortKey> From<ArraySet<T>> for TotalArraySet<T> {
    fn from(value: ArraySet<T>) -> (r: Self)
        ensures
            r@ == value@,
    {
        let r = Self::new(value, false);
        assert(r@ =~= value@);
        r
    }
}

impl<T: SortKey> vstd::std_specs::convert::FromSpecImpl<ArraySet<T>> for TotalArraySet<T> {
    /// The result is described by the `ensures` of `from` alone.
    open spec fn obeys_from_spec() -> bool {
        false
    }

    closed spec fn from_spec(v: ArraySet<T>) -> Self {
        TotalArraySet { elements: v, negated: false }
    }
}

impl<T: SortKey> BitAndAssign for TotalArraySet<T> {
    fn bitand_assign(&mut self, rhs: TotalArraySet<T>)
        ensures
            final(self)@ == old(self)@.intersect(rhs@),
    {
        self.intersection_with(rhs)
    }
}

impl<'a, T: SortKey> BitAnd for &'a TotalArraySet<T> {
    type Output = TotalArraySet<T>;

    fn bitand(self, rhs: &'a TotalArraySet<T>) -> (r: TotalArraySet<T>)
        ensures
            r@ == self@.intersect(rhs@),
    {
        self.intersection(rhs)
    }
}

impl<'a, T: SortKey> vstd::std_specs::ops::BitAndSpecImpl for &'a TotalArraySet<T> {
    /// The result is described by the `ensures` of `bitand` alone.
    open spec fn obeys_bitand_spec() -> bool {
        false
    }

    open spec fn bitand_req(self, rhs: &'a TotalArraySet<T>) -> bool {
        true
    }

    open spec fn bitand_spec(self, rhs: &'a TotalArraySet<T>) -> TotalArraySet<T> {
        *self
    }
}

impl<T: SortKey> BitOrAssign for TotalArraySet<T> {
    fn bitor_assign(&mut self, rhs: TotalArraySet<T>)
        ensures
            final(self)@ == old(self)@.union(rhs@),
    {
        self.union_with(rhs)
    }
}

impl<'a, T: SortKey> BitOr for &'a TotalArraySet<T> {
    type Output = TotalArraySet<T>;

    fn bitor(self, rhs: &'a TotalArraySet<T>) -> (r: TotalArraySet<T>)
        ensures
            r@ == self@.union(rhs@),
    {
        self.union(rhs)
    }
}

impl<'a, T: SortKey> vstd::std_specs::ops::BitOrSpecImpl for &'a TotalArraySet<T> {
    /// The result is described by the `ensures` of `bitor` alone.
    open spec fn obeys_bitor_spec() -> bool {
        false
    }

    open spec fn bitor_req(self, rhs: &'a TotalArraySet<T>) -> bool {
        true
    }

    open spec fn bitor_spec(self, rhs: &'a TotalArraySet<T>) -> TotalArraySet<T> {
        *self
    }
}

impl<T: SortKey> BitXorAssign for TotalArraySet<T> {
    fn bitxor_assign(&mut self, rhs: TotalArraySet<T>)
        ensures
            final(self)@ == old(self)@.difference(rhs@).union(rhs@.difference(old(self)@)),
    {
        self.xor_with(rhs)
    }
}

impl<'a, T: SortKey> BitXor for &'a TotalArraySet<T> {
    type Output = TotalArraySet<T>;

    fn bitxor(self, rhs: &'a TotalArraySet<T>) -> (r: TotalArraySet<T>)
        ensures
            r@ == self@.difference(rhs@).union(rhs@.difference(self@)),
    {
        self.xor(rhs)
    }
}

impl<'a, T: SortKey> vstd::std_specs::ops::BitXorSpecImpl for &'a TotalArraySet<T> {
    /// The result is described by the `ensures` of `bitxor` alone.
    open spec fn obeys_bitxor_spec() -> bool {
        false
    }

    open spec fn bitxor_req(self, rhs: &'a TotalArraySet<T>) -> bool {
        true
    }

    open spec fn bitxor_spec(self, rhs: &'a TotalArraySet<T>) -> TotalArraySet<T> {
        *self
    }
}

impl<T: SortKey> SubAssign for TotalArraySet<T> {
    fn sub_assign(&mut self, rhs: TotalArraySet<T>)
        ensures
            final(self)@ == old(self)@.difference(rhs@),
    {
        self.difference_with(rhs)
    }
}

impl<'a, T: SortKey> Sub for &'a TotalArraySet<T> {
    type Output = TotalArraySet<T>;

    fn sub(self, rhs: &'a TotalArraySet<T>) -> (r: TotalArraySet<T>)
        ensures
            r@ == self@.difference(rhs@),
    {
        self.difference(rhs)
    }
}

impl<'a, T: SortKey> vstd::std_specs::ops::SubSpecImpl for &'a TotalArraySet<T> {
    /// The result is described by the `ensures` of `sub` alone.
    open spec fn obeys_sub_spec() -> bool {
        false
    }

    open spec fn sub_req(self, rhs: &'a TotalArraySet<T>) -> bool {
        true
    }

    open spec fn sub_spec(self, rhs: &'a TotalArraySet<T>) -> TotalArraySet<T> {
        *self
    }
}

impl<'a, T: SortKey> Neg for &'a TotalArraySet<T> {
    type Output = TotalArraySet<T>;

    fn neg(self) -> (r: TotalArraySet<T>)
        ensures
            r@ == self@.complement(),
    {
        self.negate()
    }
}

impl<'a, T: SortKey> vstd::std_specs::ops::NegSpecImpl for &'a TotalArraySet<T> {
    /// The result is described by the `ensures` of `neg` alone.
    open spec fn obeys_neg_spec() -> bool {
        false
    }

    open spec fn neg_req(self) -> bool {
        true
    }

    open spec fn neg_spec(self) -> TotalArraySet<T> {
        *self
    }
}

} // verus!

//! Sets of countable values (integers and the like) described by ascending boundaries at which
//! membership flips, with the flag that says what holds below all of them.
//!
//! The intersection and the symmetric difference give their result the flag of the union:
//! where that differs from the flag their boundaries were merged for, the result is the
//! complement of the intersection or of the symmetric difference.
use vstd::prelude::*;
use std::ops::{Range, RangeFrom, RangeTo};
use crate::key::SortKey;
use crate::sorted::{search, sorted};
use crate::set_merge::SetOp;
use crate::boundary::{flip_merge, flip_set, flip_value, lemma_flip_value_at, odd};
use crate::range_set::lemma_flip_negate;

verus! {

/// A set of values: `below_all` holds below the first boundary, and membership flips at each
/// boundary.
#[derive(Debug)]
pub struct CountableIntervalSet<T: SortKey> {
    below_all: bool,
    boundaries: Vec<T>,
}

impl<T: SortKey> View for CountableIntervalSet<T> {
    type V = Set<int>;

    closed spec fn view(&self) -> Set<int> {
        flip_set(self.below_all, self.boundaries@)
    }
}

/// Whether `x` is odd.
fn is_odd(x: usize) -> (r: bool)
    ensures
        r == odd(x as int),
{
    x % 2 == 1
}

impl<T: SortKey> CountableIntervalSet<T> {
    #[verifier::type_invariant]
    spec fn ascending(self) -> bool {
        sorted(self.boundaries@)
    }

    /// Whether the set holds the values below every boundary.
    pub closed spec fn below_flag(&self) -> bool {
        self.below_all
    }

    /// The boundaries, ascending.
    pub closed spec fn boundary_values(&self) -> Seq<T> {
        self.boundaries@
    }

    /// The set with the given flag and boundaries.
    fn unsafe_new(below_all: bool, boundaries: Vec<T>) -> (r: Self)
        requires
            sorted(boundaries@),
        ensures
            r.below_all == below_all,
            r.boundaries@ == boundaries@,
            r@ == flip_set(below_all, boundaries@),
    {
        CountableIntervalSet { below_all, boundaries }
    }

    /// The complement of the set.
    pub fn negate(self) -> (r: Self)
        ensures
            r@ == self@.complement(),
    {
        proof {
            use_type_invariant(&self);
            assert forall|k: int| flip_value(!self.below_all, self.boundaries@, k) == !#[trigger] flip_value(
                self.below_all,
                self.boundaries@,
                k,
            ) by {
                lemma_flip_negate(self.below_all, self.boundaries@, k);
            }
        }
        let r = Self::unsafe_new(!self.below_all, self.boundaries);
        assert(r@ =~= self@.complement());
        r
    }

    /// The empty set.
    pub fn empty() -> (r: Self)
        ensures
            r@ == Set::<int>::empty(),
    {
        let r = Self::unsafe_new(false, Vec::new());
        assert(r@ =~= Set::<int>::empty());
        r
    }

    /// The set of all values.
    pub fn all() -> (r: Self)
        ensures
            r@ == Set::<int>::full(),
    {
        let r = Self::unsafe_new(true, Vec::new());
        assert(r@ =~= Set::<int>::full());
        r
    }

    /// The values below `a`.
    pub fn below(a: &T) -> (r: Self)
        ensures
            r@ == Set::new(|k: int| k < a.key()),
    {
        let mut v: Vec<T> = Vec::new();
        v.push(a.copied());
        let r = Self::unsafe_new(true, v);
        assert forall|k: int| r@.contains(k) <==> k < a.key() by {
            if k < a.key() {
                lemma_flip_value_at(true, v@, 0, k);
            } else {
                lemma_flip_value_at(true, v@, 1, k);
            }
        }
        assert(r@ =~= Set::new(|k: int| k < a.key()));
        r
    }

    /// The values at or above `a`.
    pub fn at_or_above(a: &T) -> (r: Self)
        ensures
            r@ == Set::new(|k: int| a.key() <= k),
    {
        let mut v: Vec<T> = Vec::new();
        v.push(a.copied());
        let r = Self::unsafe_new(false, v);
        assert forall|k: int| r@.contains(k) <==> a.key() <= k by {
            if k < a.key() {
                lemma_flip_value_at(false, v@, 0, k);
            } else {
                lemma_flip_value_at(false, v@, 1, k);
            }
        }
        assert(r@ =~= Set::new(|k: int| a.key() <= k));
        r
    }

    /// The values at or above `a` and below `b`; empty unless `a < b`.
    pub fn from_until(a: &T, b: &T) -> (r: Self)
        ensures
            r@ == Set::new(|k: int| a.key() <= k < b.key()),
    {
        if a.key_lt(b) {
            let mut v: Vec<T> = Vec::new();
            v.push(a.copied());
            v.push(b.copied());
            let r = Self::unsafe_new(false, v);
            assert forall|k: int| r@.contains(k) <==> a.key() <= k < b.key() by {
                if k < a.key() {
                    lemma_flip_value_at(false, v@, 0, k);
                } else if k < b.key() {
                    lemma_flip_value_at(false, v@, 1, k);
                } else {
                    lemma_flip_value_at(false, v@, 2, k);
                }
            }
            assert(r@ =~= Set::new(|k: int| a.key() <= k < b.key()));
            r
        } else {
            let r = Self::empty();
            assert(r@ =~= Set::new(|k: int| a.key() <= k < b.key()));
            r
        }
    }

    /// The union of the two sets.
    pub fn union(&self, that: &Self) -> (r: Self)
        ensures
            r@ == self@.union(that@),
    {
        proof {
            use_type_invariant(self);
            use_type_invariant(that);
        }
        let b = flip_merge(SetOp::Union, self.below_all, self.boundaries.as_slice(), that.below_all, that.boundaries.as_slice());
        let r = Self::unsafe_new(self.below_all || that.below_all, b);
        assert forall|k: int| #[trigger] r@.contains(k) == self@.union(that@).contains(k) by {
            assert(flip_value(SetOp::Union.keep(self.below_all, that.below_all), b@, k) == SetOp::Union.keep(
                flip_value(self.below_all, self.boundaries@, k),
                flip_value(that.below_all, that.boundaries@, k),
            ));
        }
        assert(r@ =~= self@.union(that@));
        r
    }

    /// The boundaries of the intersection of the two sets, with the flag of their union: the
    /// intersection where both flags agree, and its complement where they differ.
    pub fn intersection(&self, that: &Self) -> (r: Self)
        ensures
            r@ == if self.below_flag() == that.below_flag() {
                self@.intersect(that@)
            } else {
                self@.intersect(that@).complement()
            },
    {
        proof {
            use_type_invariant(self);
            use_type_invariant(that);
        }
        let b = flip_merge(SetOp::Intersection, self.below_all, self.boundaries.as_slice(), that.below_all, that.boundaries.as_slice());
        let r = Self::unsafe_new(self.below_all || that.below_all, b);
        proof {
            let p = self.below_all && that.below_all;
            assert forall|k: int| flip_value(!p, b@, k) == !#[trigger] flip_value(p, b@, k) by {
                lemma_flip_negate(p, b@, k);
            }
            assert forall|k: int| #[trigger] flip_value(p, b@, k) == (self@.contains(k) && that@.contains(k)) by {
                assert(flip_value(SetOp::Intersection.keep(self.below_all, that.below_all), b@, k)
                    == SetOp::Intersection.keep(
                    flip_value(self.below_all, self.boundaries@, k),
                    flip_value(that.below_all, that.boundaries@, k),
                ));
            }
        }
        if self.below_all == that.below_all {
            assert(r@ =~= self@.intersect(that@));
        } else {
            assert forall|k: int| #[trigger] r@.contains(k) == !(self@.contains(k) && that@.contains(k)) by {
                let p = self.below_all && that.below_all;
                lemma_flip_negate(p, b@, k);
                assert(flip_value(p, b@, k) == (self@.contains(k) && that@.contains(k)));
            }
            assert(r@ =~= self@.intersect(that@).complement());
        }
        r
    }

    /// The boundaries of the symmetric difference of the two sets, with the flag of their
    /// union: the symmetric difference unless both flags are set, and its complement if they
    /// are.
    pub fn xor(&self, that: &Self) -> (r: Self)
        ensures
            r@ == if self.below_flag() && that.below_flag() {
                self@.difference(that@).union(that@.difference(self@)).complement()
            } else {
                self@.difference(that@).union(that@.difference(self@))
            },
    {
        proof {
            use_type_invariant(self);
            use_type_invariant(that);
        }
        let b = flip_merge(SetOp::Xor, self.below_all, self.boundaries.as_slice(), that.below_all, that.boundaries.as_slice());
        let r = Self::unsafe_new(self.below_all || that.below_all, b);
        proof {
            let p = self.below_all != that.below_all;
            assert forall|k: int| flip_value(!p, b@, k) == !#[trigger] flip_value(p, b@, k) by {
                lemma_flip_negate(p, b@, k);
            }
            assert forall|k: int| #[trigger] flip_value(p, b@, k) == (self@.contains(k) != that@.contains(k)) by {
                assert(flip_value(SetOp::Xor.keep(self.below_all, that.below_all), b@, k) == SetOp::Xor.keep(
                    flip_value(self.below_all, self.boundaries@, k),
                    flip_value(that.below_all, that.boundaries@, k),
                ));
            }
        }
        if self.below_all && that.below_all {
            assert forall|k: int| #[trigger] r@.contains(k) == !(self@.contains(k) != that@.contains(k)) by {
                let p = self.below_all != that.below_all;
                lemma_flip_negate(p, b@, k);
                assert(flip_value(p, b@, k) == (self@.contains(k) != that@.contains(k)));
            }
            assert(r@ =~= self@.difference(that@).union(that@.difference(self@)).complement());
        } else {
            assert(r@ =~= self@.difference(that@).union(that@.difference(self@)));
        }
        r
    }

    /// Whether the set holds `value`, which lies at or above the first boundary.
    pub fn contains(&self, value: &T) -> (r: bool)
        requires
            self.boundary_values().len() > 0,
            self.boundary_values()[0].key() <= value.key(),
        ensures
            r == self@.contains(value.key()),
    {
        proof {
            use_type_invariant(self);
        }
        match search(self.boundaries.as_slice(), 0, self.boundaries.len(), value) {
            Ok(index) => {
                proof {
                    if index + 1 < self.boundaries@.len() {
                        assert(self.boundaries@[index as int].key() < self.boundaries@[index + 1].key());
                    }
                    lemma_flip_value_at(self.below_all, self.boundaries@, index + 1, value.key());
                }
                self.below_all ^ !is_odd(index)
            },
            Err(index) => {
                proof {
                    lemma_flip_value_at(self.below_all, self.boundaries@, index as int, value.key());
                }
                self.below_all ^ !is_odd(index - 1)
            },
        }
    }
}

impl<T: SortKey> From<Range<T>> for CountableIntervalSet<T> {
    fn from(value: Range<T>) -> (r: Self)
        ensures
            r@ == Set::new(|k: int| value.start.key() <= k < value.end.key()),
    {
        Self::from_until(&value.start, &value.end)
    }
}

impl<T: SortKey> From<RangeFrom<T>> for CountableIntervalSet<T> {
    fn from(value: RangeFrom<T>) -> (r: Self)
        ensures
            r@ == Set::new(|k: int| value.start.key() <= k),
    {
        Self::at_or_above(&value.start)
    }
}

impl<T: SortKey> From<RangeTo<T>> for CountableIntervalSet<T> {
    fn from(value: RangeTo<T>) -> (r: Self)
        ensures
            r@ == Set::new(|k: int| k < value.end.key()),
    {
        Self::below(&value.end)
    }
}

impl<T: SortKey> vstd::std_specs::convert::FromSpecImpl<Range<T>> for CountableIntervalSet<T> {
    /// The result is described by the `ensures` of `from` alone.
    open spec fn obeys_from_spec() -> bool {
        false
    }

    closed spec fn from_spec(v: Range<T>) -> Self {
        vstd::pervasive::arbitrary()
    }
}

impl<T: SortKey> vstd::std_specs::convert::FromSpecImpl<RangeFrom<T>> for CountableIntervalSet<T> {
    /// The result is described by the `ensures` of `from` alone.
    open spec fn obeys_from_spec() -> bool {
        false
    }

    closed spec fn from_spec(v: RangeFrom<T>) -> Self {
        vstd::pervasive::arbitrary()
    }
}

impl<T: SortKey> vstd::std_specs::convert::FromSpecImpl<RangeTo<T>> for CountableIntervalSet<T> {
    /// The result is described by the `ensures` of `from` alone.
    open spec fn obeys_from_spec() -> bool {
        false
    }

    closed spec fn from_spec(v: RangeTo<T>) -> Self {
        vstd::pervasive::arbitrary()
    }
}

} // verus!

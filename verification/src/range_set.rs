//! A set of non-overlapping ranges of values.
//!
//! The set is described by ascending boundaries, starting with a flag telling whether values
//! below every boundary are in the set. Membership flips at each boundary, so the set can hold
//! half-open ranges `a..b`, unbounded ranges `a..` and `..b`, everything, and nothing, and it
//! supports negation. Adjacent ranges merge.
use vstd::prelude::*;
use std::ops::{BitAnd, BitAndAssign, BitOr, BitOrAssign, BitXor, BitXorAssign, Not, Range, RangeFrom, RangeTo, Sub, SubAssign};
use crate::key::SortKey;
use crate::sorted::{search, sorted};
use crate::set_merge::SetOp;
use crate::boundary::{flip_any, flip_merge, flip_set, flip_value, lemma_flip_first, lemma_flip_value_at, odd};

verus! {

/// A set of non-overlapping ranges of `T`.
///
/// Its view is the set of keys that it holds, which may be infinite.
#[derive(Debug)]
pub struct RangeSet<T: SortKey> {
    below_all: bool,
    boundaries: Vec<T>,
}

impl<T: SortKey> View for RangeSet<T> {
    type V = Set<int>;

    closed spec fn view(&self) -> Set<int> {
        flip_set(self.below_all, self.boundaries@)
    }
}

/// Whether `x` is odd.
pub fn is_odd(x: usize) -> (r: bool)
    ensures
        r == odd(x as int),
{
    x % 2 == 1
}

impl<T: SortKey> RangeSet<T> {
    /// Whether the set holds the values below every boundary.
    pub closed spec fn below_flag(&self) -> bool {
        self.below_all
    }

    /// The boundaries, ascending.
    pub closed spec fn boundary_values(&self) -> Seq<T> {
        self.boundaries@
    }

    /// The boundaries ascend strictly.
    #[verifier::type_invariant]
    pub closed spec fn ascending(self) -> bool {
        sorted(self.boundaries@)
    }

    /// A range set is determined by its set: two with the same set have the same flag and
    /// the same boundaries.
    pub proof fn lemma_canonical(a: Self, b: Self)
        requires
            a.ascending(),
            b.ascending(),
            a@ == b@,
        ensures
            a.below_flag() == b.below_flag(),
            a.boundary_values() == b.boundary_values(),
    {
        let sa = a.boundaries@;
        let sb = b.boundaries@;
        let k = if sa.len() > 0 && sb.len() > 0 {
            if sa[0].key() < sb[0].key() { sa[0].key() - 1 } else { sb[0].key() - 1 }
        } else if sa.len() > 0 {
            sa[0].key() - 1
        } else if sb.len() > 0 {
            sb[0].key() - 1
        } else {
            0
        };
        crate::boundary::lemma_flip_low(a.below_all, sa, k);
        crate::boundary::lemma_flip_low(b.below_all, sb, k);
        assert(a@.contains(k) == flip_value(a.below_all, sa, k));
        assert(b@.contains(k) == flip_value(b.below_all, sb, k));
        assert(a@.contains(k) == b@.contains(k));
        assert forall|x: int| #[trigger] crate::sorted::key_set(sa).contains(x) == crate::sorted::key_set(sb).contains(x) by {
            crate::boundary::lemma_flip_change(a.below_all, sa, x);
            crate::boundary::lemma_flip_change(b.below_all, sb, x);
            assert(a@.contains(x) == flip_value(a.below_all, sa, x));
            assert(b@.contains(x) == flip_value(b.below_all, sb, x));
            assert(a@.contains(x - 1) == flip_value(a.below_all, sa, x - 1));
            assert(b@.contains(x - 1) == flip_value(b.below_all, sb, x - 1));
        }
        assert(crate::sorted::key_set(sa) =~= crate::sorted::key_set(sb));
        crate::sorted::lemma_sorted_unique(sa, sb);
    }

    fn new(below_all: bool, boundaries: Vec<T>) -> (r: Self)
        requires
            sorted(boundaries@),
        ensures
            r@ == flip_set(below_all, boundaries@),
    {
        RangeSet { below_all, boundaries }
    }

    /// The set of values below `a`.
    pub fn from_range_until(a: T) -> (r: Self)
        ensures
            r@ == Set::new(|k: int| k < a.key()),
    {
        let mut v: Vec<T> = Vec::new();
        v.push(a);
        let r = Self::new(true, v);
        assert forall|k: int| r@.contains(k) <==> k < a.key() by {
            if k < a.key() {
                lemma_flip_value_at(true, v@, 0, k);
            } else {
                lemma_flip_value_at(true, v@, 1, k);
            }
        }
        assert(r@ =~= Set::new(|k: int| k < a.key()));
        r
    }

    /// The set of values at or above `a`.
    pub fn from_range_from(a: T) -> (r: Self)
        ensures
            r@ == Set::new(|k: int| a.key() <= k),
    {
        let mut v: Vec<T> = Vec::new();
        v.push(a);
        let r = Self::new(false, v);
        assert forall|k: int| r@.contains(k) <==> a.key() <= k by {
            if k < a.key() {
                lemma_flip_value_at(false, v@, 0, k);
            } else {
                lemma_flip_value_at(false, v@, 1, k);
            }
        }
        assert(r@ =~= Set::new(|k: int| a.key() <= k));
        r
    }

    /// The set of values at or above `start` and below `end`; empty unless `start < end`.
    pub fn from_range(start: T, end: T) -> (r: Self)
        ensures
            r@ == Set::new(|k: int| start.key() <= k < end.key()),
    {
        if start.key_lt(&end) {
            let mut v: Vec<T> = Vec::new();
            v.push(start);
            v.push(end);
            let r = Self::new(false, v);
            assert forall|k: int| r@.contains(k) <==> start.key() <= k < end.key() by {
                if k < start.key() {
                    lemma_flip_value_at(false, v@, 0, k);
                } else if k < end.key() {
                    lemma_flip_value_at(false, v@, 1, k);
                } else {
                    lemma_flip_value_at(false, v@, 2, k);
                }
            }
            assert(r@ =~= Set::new(|k: int| start.key() <= k < end.key()));
            r
        } else {
            let r = Self::empty();
            assert(r@ =~= Set::new(|k: int| start.key() <= k < end.key()));
            r
        }
    }

    /// The empty set.
    pub fn empty() -> (r: Self)
        ensures
            r@ == Set::<int>::empty(),
    {
        let r = Self::new(false, Vec::new());
        assert(r@ =~= Set::<int>::empty());
        r
    }

    /// The set of all values.
    pub fn all() -> (r: Self)
        ensures
            r@ == Set::<int>::full(),
    {
        let r = Self::new(true, Vec::new());
        assert(r@ =~= Set::<int>::full());
        r
    }

    /// The set of all values if `value`, else the empty set.
    pub fn constant(value: bool) -> (r: Self)
        ensures
            r@ == (if value { Set::<int>::full() } else { Set::<int>::empty() }),
    {
        let r = Self::new(value, Vec::new());
        assert(r@ =~= (if value { Set::<int>::full() } else { Set::<int>::empty() }));
        r
    }

    /// Whether the set is empty.
    pub fn is_empty(&self) -> (r: bool)
        ensures
            r == (self@ == Set::<int>::empty()),
    {
        proof {
            use_type_invariant(self);
        }
        let r = !self.below_all && self.boundaries.len() == 0;
        proof {
            if r {
                assert(self@ =~= Set::<int>::empty());
            } else if self.boundaries@.len() > 0 {
                lemma_flip_first(self.below_all, self.boundaries@);
                let k0 = self.boundaries@[0].key();
                assert(self@.contains(k0 - 1) || self@.contains(k0));
            } else {
                assert(self@.contains(0));
            }
        }
        r
    }

    /// Whether the set holds every value.
    pub fn is_all(&self) -> (r: bool)
        ensures
            r == (self@ == Set::<int>::full()),
    {
        proof {
            use_type_invariant(self);
        }
        let r = self.below_all && self.boundaries.len() == 0;
        proof {
            if r {
                assert(self@ =~= Set::<int>::full());
            } else if self.boundaries@.len() > 0 {
                lemma_flip_first(self.below_all, self.boundaries@);
                let k0 = self.boundaries@[0].key();
                assert(!self@.contains(k0 - 1) || !self@.contains(k0));
            } else {
                assert(!self@.contains(0));
            }
        }
        r
    }

    /// Whether `self` and `that` have no value in common.
    pub fn is_disjoint(&self, that: &Self) -> (r: bool)
        ensures
            r == self@.disjoint(that@),
    {
        proof {
            use_type_invariant(self);
            use_type_invariant(that);
        }
        let any = flip_any(
            SetOp::Intersection,
            self.below_all,
            self.boundaries.as_slice(),
            that.below_all,
            that.boundaries.as_slice(),
        );
        proof {
            if any {
                let k = choose|k: int|
                    SetOp::Intersection.keep(
                        #[trigger] flip_value(self.below_all, self.boundaries@, k),
                        #[trigger] flip_value(that.below_all, that.boundaries@, k),
                    );
                assert(self@.contains(k) && that@.contains(k));
            } else {
                assert forall|k: int| self@.contains(k) implies !that@.contains(k) by {
                    assert(!SetOp::Intersection.keep(
                        flip_value(self.below_all, self.boundaries@, k),
                        flip_value(that.below_all, that.boundaries@, k),
                    ));
                }
            }
        }
        !any
    }

    /// Whether every value of `self` is in `that`.
    pub fn is_subset(&self, that: &Self) -> (r: bool)
        ensures
            r == self@.subset_of(that@),
    {
        proof {
            use_type_invariant(self);
            use_type_invariant(that);
        }
        let any = flip_any(
            SetOp::Except,
            self.below_all,
            self.boundaries.as_slice(),
            that.below_all,
            that.boundaries.as_slice(),
        );
        proof {
            if any {
                let k = choose|k: int|
                    SetOp::Except.keep(
                        #[trigger] flip_value(self.below_all, self.boundaries@, k),
                        #[trigger] flip_value(that.below_all, that.boundaries@, k),
                    );
                assert(self@.contains(k) && !that@.contains(k));
            } else {
                assert forall|k: int| self@.contains(k) implies that@.contains(k) by {
                    assert(!SetOp::Except.keep(
                        flip_value(self.below_all, self.boundaries@, k),
                        flip_value(that.below_all, that.boundaries@, k),
                    ));
                }
            }
        }
        !any
    }

    /// Whether the set holds `value`.
    pub fn contains(&self, value: &T) -> (r: bool)
        ensures
            r == self@.contains(value.key()),
    {
        proof {
            use_type_invariant(self);
        }
        let s = self.boundaries.as_slice();
        match search(s, 0, s.len(), value) {
            Ok(index) => {
                proof {
                    lemma_flip_value_at(self.below_all, self.boundaries@, index + 1, value.key());
                }
                self.below_all != !is_odd(index)
            },
            Err(index) => {
                proof {
                    lemma_flip_value_at(self.below_all, self.boundaries@, index as int, value.key());
                }
                self.below_all != is_odd(index)
            },
        }
    }

    /// The combination of `self` and `that` under `op`.
    fn combine(&self, that: &Self, op: SetOp) -> (r: Self)
        ensures
            r@ == crate::array_set::combined(op, self@, that@),
    {
        proof {
            use_type_invariant(self);
            use_type_invariant(that);
        }
        let below = crate::boundary::apply_op(op, self.below_all, that.below_all);
        let v = flip_merge(op, self.below_all, self.boundaries.as_slice(), that.below_all, that.boundaries.as_slice());
        let r = Self::new(below, v);
        assert(r@ =~= crate::array_set::combined(op, self@, that@));
        r
    }

    /// The values that are in `self` or in `that`.
    pub fn union(&self, that: &Self) -> (r: Self)
        ensures
            r@ == self@.union(that@),
    {
        let r = self.combine(that, SetOp::Union);
        assert(r@ =~= self@.union(that@));
        r
    }

    /// The values that are in both `self` and `that`.
    pub fn intersection(&self, that: &Self) -> (r: Self)
        ensures
            r@ == self@.intersect(that@),
    {
        let r = self.combine(that, SetOp::Intersection);
        assert(r@ =~= self@.intersect(that@));
        r
    }

    /// The values that are in exactly one of `self` and `that`.
    pub fn xor(&self, that: &Self) -> (r: Self)
        ensures
            r@ == self@.difference(that@).union(that@.difference(self@)),
    {
        let r = self.combine(that, SetOp::Xor);
        assert(r@ =~= self@.difference(that@).union(that@.difference(self@)));
        r
    }

    /// The values of `self` that are not in `that`.
    pub fn difference(&self, that: &Self) -> (r: Self)
        ensures
            r@ == self@.difference(that@),
    {
        let r = self.combine(that, SetOp::Except);
        assert(r@ =~= self@.difference(that@));
        r
    }

    /// Adds the values of `that`.
    pub fn union_with(&mut self, that: Self)
        ensures
            final(self)@ == old(self)@.union(that@),
    {
        *self = self.union(&that);
    }

    /// Keeps only the values that are also in `that`.
    pub fn intersection_with(&mut self, that: Self)
        ensures
            final(self)@ == old(self)@.intersect(that@),
    {
        *self = self.intersection(&that);
    }

    /// Keeps the values that are in exactly one of `self` and `that`.
    pub fn xor_with(&mut self, that: Self)
        ensures
            final(self)@ == old(self)@.difference(that@).union(that@.difference(old(self)@)),
    {
        *self = self.xor(&that);
    }

    /// Removes the values of `that`.
    pub fn difference_with(&mut self, that: Self)
        ensures
            final(self)@ == old(self)@.difference(that@),
    {
        *self = self.difference(&that);
    }

    /// The complement of the set.
    pub fn negate(&self) -> (r: Self)
        ensures
            r@ == self@.complement(),
    {
        proof {
            use_type_invariant(self);
        }
        let below_all = self.below_all;
        let boundaries = crate::array_set::copy_vec(&self.boundaries);
        proof {
            assert forall|k: int| flip_value(!below_all, boundaries@, k) == !flip_value(below_all, boundaries@, k) by {
                crate::range_set::lemma_flip_negate(below_all, boundaries@, k);
            }
        }
        let n = Self::new(!below_all, boundaries);
        assert(n@ =~= self@.complement());
        n
    }

    /// The complement of the set, consuming it.
    pub fn into_negated(self) -> (r: Self)
        ensures
            r@ == self@.complement(),
    {
        proof {
            use_type_invariant(&self);
        }
        let RangeSet { below_all, boundaries } = self;
        proof {
            assert forall|k: int| flip_value(!below_all, boundaries@, k) == !flip_value(below_all, boundaries@, k) by {
                crate::range_set::lemma_flip_negate(below_all, boundaries@, k);
            }
        }
        let n = Self::new(!below_all, boundaries);
        assert(n@ =~= self@.complement());
        n
    }

    /// A copy of the set.
    pub fn copy(&self) -> (r: Self)
        ensures
            r@ == self@,
    {
        proof {
            use_type_invariant(self);
        }
        let v = crate::array_set::copy_vec(&self.boundaries);
        Self::new(self.below_all, v)
    }
}

/// Above every boundary, membership is that at the highest key `hi` that a boundary may have;
/// below the lowest key `lo` that a boundary may have, it is `below`.
proof fn lemma_flip_beyond<T: SortKey>(below: bool, s: Seq<T>, lo: int, hi: int, k: int)
    requires
        forall|i: int| 0 <= i < s.len() ==> lo <= #[trigger] s[i].key() <= hi,
    ensures
        k >= hi ==> flip_value(below, s, k) == flip_value(below, s, hi),
        k < lo ==> flip_value(below, s, k) == below,
    decreases s.len(),
{
    if s.len() > 0 {
        let t = s.drop_last();
        assert(s[s.len() - 1].key() <= hi);
        assert forall|i: int| 0 <= i < t.len() implies lo <= #[trigger] t[i].key() <= hi by {
            assert(t[i] == s[i]);
        }
        lemma_flip_beyond(below, t, lo, hi, k);
    }
}

/// Over `i64` values, `is_disjoint` answers whether no value is in both sets. The one
/// exception: both sets hold everything below every boundary, which includes keys below any
/// `i64`, while no `i64` value is in both.
pub proof fn lemma_disjoint_over_i64(a: RangeSet<i64>, b: RangeSet<i64>)
    requires
        !(a.below_flag() && b.below_flag()) || exists|x: i64| #[trigger] a@.contains(x as int) && b@.contains(x as int),
    ensures
        a@.disjoint(b@) <==> forall|x: i64| !(#[trigger] a@.contains(x as int) && b@.contains(x as int)),
{
    if forall|x: i64| !(#[trigger] a@.contains(x as int) && b@.contains(x as int)) {
        assert forall|k: int| a@.contains(k) implies !b@.contains(k) by {
            lemma_flip_beyond(a.below_all, a.boundaries@, i64::MIN as int, i64::MAX as int, k);
            lemma_flip_beyond(b.below_all, b.boundaries@, i64::MIN as int, i64::MAX as int, k);
            if i64::MIN as int <= k <= i64::MAX as int {
                assert(!(a@.contains((k as i64) as int) && b@.contains((k as i64) as int)));
            } else if k > i64::MAX as int {
                assert(!(a@.contains(i64::MAX as int) && b@.contains(i64::MAX as int)));
            }
        }
    }
}

/// Over `i64` values, `is_subset` answers whether every value of `a` is in `b`. The one
/// exception: `a` holds everything below every boundary and `b` does not, which differ on keys
/// below any `i64`, while every `i64` value of `a` is in `b`.
pub proof fn lemma_subset_over_i64(a: RangeSet<i64>, b: RangeSet<i64>)
    requires
        !(a.below_flag() && !b.below_flag()) || exists|x: i64| #[trigger] a@.contains(x as int) && !b@.contains(x as int),
    ensures
        a@.subset_of(b@) <==> forall|x: i64| #[trigger] a@.contains(x as int) ==> b@.contains(x as int),
{
    if forall|x: i64| #[trigger] a@.contains(x as int) ==> b@.contains(x as int) {
        assert forall|k: int| a@.contains(k) implies b@.contains(k) by {
            lemma_flip_beyond(a.below_all, a.boundaries@, i64::MIN as int, i64::MAX as int, k);
            lemma_flip_beyond(b.below_all, b.boundaries@, i64::MIN as int, i64::MAX as int, k);
            if i64::MIN as int <= k <= i64::MAX as int {
                assert(a@.contains((k as i64) as int) ==> b@.contains((k as i64) as int));
            } else if k > i64::MAX as int {
                assert(a@.contains(i64::MAX as int) ==> b@.contains(i64::MAX as int));
            }
        }
    }
}

/// Over `i32` values, `is_disjoint` answers whether no value is in both sets. The one
/// exception: both sets hold everything below every boundary, which includes keys below any
/// `i32`, while no `i32` value is in both.
pub proof fn lemma_disjoint_over_i32(a: RangeSet<i32>, b: RangeSet<i32>)
    requires
        !(a.below_flag() && b.below_flag()) || exists|x: i32| #[trigger] a@.contains(x as int) && b@.contains(x as int),
    ensures
        a@.disjoint(b@) <==> forall|x: i32| !(#[trigger] a@.contains(x as int) && b@.contains(x as int)),
{
    if forall|x: i32| !(#[trigger] a@.contains(x as int) && b@.contains(x as int)) {
        assert forall|k: int| a@.contains(k) implies !b@.contains(k) by {
            lemma_flip_beyond(a.below_all, a.boundaries@, i32::MIN as int, i32::MAX as int, k);
            lemma_flip_beyond(b.below_all, b.boundaries@, i32::MIN as int, i32::MAX as int, k);
            if i32::MIN as int <= k <= i32::MAX as int {
                assert(!(a@.contains((k as i32) as int) && b@.contains((k as i32) as int)));
            } else if k > i32::MAX as int {
                assert(!(a@.contains(i32::MAX as int) && b@.contains(i32::MAX as int)));
            }
        }
    }
}

/// Over `i32` values, `is_subset` answers whether every value of `a` is in `b`. The one
/// exception: `a` holds everything below every boundary and `b` does not, which differ on keys
/// below any `i32`, while every `i32` value of `a` is in `b`.
pub proof fn lemma_subset_over_i32(a: RangeSet<i32>, b: RangeSet<i32>)
    requires
        !(a.below_flag() && !b.below_flag()) || exists|x: i32| #[trigger] a@.contains(x as int) && !b@.contains(x as int),
    ensures
        a@.subset_of(b@) <==> forall|x: i32| #[trigger] a@.contains(x as int) ==> b@.contains(x as int),
{
    if forall|x: i32| #[trigger] a@.contains(x as int) ==> b@.contains(x as int) {
        assert forall|k: int| a@.contains(k) implies b@.contains(k) by {
            lemma_flip_beyond(a.below_all, a.boundaries@, i32::MIN as int, i32::MAX as int, k);
            lemma_flip_beyond(b.below_all, b.boundaries@, i32::MIN as int, i32::MAX as int, k);
            if i32::MIN as int <= k <= i32::MAX as int {
                assert(a@.contains((k as i32) as int) ==> b@.contains((k as i32) as int));
            } else if k > i32::MAX as int {
                assert(a@.contains(i32::MAX as int) ==> b@.contains(i32::MAX as int));
            }
        }
    }
}

/// Negating the flag negates membership of every value.
pub proof fn lemma_flip_negate<T: SortKey>(below: bool, s: Seq<T>, k: int)
    ensures
        flip_value(!below, s, k) == !flip_value(below, s, k),
    decreases s.len(),
{
    if s.len() > 0 && s.last().key() > k {
        lemma_flip_negate(below, s.drop_last(), k);
    }
}

impl<T: SortKey> Clone for RangeSet<T> {
    fn clone(&self) -> (r: Self)
        ensures
            r@ == self@,
    {
        self.copy()
    }
}

impl<T: SortKey> From<Range<T>> for RangeSet<T> {
    fn from(value: Range<T>) -> (r: Self)
        ensures
            r@ == Set::new(|k: int| value.start.key() <= k < value.end.key()),
    {
        Self::from_range(value.start, value.end)
    }
}

impl<T: SortKey> From<RangeFrom<T>> for RangeSet<T> {
    fn from(value: RangeFrom<T>) -> (r: Self)
        ensures
            r@ == Set::new(|k: int| value.start.key() <= k),
    {
        Self::from_range_from(value.start)
    }
}

impl<T: SortKey> From<RangeTo<T>> for RangeSet<T> {
    fn from(value: RangeTo<T>) -> (r: Self)
        ensures
            r@ == Set::new(|k: int| k < value.end.key()),
    {
        Self::from_range_until(value.end)
    }
}

impl<T: SortKey> vstd::std_specs::convert::FromSpecImpl<Range<T>> for RangeSet<T> {
    /// The result is described by the `ensures` of `from` alone.
    open spec fn obeys_from_spec() -> bool {
        false
    }

    closed spec fn from_spec(v: Range<T>) -> Self {
        vstd::pervasive::arbitrary()
    }
}

impl<T: SortKey> vstd::std_specs::convert::FromSpecImpl<RangeFrom<T>> for RangeSet<T> {
    /// The result is described by the `ensures` of `from` alone.
    open spec fn obeys_from_spec() -> bool {
        false
    }

    closed spec fn from_spec(v: RangeFrom<T>) -> Self {
        vstd::pervasive::arbitrary()
    }
}

impl<T: SortKey> vstd::std_specs::convert::FromSpecImpl<RangeTo<T>> for RangeSet<T> {
    /// The result is described by the `ensures` of `from` alone.
    open spec fn obeys_from_spec() -> bool {
        false
    }

    closed spec fn from_spec(v: RangeTo<T>) -> Self {
        vstd::pervasive::arbitrary()
    }
}

impl<T: SortKey> BitAndAssign for RangeSet<T> {
    fn bitand_assign(&mut self, rhs: RangeSet<T>)
        ensures
            final(self)@ == old(self)@.intersect(rhs@),
    {
        self.intersection_with(rhs)
    }
}

impl<'a, T: SortKey> BitAnd for &'a RangeSet<T> {
    type Output = RangeSet<T>;

    fn bitand(self, rhs: &'a RangeSet<T>) -> (r: RangeSet<T>)
        ensures
            r@ == self@.intersect(rhs@),
    {
        self.intersection(rhs)
    }
}

impl<'a, T: SortKey> vstd::std_specs::ops::BitAndSpecImpl for &'a RangeSet<T> {
    /// The result is described by the `ensures` of `bitand` alone.
    open spec fn obeys_bitand_spec() -> bool {
        false
    }

    open spec fn bitand_req(self, rhs: &'a RangeSet<T>) -> bool {
        true
    }

    open spec fn bitand_spec(self, rhs: &'a RangeSet<T>) -> RangeSet<T> {
        *self
    }
}

impl<T: SortKey> BitOrAssign for RangeSet<T> {
    fn bitor_assign(&mut self, rhs: RangeSet<T>)
        ensures
            final(self)@ == old(self)@.union(rhs@),
    {
        self.union_with(rhs)
    }
}

impl<'a, T: SortKey> BitOr for &'a RangeSet<T> {
    type Output = RangeSet<T>;

    fn bitor(self, rhs: &'a RangeSet<T>) -> (r: RangeSet<T>)
        ensures
            r@ == self@.union(rhs@),
    {
        self.union(rhs)
    }
}

impl<'a, T: SortKey> vstd::std_specs::ops::BitOrSpecImpl for &'a RangeSet<T> {
    /// The result is described by the `ensures` of `bitor` alone.
    open spec fn obeys_bitor_spec() -> bool {
        false
    }

    open spec fn bitor_req(self, rhs: &'a RangeSet<T>) -> bool {
        true
    }

    open spec fn bitor_spec(self, rhs: &'a RangeSet<T>) -> RangeSet<T> {
        *self
    }
}

impl<T: SortKey> BitXorAssign for RangeSet<T> {
    fn bitxor_assign(&mut self, rhs: RangeSet<T>)
        ensures
            final(self)@ == old(self)@.difference(rhs@).union(rhs@.difference(old(self)@)),
    {
        self.xor_with(rhs)
    }
}

impl<'a, T: SortKey> BitXor for &'a RangeSet<T> {
    type Output = RangeSet<T>;

    fn bitxor(self, rhs: &'a RangeSet<T>) -> (r: RangeSet<T>)
        ensures
            r@ == self@.difference(rhs@).union(rhs@.difference(self@)),
    {
        self.xor(rhs)
    }
}

impl<'a, T: SortKey> vstd::std_specs::ops::BitXorSpecImpl for &'a RangeSet<T> {
    /// The result is described by the `ensures` of `bitxor` alone.
    open spec fn obeys_bitxor_spec() -> bool {
        false
    }

    open spec fn bitxor_req(self, rhs: &'a RangeSet<T>) -> bool {
        true
    }

    open spec fn bitxor_spec(self, rhs: &'a RangeSet<T>) -> RangeSet<T> {
        *self
    }
}

impl<T: SortKey> SubAssign for RangeSet<T> {
    fn sub_assign(&mut self, rhs: RangeSet<T>)
        ensures
            final(self)@ == old(self)@.difference(rhs@),
    {
        self.difference_with(rhs)
    }
}

impl<'a, T: SortKey> Sub for &'a RangeSet<T> {
    type Output = RangeSet<T>;

    fn sub(self, rhs: &'a RangeSet<T>) -> (r: RangeSet<T>)
        ensures
            r@ == self@.difference(rhs@),
    {
        self.difference(rhs)
    }
}

impl<'a, T: SortKey> vstd::std_specs::ops::SubSpecImpl for &'a RangeSet<T> {
    /// The result is described by the `ensures` of `sub` alone.
    open spec fn obeys_sub_spec() -> bool {
        false
    }

    open spec fn sub_req(self, rhs: &'a RangeSet<T>) -> bool {
        true
    }

    open spec fn sub_spec(self, rhs: &'a RangeSet<T>) -> RangeSet<T> {
        *self
    }
}

impl<'a, T: SortKey> Not for &'a RangeSet<T> {
    type Output = RangeSet<T>;

    fn not(self) -> (r: RangeSet<T>)
        ensures
            r@ == self@.complement(),
    {
        self.negate()
    }
}

impl<'a, T: SortKey> vstd::std_specs::ops::NotSpecImpl for &'a RangeSet<T> {
    /// The result is described by the `ensures` of `not` alone.
    open spec fn obeys_not_spec() -> bool {
        false
    }

    open spec fn not_req(self) -> bool {
        true
    }

    open spec fn not_spec(self) -> RangeSet<T> {
        *self
    }
}

impl<T: SortKey> Not for RangeSet<T> {
    type Output = RangeSet<T>;

    fn not(self) -> (r: RangeSet<T>)
        ensures
            r@ == self@.complement(),
    {
        self.into_negated()
    }
}

impl<T: SortKey> vstd::std_specs::ops::NotSpecImpl for RangeSet<T> {
    /// The result is described by the `ensures` of `not` alone.
    open spec fn obeys_not_spec() -> bool {
        false
    }

    open spec fn not_req(self) -> bool {
        true
    }

    open spec fn not_spec(self) -> RangeSet<T> {
        self
    }
}

} // verus!

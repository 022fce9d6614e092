//! The algebra that the set types of this crate obey.
//!
//! Every set type here (`ArraySet`, `TotalArraySet`, `RangeSet`, `IntervalSeq`,
//! `CountableIntervalSet`) specifies its operations by their effect on a `Set<int>` view, and
//! stores a given set in exactly one way (each type's `lemma_canonical`). A law proved here of
//! the views is therefore a law of the values themselves: two results with equal views are
//! equal element for element.
use vstd::prelude::*;

verus! {

/// The elements that are in exactly one of `a` and `b`.
pub open spec fn symmetric_difference(a: Set<int>, b: Set<int>) -> Set<int> {
    a.difference(b).union(b.difference(a))
}

/// Union, intersection and symmetric difference do not depend on the order of their operands.
pub proof fn lemma_symmetric(a: Set<int>, b: Set<int>)
    ensures
        a.union(b) == b.union(a),
        a.intersect(b) == b.intersect(a),
        symmetric_difference(a, b) == symmetric_difference(b, a),
{
    assert(a.union(b) =~= b.union(a));
    assert(a.intersect(b) =~= b.intersect(a));
    assert(symmetric_difference(a, b) =~= symmetric_difference(b, a));
}

/// The empty set is neutral for union, symmetric difference and difference, and absorbing for
/// intersection, on either side.
pub proof fn lemma_empty_neutral(a: Set<int>)
    ensures
        a.intersect(Set::empty()) == Set::<int>::empty(),
        Set::empty().intersect(a) == Set::<int>::empty(),
        a.union(Set::empty()) == a,
        Set::empty().union(a) == a,
        symmetric_difference(a, Set::empty()) == a,
        symmetric_difference(Set::empty(), a) == a,
        a.difference(Set::empty()) == a,
{
    assert(a.intersect(Set::empty()) =~= Set::<int>::empty());
    assert(Set::empty().intersect(a) =~= Set::<int>::empty());
    assert(a.union(Set::empty()) =~= a);
    assert(Set::empty().union(a) =~= a);
    assert(symmetric_difference(a, Set::empty()) =~= a);
    assert(symmetric_difference(Set::empty(), a) =~= a);
    assert(a.difference(Set::empty()) =~= a);
}

/// The full set is neutral for intersection and absorbing for union; combining it with `a` by
/// symmetric difference, or taking `a` away from it, gives the complement of `a`.
pub proof fn lemma_full(a: Set<int>)
    ensures
        a.intersect(Set::full()) == a,
        Set::full().intersect(a) == a,
        a.union(Set::full()) == Set::<int>::full(),
        Set::full().union(a) == Set::<int>::full(),
        symmetric_difference(Set::full(), a) == a.complement(),
        symmetric_difference(a, Set::full()) == a.complement(),
        Set::full().difference(a) == a.complement(),
{
    assert(a.intersect(Set::full()) =~= a);
    assert(Set::full().intersect(a) =~= a);
    assert(a.union(Set::full()) =~= Set::<int>::full());
    assert(Set::full().union(a) =~= Set::<int>::full());
    assert(symmetric_difference(Set::full(), a) =~= a.complement());
    assert(symmetric_difference(a, Set::full()) =~= a.complement());
    assert(Set::full().difference(a) =~= a.complement());
}

/// Negating twice gives the set back.
pub proof fn lemma_double_complement(a: Set<int>)
    ensures
        a.complement().complement() == a,
{
    assert(a.complement().complement() =~= a);
}

/// Taking `b` away from `a` is intersecting `a` with the complement of `b`.
pub proof fn lemma_difference_as_intersection(a: Set<int>, b: Set<int>)
    ensures
        a.difference(b) == a.intersect(b.complement()),
{
    assert(a.difference(b) =~= a.intersect(b.complement()));
}

/// Two sets are disjoint exactly when their intersection is empty.
pub proof fn lemma_disjoint_iff_empty_intersection(a: Set<int>, b: Set<int>)
    ensures
        a.disjoint(b) <==> a.intersect(b) == Set::<int>::empty(),
{
    if a.intersect(b) == Set::<int>::empty() {
        assert forall|k: int| a.contains(k) implies !b.contains(k) by {
            assert(!a.intersect(b).contains(k));
        }
    }
    if a.disjoint(b) {
        assert(a.intersect(b) =~= Set::<int>::empty());
    }
}

/// `a` is a subset of `b` exactly when intersecting it with `b` leaves it unchanged.
pub proof fn lemma_subset_iff_intersection(a: Set<int>, b: Set<int>)
    ensures
        a.subset_of(b) <==> a.intersect(b) == a,
{
    if a.intersect(b) == a {
        assert forall|k: int| a.contains(k) implies b.contains(k) by {
            assert(a.intersect(b).contains(k));
        }
    }
    if a.subset_of(b) {
        assert(a.intersect(b) =~= a);
    }
}

/// De Morgan: the complement of a union is the intersection of the complements, and the other
/// way round.
pub proof fn lemma_de_morgan(a: Set<int>, b: Set<int>)
    ensures
        a.union(b).complement() == a.complement().intersect(b.complement()),
        a.intersect(b).complement() == a.complement().union(b.complement()),
{
    assert(a.union(b).complement() =~= a.complement().intersect(b.complement()));
    assert(a.intersect(b).complement() =~= a.complement().union(b.complement()));
}

} // verus!

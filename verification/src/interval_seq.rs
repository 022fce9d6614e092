//! A set of values described by ascending boundary values, each with what holds at it and
//! right above it.
//!
//! An interval sequence can hold single points, open, half-open and closed intervals, rays and
//! everything, and it supports negation and the boolean operations. It describes a set of
//! keys that may be infinite.
use vstd::prelude::*;
use std::ops::{BitAnd, BitOr, BitXor, Not};
use crate::key::SortKey;
use crate::sorted::{search, sorted};
use crate::kind::Kind;
use crate::interval::{Bound, Interval, above_point, below_point};

verus! {

/// Membership right below boundary `i` (right above boundary `i - 1`, or below all).
pub open spec fn below_index(below: bool, kinds: Seq<Kind>, i: int) -> bool {
    if i <= 0 {
        below
    } else {
        kinds[i - 1].above()
    }
}

/// Whether `k` is in the set that `below`, the boundary values `vals` and their `kinds` describe.
pub open spec fn seq_value<T: SortKey>(below: bool, vals: Seq<T>, kinds: Seq<Kind>, k: int) -> bool
    decreases vals.len(),
{
    if vals.len() == 0 {
        below
    } else if 2 * vals.last().key() < k {
        kinds[vals.len() - 1].above()
    } else if 2 * vals.last().key() == k {
        kinds[vals.len() - 1].at()
    } else {
        seq_value(below, vals.drop_last(), kinds.drop_last(), k)
    }
}

/// One kind per value, values ascending, and no boundary that changes nothing.
pub open spec fn well_formed<T: SortKey>(below: bool, vals: Seq<T>, kinds: Seq<Kind>) -> bool {
    &&& vals.len() == kinds.len()
    &&& sorted(vals)
    &&& forall|i: int|
        0 <= i < kinds.len() ==> #[trigger] kinds[i] != Kind::of(
            below_index(below, kinds, i),
            below_index(below, kinds, i),
        )
}

/// Between boundary `i - 1` and boundary `i`, membership is what holds right below boundary `i`.
pub proof fn lemma_value_between<T: SortKey>(below: bool, vals: Seq<T>, kinds: Seq<Kind>, i: int, k: int)
    requires
        sorted(vals),
        vals.len() == kinds.len(),
        0 <= i <= vals.len(),
        i == 0 || 2 * vals[i - 1].key() < k,
        i == vals.len() || k < 2 * vals[i].key(),
    ensures
        seq_value(below, vals, kinds, k) == below_index(below, kinds, i),
    decreases vals.len(),
{
    if vals.len() == 0 || i == vals.len() {
    } else {
        let t = vals.drop_last();
        let tk = kinds.drop_last();
        assert(2 * vals.last().key() > k) by {
            if i < vals.len() - 1 {
                assert(vals[i].key() < vals[vals.len() - 1].key());
            }
        }
        assert(sorted(t)) by {
            assert forall|x: int, y: int| 0 <= x < y < t.len() implies #[trigger] t[x].key()
                < #[trigger] t[y].key() by {
                assert(t[x] == vals[x] && t[y] == vals[y]);
            }
        }
        if i > 0 {
            assert(t[i - 1] == vals[i - 1]);
            assert(tk[i - 1] == kinds[i - 1]);
        }
        if i < t.len() {
            assert(t[i] == vals[i]);
        }
        lemma_value_between(below, t, tk, i, k);
    }
}

/// At boundary `i`, membership is what its kind says.
pub proof fn lemma_value_at<T: SortKey>(below: bool, vals: Seq<T>, kinds: Seq<Kind>, i: int)
    requires
        sorted(vals),
        vals.len() == kinds.len(),
        0 <= i < vals.len(),
    ensures
        seq_value(below, vals, kinds, 2 * vals[i].key()) == kinds[i].at(),
    decreases vals.len(),
{
    if i == vals.len() - 1 {
    } else {
        let t = vals.drop_last();
        let tk = kinds.drop_last();
        assert(vals[i].key() < vals[vals.len() - 1].key());
        assert(sorted(t)) by {
            assert forall|x: int, y: int| 0 <= x < y < t.len() implies #[trigger] t[x].key()
                < #[trigger] t[y].key() by {
                assert(t[x] == vals[x] && t[y] == vals[y]);
            }
        }
        assert(t[i] == vals[i]);
        assert(tk[i] == kinds[i]);
        lemma_value_at(below, t, tk, i);
    }
}

/// Whether the set `s` of half steps changes at `d`: `d` stands for a value, and `s` does not
/// hold the same right below it, at it and right above it.
pub open spec fn is_edge(s: Set<int>, d: int) -> bool {
    d % 2 == 0 && !(s.contains(d - 1) == s.contains(d) && s.contains(d) == s.contains(d + 1))
}

/// Whether the half step `d` lies above `after`; every half step lies above `None`.
pub open spec fn lies_above(after: Option<int>, d: int) -> bool {
    match after {
        Some(a) => a < d,
        None => true,
    }
}

/// `next` is the lowest edge of `s` above `after`, or `None` when `s` has no edge above it.
pub open spec fn next_edge(s: Set<int>, after: Option<int>, next: Option<int>) -> bool {
    match next {
        Some(v) => is_edge(s, v) && lies_above(after, v) && forall|u: int|
            #[trigger] is_edge(s, u) && lies_above(after, u) ==> v <= u,
        None => forall|u: int| #[trigger] is_edge(s, u) ==> !lies_above(after, u),
    }
}

/// The lowest maximal run of `s`: the half steps of `s` with no gap of `s` below them.
pub open spec fn first_run(s: Set<int>) -> Set<int> {
    Set::new(
        |d: int|
            s.contains(d) && !exists|c: int, e: int| #![trigger s.contains(c), s.contains(e)] c < e < d
                && s.contains(c) && !s.contains(e),
    )
}

/// A nonempty interval inside `rest` that lies more than a half step below all of the
/// remainder `after` is the lowest maximal run of `rest`.
pub proof fn lemma_first_run<T: SortKey>(iv: Interval<T>, rest: Set<int>, after: Set<int>)
    requires
        exists|d: int| #[trigger] iv.holds(d),
        forall|d: int| #[trigger] iv.holds(d) ==> rest.contains(d),
        after == rest.difference(iv@),
        forall|d: int, e: int| #[trigger] iv.holds(d) && #[trigger] after.contains(e) ==> d + 1 < e,
    ensures
        iv@ == first_run(rest),
{
    assert forall|d: int| #[trigger] iv@.contains(d) == first_run(rest).contains(d) by {
        if iv.holds(d) {
            if exists|c: int, e: int| #![trigger rest.contains(c), rest.contains(e)] c < e < d && rest.contains(c)
                && !rest.contains(e) {
                let (c, e) = choose|c: int, e: int| #![trigger rest.contains(c), rest.contains(e)] c < e < d
                    && rest.contains(c) && !rest.contains(e);
                if iv.holds(c) {
                    assert(iv.holds(e));
                } else {
                    assert(after.contains(c));
                }
            }
        } else if rest.contains(d) {
            assert(after.contains(d));
            let x = choose|x: int| #[trigger] iv.holds(x);
            assert(x + 1 < d);
            let m: int = match iv {
                Interval::Point(p) => 2 * p.key(),
                Interval::Below(p, pi) => if pi { 2 * p.key() } else { 2 * p.key() - 1 },
                Interval::Bounded(_, _, q, qi) => if qi { 2 * q.key() } else { 2 * q.key() - 1 },
                _ => x,
            };
            assert(iv.holds(m) && !iv.holds(m + 1));
            assert(m + 1 < d);
            assert(!after.contains(m + 1));
            assert(rest.contains(m) && !rest.contains(m + 1));
        }
    }
    assert(iv@ =~= first_run(rest));
}

/// A half step that stands for no boundary lies in a gap between two neighbouring boundaries.
proof fn lemma_gap<T: SortKey>(vals: Seq<T>, d: int) -> (j: int)
    requires
        sorted(vals),
        forall|i: int| 0 <= i < vals.len() ==> 2 * #[trigger] vals[i].key() != d,
    ensures
        0 <= j <= vals.len(),
        j == 0 || 2 * vals[j - 1].key() < d,
        j == vals.len() || d < 2 * vals[j].key(),
    decreases vals.len(),
{
    if vals.len() == 0 {
        0
    } else if 2 * vals[vals.len() - 1].key() < d {
        vals.len() as int
    } else {
        let t = vals.drop_last();
        assert(sorted(t)) by {
            assert forall|x: int, y: int| 0 <= x < y < t.len() implies #[trigger] t[x].key()
                < #[trigger] t[y].key() by {
                assert(t[x] == vals[x] && t[y] == vals[y]);
            }
        }
        assert forall|i: int| 0 <= i < t.len() implies 2 * #[trigger] t[i].key() != d by {
            assert(t[i] == vals[i]);
        }
        let j = lemma_gap(t, d);
        if j < t.len() {
            assert(t[j] == vals[j]);
        }
        if j > 0 {
            assert(t[j - 1] == vals[j - 1]);
        }
        assert(2 * vals[vals.len() - 1].key() != d);
        j
    }
}

/// The edges of a well formed sequence are exactly its boundary values.
pub proof fn lemma_edges<T: SortKey>(below: bool, vals: Seq<T>, kinds: Seq<Kind>, d: int)
    requires
        well_formed(below, vals, kinds),
    ensures
        (d % 2 == 0 && !(seq_value(below, vals, kinds, d - 1) == seq_value(below, vals, kinds, d)
            && seq_value(below, vals, kinds, d) == seq_value(below, vals, kinds, d + 1)))
            <==> exists|j: int| 0 <= j < vals.len() && d == 2 * #[trigger] vals[j].key(),
{
    if exists|j: int| 0 <= j < vals.len() && d == 2 * #[trigger] vals[j].key() {
        let j = choose|j: int| 0 <= j < vals.len() && d == 2 * #[trigger] vals[j].key();
        lemma_value_at(below, vals, kinds, j);
        if j > 0 {
            assert(vals[j - 1].key() < vals[j].key());
        }
        lemma_value_between(below, vals, kinds, j, d - 1);
        if j + 1 < vals.len() {
            assert(vals[j].key() < vals[j + 1].key());
        }
        lemma_value_between(below, vals, kinds, j + 1, d + 1);
        let k = kinds[j];
        assert(k != Kind::of(below_index(below, kinds, j), below_index(below, kinds, j)));
        assert(k == Kind::of(k.at(), k.above()));
    } else if d % 2 == 0 {
        let j = lemma_gap(vals, d);
        lemma_value_between(below, vals, kinds, j, d - 1);
        lemma_value_between(below, vals, kinds, j, d);
        lemma_value_between(below, vals, kinds, j, d + 1);
    }
}

/// Appending a boundary changes nothing below it.
pub proof fn lemma_value_push<T: SortKey>(below: bool, vals: Seq<T>, kinds: Seq<Kind>, v: T, kd: Kind, k: int)
    requires
        vals.len() == kinds.len(),
    ensures
        seq_value(below, vals.push(v), kinds.push(kd), k) == (if 2 * v.key() < k {
            kd.above()
        } else if 2 * v.key() == k {
            kd.at()
        } else {
            seq_value(below, vals, kinds, k)
        }),
{
    assert(vals.push(v).drop_last() =~= vals);
    assert(kinds.push(kd).drop_last() =~= kinds);
}

/// The prefix of a well-formed interval sequence is well formed.
proof fn lemma_prefix_well_formed<T: SortKey>(below: bool, vals: Seq<T>, kinds: Seq<Kind>)
    requires
        well_formed(below, vals, kinds),
        vals.len() > 0,
    ensures
        well_formed(below, vals.drop_last(), kinds.drop_last()),
{
    let t = vals.drop_last();
    let tk = kinds.drop_last();
    assert(sorted(t)) by {
        assert forall|x: int, y: int| 0 <= x < y < t.len() implies #[trigger] t[x].key() < #[trigger] t[y].key() by {
            assert(t[x] == vals[x] && t[y] == vals[y]);
        }
    }
    assert forall|i: int| 0 <= i < tk.len() implies #[trigger] tk[i] != Kind::of(
        below_index(below, tk, i),
        below_index(below, tk, i),
    ) by {
        assert(tk[i] == kinds[i]);
        assert(below_index(below, tk, i) == below_index(below, kinds, i)) by {
            if i > 0 {
                assert(tk[i - 1] == kinds[i - 1]);
            }
        }
    }
}

/// The kind of a boundary is what holds at it and right above it.
proof fn lemma_kind_of_values<T: SortKey>(below: bool, vals: Seq<T>, kinds: Seq<Kind>, i: int)
    requires
        well_formed(below, vals, kinds),
        0 <= i < vals.len(),
    ensures
        kinds[i] == Kind::of(seq_value(below, vals, kinds, 2 * vals[i].key()), seq_value(below, vals, kinds, 2 * vals[i].key() + 1)),
{
    lemma_value_at(below, vals, kinds, i);
    if i + 1 < vals.len() {
        assert(vals[i].key() < vals[i + 1].key());
    }
    lemma_value_between(below, vals, kinds, i + 1, 2 * vals[i].key() + 1);
    kinds[i].lemma_of();
}

/// Membership changes around the value `v` exactly where `v` is a boundary.
proof fn lemma_value_change<T: SortKey>(below: bool, vals: Seq<T>, kinds: Seq<Kind>, v: int)
    requires
        well_formed(below, vals, kinds),
    ensures
        crate::sorted::key_set(vals).contains(v) <==> !(seq_value(below, vals, kinds, 2 * v - 1) == seq_value(
            below,
            vals,
            kinds,
            2 * v,
        ) && seq_value(below, vals, kinds, 2 * v) == seq_value(below, vals, kinds, 2 * v + 1)),
    decreases vals.len(),
{
    let n = vals.len();
    if n > 0 {
        let t = vals.drop_last();
        let tk = kinds.drop_last();
        let l = vals.last().key();
        if l < v {
            if crate::sorted::key_set(vals).contains(v) {
                let i = choose|i: int| 0 <= i < vals.len() && #[trigger] vals[i].key() == v;
                if i < n - 1 {
                    assert(vals[i].key() < vals[n - 1].key());
                }
            }
        } else if l == v {
            assert(vals[n - 1].key() == v);
            assert(crate::sorted::key_set(vals).contains(v));
            if n > 1 {
                assert(vals[n - 2].key() < vals[n - 1].key());
            }
            lemma_value_between(below, vals, kinds, n - 1, 2 * v - 1);
            assert(kinds[n - 1] != Kind::of(below_index(below, kinds, n - 1), below_index(below, kinds, n - 1)));
            kinds[n - 1].lemma_of();
        } else {
            lemma_prefix_well_formed(below, vals, kinds);
            lemma_value_change(below, t, tk, v);
            assert(crate::sorted::key_set(vals).contains(v) == crate::sorted::key_set(t).contains(v)) by {
                if crate::sorted::key_set(vals).contains(v) {
                    let i = choose|i: int| 0 <= i < vals.len() && #[trigger] vals[i].key() == v;
                    assert(i < n - 1);
                    assert(t[i].key() == v);
                }
                if crate::sorted::key_set(t).contains(v) {
                    let i = choose|i: int| 0 <= i < t.len() && #[trigger] t[i].key() == v;
                    assert(vals[i].key() == v);
                }
            }
        }
    }
}

/// The boolean operation that combines two interval sequences.
#[derive(Clone, Copy, Debug, PartialEq, Eq, Structural)]
pub enum BoolOp {
    /// both
    And,
    /// either
    Or,
    /// exactly one
    Xor,
}

impl BoolOp {
    /// The operation on two booleans.
    pub open spec fn apply(self, a: bool, b: bool) -> bool {
        match self {
            BoolOp::And => a && b,
            BoolOp::Or => a || b,
            BoolOp::Xor => a != b,
        }
    }

    /// The operation on both memberships of two kinds.
    pub open spec fn kind(self, a: Kind, b: Kind) -> Kind {
        Kind::of(self.apply(a.at(), b.at()), self.apply(a.above(), b.above()))
    }

    /// The operation on two booleans.
    pub fn exec_apply(self, a: bool, b: bool) -> (r: bool)
        ensures
            r == self.apply(a, b),
    {
        match self {
            BoolOp::And => a && b,
            BoolOp::Or => a || b,
            BoolOp::Xor => a != b,
        }
    }

    /// The operation on both memberships of two kinds.
    pub fn exec_kind(self, a: Kind, b: Kind) -> (r: Kind)
        ensures
            r == self.kind(a, b),
    {
        match self {
            BoolOp::And => a & b,
            BoolOp::Or => a | b,
            BoolOp::Xor => a ^ b,
        }
    }
}

/// An interval sequence under construction: boundaries are appended in ascending order.
struct Builder<T: SortKey> {
    below_all: bool,
    values: Vec<T>,
    kinds: Vec<Kind>,
}

impl<T: SortKey> Builder<T> {
    /// Membership above the last boundary.
    spec fn spec_above_all(&self) -> bool {
        below_index(self.below_all, self.kinds@, self.kinds@.len() as int)
    }

    /// The set described so far.
    spec fn value(&self, k: int) -> bool {
        seq_value(self.below_all, self.values@, self.kinds@, k)
    }

    /// Every boundary so far lies below `k`.
    spec fn below(&self, k: int) -> bool {
        forall|x: int| 0 <= x < self.values@.len() ==> #[trigger] self.values@[x].key() < k
    }

    /// Membership above the last boundary.
    fn above_all(&self) -> (r: bool)
        requires
            self.values@.len() == self.kinds@.len(),
        ensures
            r == self.spec_above_all(),
    {
        if self.kinds.len() == 0 {
            self.below_all
        } else {
            self.kinds[self.kinds.len() - 1].value_above()
        }
    }

    /// Appends the boundary `value` with `kind`, unless it would change nothing.
    fn append(&mut self, value: T, kind: Kind)
        requires
            well_formed(old(self).below_all, old(self).values@, old(self).kinds@),
            old(self).below(value.key()),
        ensures
            well_formed(final(self).below_all, final(self).values@, final(self).kinds@),
            final(self).below_all == old(self).below_all,
            final(self).spec_above_all() == kind.above(),
            forall|k: int| k < 2 * value.key() ==> #[trigger] final(self).value(k) == old(self).value(k),
            final(self).value(2 * value.key()) == kind.at(),
            forall|k: int| k > 2 * value.key() ==> #[trigger] final(self).value(k) == kind.above(),
            forall|k: int| k > value.key() ==> final(self).below(k),
    {
        let current = self.above_all();
        let ghost old_vals = self.values@;
        let ghost old_kinds = self.kinds@;
        if (current && kind != Kind::K11) || (!current && kind != Kind::K00) {
            self.values.push(value);
            self.kinds.push(kind);
            proof {
                assert forall|k: int| #[trigger] self.value(k) == (if 2 * value.key() < k {
                    kind.above()
                } else if 2 * value.key() == k {
                    kind.at()
                } else {
                    seq_value(self.below_all, old_vals, old_kinds, k)
                }) by {
                    lemma_value_push(self.below_all, old_vals, old_kinds, value, kind, k);
                }
                assert(sorted(self.values@)) by {
                    assert forall|x: int, y: int| 0 <= x < y < self.values@.len() implies #[trigger] self.values@[x].key()
                        < #[trigger] self.values@[y].key() by {
                        if y == old_vals.len() {
                            assert(self.values@[x] == old_vals[x]);
                        } else {
                            assert(self.values@[x] == old_vals[x]);
                            assert(self.values@[y] == old_vals[y]);
                        }
                    }
                }
                assert forall|i: int| 0 <= i < self.kinds@.len() implies #[trigger] self.kinds@[i] != Kind::of(
                    below_index(self.below_all, self.kinds@, i),
                    below_index(self.below_all, self.kinds@, i),
                ) by {
                    if i < old_kinds.len() {
                        assert(self.kinds@[i] == old_kinds[i]);
                        if i > 0 {
                            assert(self.kinds@[i - 1] == old_kinds[i - 1]);
                        }
                        assert(old_kinds[i] != Kind::of(
                            below_index(self.below_all, old_kinds, i),
                            below_index(self.below_all, old_kinds, i),
                        ));
                    } else {
                        if i > 0 {
                            assert(self.kinds@[i - 1] == old_kinds[i - 1]);
                        }
                    }
                }
            }
        } else {
            proof {
                assert forall|k: int| k >= 2 * value.key() implies #[trigger] self.value(k) == current by {
                    if old_vals.len() > 0 {
                        lemma_value_between(self.below_all, old_vals, old_kinds, old_vals.len() as int, k);
                    }
                }
                assert(kind == Kind::of(current, current));
            }
        }
    }
}

/// A set of values described by ascending boundary values with their kinds.
///
/// Its view is the set of keys that it holds, which may be infinite.
#[derive(Debug)]
pub struct IntervalSeq<T: SortKey> {
    below_all: bool,
    values: Vec<T>,
    kinds: Vec<Kind>,
}

impl<T: SortKey> View for IntervalSeq<T> {
    type V = Set<int>;

    closed spec fn view(&self) -> Set<int> {
        Set::new(|k: int| self.val(k))
    }
}

impl<T: SortKey> IntervalSeq<T> {
    /// One kind per boundary, boundaries ascending, and no boundary that changes nothing.
    #[verifier::type_invariant]
    pub closed spec fn valid(self) -> bool {
        well_formed(self.below_all, self.values@, self.kinds@)
    }

    /// Whether the set holds the values below every boundary.
    pub closed spec fn below_flag(&self) -> bool {
        self.below_all
    }

    /// The kind of each boundary.
    pub closed spec fn kind_values(&self) -> Seq<Kind> {
        self.kinds@
    }

    /// An interval sequence is determined by its set: two with the same set have the same
    /// flag, boundaries and kinds.
    pub proof fn lemma_canonical(a: Self, b: Self)
        requires
            a.valid(),
            b.valid(),
            a@ == b@,
        ensures
            a.below_flag() == b.below_flag(),
            a.boundaries() == b.boundaries(),
            a.kind_values() == b.kind_values(),
    {
        let (ba, va, ka) = (a.below_all, a.values@, a.kinds@);
        let (bb, vb, kb) = (b.below_all, b.values@, b.kinds@);
        assert forall|d: int| #[trigger] seq_value(ba, va, ka, d) == seq_value(bb, vb, kb, d) by {
            assert(a@.contains(d) == a.val(d));
            assert(b@.contains(d) == b.val(d));
        }
        let d = if va.len() > 0 && vb.len() > 0 {
            if va[0].key() < vb[0].key() { 2 * va[0].key() - 1 } else { 2 * vb[0].key() - 1 }
        } else if va.len() > 0 {
            2 * va[0].key() - 1
        } else if vb.len() > 0 {
            2 * vb[0].key() - 1
        } else {
            0
        };
        lemma_value_between(ba, va, ka, 0, d);
        lemma_value_between(bb, vb, kb, 0, d);
        assert forall|x: int| #[trigger] crate::sorted::key_set(va).contains(x) == crate::sorted::key_set(vb).contains(x) by {
            lemma_value_change(ba, va, ka, x);
            lemma_value_change(bb, vb, kb, x);
            assert(seq_value(ba, va, ka, 2 * x - 1) == seq_value(bb, vb, kb, 2 * x - 1));
            assert(seq_value(ba, va, ka, 2 * x) == seq_value(bb, vb, kb, 2 * x));
            assert(seq_value(ba, va, ka, 2 * x + 1) == seq_value(bb, vb, kb, 2 * x + 1));
        }
        assert(crate::sorted::key_set(va) =~= crate::sorted::key_set(vb));
        crate::sorted::lemma_sorted_unique(va, vb);
        assert forall|i: int| 0 <= i < ka.len() implies ka[i] == kb[i] by {
            lemma_kind_of_values(ba, va, ka, i);
            lemma_kind_of_values(bb, vb, kb, i);
            assert(seq_value(ba, va, ka, 2 * va[i].key()) == seq_value(bb, vb, kb, 2 * va[i].key()));
            assert(seq_value(ba, va, ka, 2 * va[i].key() + 1) == seq_value(bb, vb, kb, 2 * va[i].key() + 1));
        }
        assert(ka =~= kb);
    }

    /// Membership of `k`.
    spec fn val(&self, k: int) -> bool {
        seq_value(self.below_all, self.values@, self.kinds@, k)
    }

    /// Membership right below boundary `i`.
    spec fn bi(&self, i: int) -> bool {
        below_index(self.below_all, self.kinds@, i)
    }

    /// Past boundary `i - 1`, the next edge of the set is boundary `i`, if there is one.
    proof fn lemma_next_edge(&self, i: int)
        requires
            self.valid(),
            0 <= i <= self.values@.len(),
        ensures
            next_edge(
                self@,
                if i == 0 { None } else { Some(2 * self.values@[i - 1].key()) },
                if i < self.values@.len() { Some(2 * self.values@[i].key()) } else { None },
            ),
    {
        let vals = self.values@;
        let n = vals.len();
        let after: Option<int> = if i == 0 { None } else { Some(2 * vals[i - 1].key()) };
        assert forall|u: int| #[trigger] is_edge(self@, u) implies exists|j: int| 0 <= j < n && u == 2
            * #[trigger] vals[j].key() by {
            lemma_edges(self.below_all, vals, self.kinds@, u);
        }
        if i < n {
            lemma_edges(self.below_all, vals, self.kinds@, 2 * vals[i].key());
            if i > 0 {
                assert(vals[i - 1].key() < vals[i].key());
            }
            assert forall|u: int| #[trigger] is_edge(self@, u) && lies_above(after, u) implies 2 * vals[i].key()
                <= u by {
                let j = choose|j: int| 0 <= j < n && u == 2 * #[trigger] vals[j].key();
                if j < i {
                    if j < i - 1 {
                        assert(vals[j].key() < vals[i - 1].key());
                    }
                    assert(false);
                } else if j > i {
                    assert(vals[i].key() < vals[j].key());
                }
            }
        } else {
            assert forall|u: int| #[trigger] is_edge(self@, u) implies !lies_above(after, u) by {
                let j = choose|j: int| 0 <= j < n && u == 2 * #[trigger] vals[j].key();
                if j < i - 1 {
                    assert(vals[j].key() < vals[i - 1].key());
                }
            }
        }
    }

    /// `k` lies below boundary `i`, if there is one.
    spec fn tail_above(&self, i: int, k: int) -> bool {
        i < self.values@.len() ==> k < 2 * self.values@[i].key()
    }

    /// Where the set starts at boundary `i`, which does not hold the value without holding
    /// what lies above it.
    fn lower_bound(&self, i: usize) -> (r: Bound<T>)
        requires
            i < self.values@.len(),
            i < self.kinds@.len(),
            self.kinds@[i as int] != Kind::K00,
        ensures
            r == if self.kinds@[i as int] is K01 {
                Bound::Open(self.values@[i as int])
            } else {
                Bound::Closed(self.values@[i as int])
            },
    {
        match self.kinds[i] {
            Kind::K01 => Bound::Open(self.values[i]),
            _ => Bound::Closed(self.values[i]),
        }
    }

    /// Where the set ends at boundary `i`, above which it holds nothing.
    fn upper_bound(&self, i: usize) -> (r: Bound<T>)
        requires
            i < self.values@.len(),
            i < self.kinds@.len(),
            self.kinds@[i as int] is K10 || self.kinds@[i as int] is K00,
        ensures
            r == if self.kinds@[i as int] is K10 {
                Bound::Closed(self.values@[i as int])
            } else {
                Bound::Open(self.values@[i as int])
            },
    {
        match self.kinds[i] {
            Kind::K10 => Bound::Closed(self.values[i]),
            _ => Bound::Open(self.values[i]),
        }
    }

    /// Membership right below boundary `index`.
    fn below_index(&self, index: usize) -> (r: bool)
        requires
            index <= self.kinds@.len(),
        ensures
            r == self.bi(index as int),
    {
        if index == 0 {
            self.below_all
        } else {
            self.kinds[index - 1].value_above()
        }
    }
}

impl<T: SortKey> Builder<T> {
    /// Appends the boundaries `src[i0..i1]` with their kinds, as they are (`flip` false) or
    /// negated (`flip` true). The builder must currently agree (or disagree, when flipping) with
    /// `src` right below boundary `i0`.
    fn copy_range(&mut self, src: &IntervalSeq<T>, i0: usize, i1: usize, flip: bool)
        requires
            well_formed(old(self).below_all, old(self).values@, old(self).kinds@),
            i0 <= i1 <= src.values@.len(),
            old(self).spec_above_all() == (src.bi(i0 as int) != flip),
            forall|y: int| i0 <= y < src.values@.len() ==> old(self).below(#[trigger] src.values@[y].key()),
        ensures
            well_formed(final(self).below_all, final(self).values@, final(self).kinds@),
            final(self).below_all == old(self).below_all,
            final(self).spec_above_all() == (src.bi(i1 as int) != flip),
            forall|y: int| i1 <= y < src.values@.len() ==> final(self).below(#[trigger] src.values@[y].key()),
            i0 < i1 ==> forall|k: int| k < 2 * src.values@[i0 as int].key() ==> #[trigger] final(self).value(k) == old(self).value(k),
            i0 == i1 ==> final(self).values@ == old(self).values@ && final(self).kinds@ == old(self).kinds@,
            forall|k: int|
                old(self).below(k) && (forall|y: int| i0 <= y < i1 ==> #[trigger] src.values@[y].key() < k)
                    ==> #[trigger] final(self).below(k),
            i0 < i1 ==> forall|k: int|
                2 * src.values@[i0 as int].key() <= k && src.tail_above(i1 as int, k) ==> #[trigger] final(self).value(k)
                    == (src.val(k) != flip),
    {
        proof {
            use_type_invariant(src);
        }
        let ghost start = *old(self);
        let mut i = i0;
        while i < i1
            invariant
                well_formed(src.below_all, src.values@, src.kinds@),
                well_formed(self.below_all, self.values@, self.kinds@),
                self.below_all == start.below_all,
                i0 <= i <= i1 <= src.values@.len(),
                self.spec_above_all() == (src.bi(i as int) != flip),
                forall|y: int| i <= y < src.values@.len() ==> self.below(#[trigger] src.values@[y].key()),
                i == i0 ==> self.values@ == start.values@ && self.kinds@ == start.kinds@,
                forall|k: int|
                    start.below(k) && (forall|y: int| i0 <= y < i ==> #[trigger] src.values@[y].key() < k)
                        ==> #[trigger] self.below(k),
                i0 < i ==> forall|k: int| k < 2 * src.values@[i0 as int].key() ==> #[trigger] self.value(k) == start.value(k),
                i0 < i ==> forall|k: int|
                    2 * src.values@[i0 as int].key() <= k && src.tail_above(i as int, k) ==> #[trigger] self.value(k)
                        == (src.val(k) != flip),
            decreases i1 - i,
        {
            let ghost before = *self;
            let value = src.values[i];
            let kind = if flip { src.kinds[i].flipped() } else { src.kinds[i] };
            assert(src.kinds@[i as int] != Kind::of(src.bi(i as int), src.bi(i as int)));
            self.values.push(value);
            self.kinds.push(kind);
            proof {
                let vals = before.values@;
                let kinds = before.kinds@;
                assert forall|k: int| #[trigger] self.value(k) == (if 2 * value.key() < k {
                    kind.above()
                } else if 2 * value.key() == k {
                    kind.at()
                } else {
                    before.value(k)
                }) by {
                    lemma_value_push(self.below_all, vals, kinds, value, kind, k);
                }
                assert(sorted(self.values@)) by {
                    assert forall|x: int, y: int| 0 <= x < y < self.values@.len() implies #[trigger] self.values@[x].key()
                        < #[trigger] self.values@[y].key() by {
                        assert(self.values@[x] == vals[x]);
                        if y < vals.len() {
                            assert(self.values@[y] == vals[y]);
                        }
                    }
                }
                assert forall|x: int| 0 <= x < self.kinds@.len() implies #[trigger] self.kinds@[x] != Kind::of(
                    below_index(self.below_all, self.kinds@, x),
                    below_index(self.below_all, self.kinds@, x),
                ) by {
                    if x > 0 {
                        assert(self.kinds@[x - 1] == kinds[x - 1]);
                    }
                    if x < kinds.len() {
                        assert(self.kinds@[x] == kinds[x]);
                        assert(kinds[x] != Kind::of(below_index(self.below_all, kinds, x), below_index(self.below_all, kinds, x)));
                    }
                }
                assert forall|y: int| i + 1 <= y < src.values@.len() implies self.below(#[trigger] src.values@[y].key()) by {
                    assert(before.below(src.values@[y].key()));
                    assert(src.values@[i as int].key() < src.values@[y].key());
                    assert forall|x: int| 0 <= x < self.values@.len() implies #[trigger] self.values@[x].key() < src.values@[y].key() by {
                        if x < vals.len() {
                            assert(self.values@[x] == vals[x]);
                        }
                    }
                }
                assert forall|k: int|
                    2 * src.values@[i0 as int].key() <= k && src.tail_above(i + 1, k) implies #[trigger] self.value(k)
                        == (src.val(k) != flip) by {
                    if k < 2 * value.key() {
                    } else if k == 2 * value.key() {
                        lemma_value_at(src.below_all, src.values@, src.kinds@, i as int);
                    } else {
                        lemma_value_between(src.below_all, src.values@, src.kinds@, i + 1, k);
                    }
                }
                if i0 < i {
                    assert(src.values@[i0 as int].key() < value.key());
                }
                assert forall|k: int|
                    start.below(k) && (forall|y: int| i0 <= y < i + 1 ==> #[trigger] src.values@[y].key() < k)
                        implies #[trigger] self.below(k) by {
                    assert(src.values@[i as int].key() < k);
                    assert(before.below(k));
                    assert forall|x: int| 0 <= x < self.values@.len() implies #[trigger] self.values@[x].key() < k by {
                        if x < vals.len() {
                            assert(self.values@[x] == vals[x]);
                        }
                    }
                }
            }
            i = i + 1;
        }
    }
}

impl<T: SortKey> Builder<T> {
    /// Appends the boundaries `src[i0..i1]` with their kinds.
    fn copy_from(&mut self, src: &IntervalSeq<T>, i0: usize, i1: usize)
        requires
            well_formed(old(self).below_all, old(self).values@, old(self).kinds@),
            i0 <= i1 <= src.values@.len(),
            old(self).spec_above_all() == src.bi(i0 as int),
            forall|y: int| i0 <= y < src.values@.len() ==> old(self).below(#[trigger] src.values@[y].key()),
        ensures
            well_formed(final(self).below_all, final(self).values@, final(self).kinds@),
            final(self).below_all == old(self).below_all,
            final(self).spec_above_all() == src.bi(i1 as int),
            forall|y: int| i1 <= y < src.values@.len() ==> final(self).below(#[trigger] src.values@[y].key()),
            forall|k: int|
                old(self).below(k) && (forall|y: int| i0 <= y < i1 ==> #[trigger] src.values@[y].key() < k)
                    ==> #[trigger] final(self).below(k),
            i0 == i1 ==> final(self).values@ == old(self).values@ && final(self).kinds@ == old(self).kinds@,
            i0 < i1 ==> forall|k: int| k < 2 * src.values@[i0 as int].key() ==> #[trigger] final(self).value(k) == old(self).value(k),
            i0 < i1 ==> forall|k: int|
                2 * src.values@[i0 as int].key() <= k && src.tail_above(i1 as int, k) ==> #[trigger] final(self).value(k)
                    == src.val(k),
    {
        self.copy_range(src, i0, i1, false)
    }

    /// Appends the boundaries `src[i0..i1]` with their kinds negated.
    fn flip_from(&mut self, src: &IntervalSeq<T>, i0: usize, i1: usize)
        requires
            well_formed(old(self).below_all, old(self).values@, old(self).kinds@),
            i0 <= i1 <= src.values@.len(),
            old(self).spec_above_all() == !src.bi(i0 as int),
            forall|y: int| i0 <= y < src.values@.len() ==> old(self).below(#[trigger] src.values@[y].key()),
        ensures
            well_formed(final(self).below_all, final(self).values@, final(self).kinds@),
            final(self).below_all == old(self).below_all,
            final(self).spec_above_all() == !src.bi(i1 as int),
            forall|y: int| i1 <= y < src.values@.len() ==> final(self).below(#[trigger] src.values@[y].key()),
            forall|k: int|
                old(self).below(k) && (forall|y: int| i0 <= y < i1 ==> #[trigger] src.values@[y].key() < k)
                    ==> #[trigger] final(self).below(k),
            i0 == i1 ==> final(self).values@ == old(self).values@ && final(self).kinds@ == old(self).kinds@,
            i0 < i1 ==> forall|k: int| k < 2 * src.values@[i0 as int].key() ==> #[trigger] final(self).value(k) == old(self).value(k),
            i0 < i1 ==> forall|k: int|
                2 * src.values@[i0 as int].key() <= k && src.tail_above(i1 as int, k) ==> #[trigger] final(self).value(k)
                    == !src.val(k),
    {
        self.copy_range(src, i0, i1, true)
    }
}

/// Everything consumed from `a` (before `i`) and from `b` (before `j`) lies below everything
/// that remains of the other side.
spec fn split_ok<T: SortKey>(a: &IntervalSeq<T>, b: &IntervalSeq<T>, i: int, j: int) -> bool {
    &&& forall|x: int, y: int|
        0 <= x < i && j <= y < b.values@.len() ==> #[trigger] a.values@[x].key() < #[trigger] b.values@[y].key()
    &&& forall|x: int, y: int|
        0 <= y < j && i <= x < a.values@.len() ==> #[trigger] b.values@[y].key() < #[trigger] a.values@[x].key()
}

/// The state of a merge that has consumed `a` up to `i` and `b` up to `j`: the result built so
/// far agrees with `op` on every value below both remainders.
spec fn state_ok<T: SortKey>(op: BoolOp, a: &IntervalSeq<T>, b: &IntervalSeq<T>, i: int, j: int, r: &Builder<T>) -> bool {
    &&& well_formed(r.below_all, r.values@, r.kinds@)
    &&& 0 <= i <= a.values@.len()
    &&& 0 <= j <= b.values@.len()
    &&& split_ok(a, b, i, j)
    &&& forall|y: int| i <= y < a.values@.len() ==> r.below(#[trigger] a.values@[y].key())
    &&& forall|y: int| j <= y < b.values@.len() ==> r.below(#[trigger] b.values@[y].key())
    &&& r.spec_above_all() == op.apply(a.bi(i), b.bi(j))
    &&& forall|k: int|
        a.tail_above(i, k) && b.tail_above(j, k) ==> #[trigger] r.value(k) == op.apply(a.val(k), b.val(k))
}

/// Past its last boundary, a builder holds what it holds above all.
proof fn lemma_builder_above<T: SortKey>(r: &Builder<T>, m: int, k: int)
    requires
        well_formed(r.below_all, r.values@, r.kinds@),
        r.below(m),
        2 * m <= k,
    ensures
        r.value(k) == r.spec_above_all(),
{
    if r.values@.len() > 0 {
        let n = r.values@.len() - 1;
        assert(r.values@[n].key() < m);
    }
    lemma_value_between(r.below_all, r.values@, r.kinds@, r.values@.len() as int, k);
}

/// Merges the boundaries `b[b0..b1]` while `a` holds `c` throughout.
#[verifier::rlimit(80)]
fn from_b<T: SortKey>(op: BoolOp, a: &IntervalSeq<T>, b: &IntervalSeq<T>, c: bool, Ghost(i): Ghost<int>, b0: usize, b1: usize, r: &mut Builder<T>)
    requires
        state_ok(op, a, b, i, b0 as int, old(r)),
        split_ok(a, b, i, b1 as int),
        b0 <= b1 <= b.values@.len(),
        c == a.bi(i),
    ensures
        state_ok(op, a, b, i, b1 as int, final(r)),
{
    proof {
        use_type_invariant(a);
        use_type_invariant(b);
    }
    let ghost r0 = *r;
    let copy = match op {
        BoolOp::And => c,
        BoolOp::Or => !c,
        BoolOp::Xor => true,
    };
    if copy {
        if op == BoolOp::Xor && c {
            r.flip_from(b, b0, b1);
        } else {
            r.copy_from(b, b0, b1);
        }
    }
    proof {
        if b0 < b1 {
            assert forall|k: int| 2 * b.values@[b0 as int].key() <= k && a.tail_above(i, k) implies #[trigger] a.val(k) == c by {
                if i > 0 {
                    assert(a.values@[i - 1].key() < b.values@[b0 as int].key());
                }
                lemma_value_between(a.below_all, a.values@, a.kinds@, i, k);
            }
            assert forall|k: int| 2 * b.values@[b0 as int].key() <= k && !copy implies #[trigger] r.value(k) == r0.spec_above_all() by {
                lemma_builder_above(&r0, b.values@[b0 as int].key(), k);
            }
        }
        assert forall|y: int| i <= y < a.values@.len() implies r.below(#[trigger] a.values@[y].key()) by {
            assert(r0.below(a.values@[y].key()));
            assert forall|z: int| b0 <= z < b1 implies #[trigger] b.values@[z].key() < a.values@[y].key() by {
            }
        }
        assert forall|k: int|
            a.tail_above(i, k) && b.tail_above(b1 as int, k) implies #[trigger] r.value(k) == op.apply(a.val(k), b.val(k)) by {
            if b0 < b1 && 2 * b.values@[b0 as int].key() <= k {
                assert(a.val(k) == c);
                if copy {
                    if op == BoolOp::Xor && c {
                        assert(r.value(k) == !b.val(k));
                    } else {
                        assert(r.value(k) == b.val(k));
                    }
                } else {
                    assert(r.value(k) == r0.spec_above_all());
                }
            } else {
                if b0 < b1 {
                    assert(b.tail_above(b0 as int, k));
                }
                assert(r.value(k) == r0.value(k));
                assert(r0.value(k) == op.apply(a.val(k), b.val(k)));
            }
        }
    }
}

/// Merges the boundaries `a[a0..a1]` while `b` holds `c` throughout.
#[verifier::rlimit(80)]
fn from_a<T: SortKey>(op: BoolOp, a: &IntervalSeq<T>, b: &IntervalSeq<T>, a0: usize, a1: usize, c: bool, Ghost(j): Ghost<int>, r: &mut Builder<T>)
    requires
        state_ok(op, a, b, a0 as int, j, old(r)),
        split_ok(a, b, a1 as int, j),
        a0 <= a1 <= a.values@.len(),
        c == b.bi(j),
    ensures
        state_ok(op, a, b, a1 as int, j, final(r)),
{
    proof {
        use_type_invariant(a);
        use_type_invariant(b);
    }
    let ghost r0 = *r;
    let copy = match op {
        BoolOp::And => c,
        BoolOp::Or => !c,
        BoolOp::Xor => true,
    };
    if copy {
        if op == BoolOp::Xor && c {
            r.flip_from(a, a0, a1);
        } else {
            r.copy_from(a, a0, a1);
        }
    }
    proof {
        if a0 < a1 {
            assert forall|k: int| 2 * a.values@[a0 as int].key() <= k && b.tail_above(j, k) implies #[trigger] b.val(k) == c by {
                if j > 0 {
                    assert(b.values@[j - 1].key() < a.values@[a0 as int].key());
                }
                lemma_value_between(b.below_all, b.values@, b.kinds@, j, k);
            }
            assert forall|k: int| 2 * a.values@[a0 as int].key() <= k && !copy implies #[trigger] r.value(k) == r0.spec_above_all() by {
                lemma_builder_above(&r0, a.values@[a0 as int].key(), k);
            }
        }
        assert forall|y: int| j <= y < b.values@.len() implies r.below(#[trigger] b.values@[y].key()) by {
            assert(r0.below(b.values@[y].key()));
            assert forall|z: int| a0 <= z < a1 implies #[trigger] a.values@[z].key() < b.values@[y].key() by {
            }
        }
        assert forall|k: int|
            a.tail_above(a1 as int, k) && b.tail_above(j, k) implies #[trigger] r.value(k) == op.apply(a.val(k), b.val(k)) by {
            if a0 < a1 && 2 * a.values@[a0 as int].key() <= k {
                assert(b.val(k) == c);
                if copy {
                    if op == BoolOp::Xor && c {
                        assert(r.value(k) == !a.val(k));
                    } else {
                        assert(r.value(k) == a.val(k));
                    }
                } else {
                    assert(r.value(k) == r0.spec_above_all());
                }
            } else {
                if a0 < a1 {
                    assert(a.tail_above(a0 as int, k));
                }
                assert(r.value(k) == r0.value(k));
                assert(r0.value(k) == op.apply(a.val(k), b.val(k)));
            }
        }
    }
}

/// Merges the boundary `a[ai]` with the equal boundary `b[bi]`.
#[verifier::rlimit(80)]
fn collision<T: SortKey>(op: BoolOp, a: &IntervalSeq<T>, b: &IntervalSeq<T>, ai: usize, bi: usize, r: &mut Builder<T>)
    requires
        state_ok(op, a, b, ai as int, bi as int, old(r)),
        ai < a.values@.len(),
        bi < b.values@.len(),
        a.values@[ai as int].key() == b.values@[bi as int].key(),
        split_ok(a, b, ai + 1, bi + 1),
    ensures
        state_ok(op, a, b, ai + 1, bi + 1, final(r)),
{
    proof {
        use_type_invariant(a);
        use_type_invariant(b);
    }
    let ghost r0 = *r;
    let value = a.values[ai];
    let kind = op.exec_kind(a.kinds[ai], b.kinds[bi]);
    r.append(value, kind);
    proof {
        let x = 2 * value.key();
        assert forall|y: int| ai + 1 <= y < a.values@.len() implies r.below(#[trigger] a.values@[y].key()) by {
            assert(a.values@[ai as int].key() < a.values@[y].key());
        }
        assert forall|y: int| bi + 1 <= y < b.values@.len() implies r.below(#[trigger] b.values@[y].key()) by {
            assert(b.values@[bi as int].key() < b.values@[y].key());
        }
        assert forall|k: int|
            a.tail_above(ai + 1, k) && b.tail_above(bi + 1, k) implies #[trigger] r.value(k) == op.apply(a.val(k), b.val(k)) by {
            if k < x {
                assert(a.tail_above(ai as int, k));
                assert(b.tail_above(bi as int, k));
                assert(r0.value(k) == op.apply(a.val(k), b.val(k)));
            } else if k == x {
                lemma_value_at(a.below_all, a.values@, a.kinds@, ai as int);
                lemma_value_at(b.below_all, b.values@, b.kinds@, bi as int);
            } else {
                lemma_value_between(a.below_all, a.values@, a.kinds@, ai + 1, k);
                lemma_value_between(b.below_all, b.values@, b.kinds@, bi + 1, k);
            }
        }
    }
}

/// Merges `a[a0..a1]` with `b[b0..b1]`: the middle boundary of the range of `a` is located in
/// the range of `b` by binary search, and both halves are merged recursively.
#[verifier::rlimit(80)]
fn merge0<T: SortKey>(op: BoolOp, a: &IntervalSeq<T>, b: &IntervalSeq<T>, a0: usize, a1: usize, b0: usize, b1: usize, r: &mut Builder<T>)
    requires
        state_ok(op, a, b, a0 as int, b0 as int, old(r)),
        split_ok(a, b, a1 as int, b1 as int),
        a0 <= a1 <= a.values@.len(),
        b0 <= b1 <= b.values@.len(),
    ensures
        state_ok(op, a, b, a1 as int, b1 as int, final(r)),
    decreases a1 - a0,
{
    proof {
        use_type_invariant(a);
        use_type_invariant(b);
    }
    if a0 == a1 {
        let c = a.below_index(a0);
        from_b(op, a, b, c, Ghost(a0 as int), b0, b1, r);
    } else if b0 == b1 {
        let c = b.below_index(b0);
        from_a(op, a, b, a0, a1, c, Ghost(b0 as int), r);
    } else {
        let am = a0 + (a1 - a0) / 2;
        let found = search(b.values.as_slice(), b0, b1, &a.values[am]);
        let ghost pivot = a.values@[am as int].key();
        match found {
            Ok(bm) => {
                proof {
                    assert(forall|y: int| bm <= y < b1 ==> pivot <= #[trigger] b.values@[y].key()) by {
                        assert forall|y: int| bm <= y < b1 implies pivot <= #[trigger] b.values@[y].key() by {
                            if y > bm {
                                assert(b.values@[bm as int].key() < b.values@[y].key());
                            }
                        }
                    }
                    assert(forall|y: int| b0 <= y < bm ==> #[trigger] b.values@[y].key() < pivot) by {
                        assert forall|y: int| b0 <= y < bm implies #[trigger] b.values@[y].key() < pivot by {
                            assert(b.values@[y].key() < b.values@[bm as int].key());
                        }
                    }
                    assert(split_ok(a, b, am as int, bm as int)) by {
                        assert forall|x: int, y: int| 0 <= x < am && bm <= y < b.values@.len() implies #[trigger] a.values@[x].key()
                            < #[trigger] b.values@[y].key() by {
                            assert(a.values@[x].key() < pivot);
                            if y >= b1 {
                                assert(a.values@[x].key() < b.values@[y].key());
                            }
                        }
                        assert forall|x: int, y: int| 0 <= y < bm && am <= x < a.values@.len() implies #[trigger] b.values@[y].key()
                            < #[trigger] a.values@[x].key() by {
                            if y >= b0 {
                                assert(b.values@[y].key() < pivot);
                                if x > am {
                                    assert(pivot < a.values@[x].key());
                                }
                            }
                        }
                    }
                    assert(split_ok(a, b, am + 1, bm + 1)) by {
                        assert forall|x: int, y: int| 0 <= x < am + 1 && bm + 1 <= y < b.values@.len() implies #[trigger] a.values@[x].key()
                            < #[trigger] b.values@[y].key() by {
                            if x < am {
                                assert(a.values@[x].key() < pivot);
                            }
                            if y < b1 {
                                assert(b.values@[bm as int].key() < b.values@[y].key());
                            } else {
                                if x >= a1 {
                                } else {
                                    assert(a.values@[x].key() < b.values@[y].key());
                                }
                            }
                        }
                        assert forall|x: int, y: int| 0 <= y < bm + 1 && am + 1 <= x < a.values@.len() implies #[trigger] b.values@[y].key()
                            < #[trigger] a.values@[x].key() by {
                            assert(pivot < a.values@[x].key());
                            if y >= b0 {
                                assert(b.values@[y].key() <= pivot);
                            }
                        }
                    }
                }
                merge0(op, a, b, a0, am, b0, bm, r);
                collision(op, a, b, am, bm, r);
                merge0(op, a, b, am + 1, a1, bm + 1, b1, r);
            },
            Err(bi) => {
                proof {
                    assert(split_ok(a, b, am as int, bi as int)) by {
                        assert forall|x: int, y: int| 0 <= x < am && bi <= y < b.values@.len() implies #[trigger] a.values@[x].key()
                            < #[trigger] b.values@[y].key() by {
                            assert(a.values@[x].key() < pivot);
                            if y >= b1 {
                                assert(a.values@[x].key() < b.values@[y].key());
                            }
                        }
                        assert forall|x: int, y: int| 0 <= y < bi && am <= x < a.values@.len() implies #[trigger] b.values@[y].key()
                            < #[trigger] a.values@[x].key() by {
                            if y >= b0 {
                                if x > am {
                                    assert(pivot < a.values@[x].key());
                                }
                            }
                        }
                    }
                    assert(split_ok(a, b, am + 1, bi as int)) by {
                        assert forall|x: int, y: int| 0 <= x < am + 1 && bi <= y < b.values@.len() implies #[trigger] a.values@[x].key()
                            < #[trigger] b.values@[y].key() by {
                            if x < am {
                                assert(a.values@[x].key() < pivot);
                            }
                            if y >= b1 {
                                assert(a.values@[x].key() < b.values@[y].key());
                            }
                        }
                        assert forall|x: int, y: int| 0 <= y < bi && am + 1 <= x < a.values@.len() implies #[trigger] b.values@[y].key()
                            < #[trigger] a.values@[x].key() by {
                            assert(pivot < a.values@[x].key());
                        }
                    }
                }
                merge0(op, a, b, a0, am, b0, bi, r);
                let c = b.below_index(bi);
                from_a(op, a, b, am, am + 1, c, Ghost(bi as int), r);
                merge0(op, a, b, am + 1, a1, bi, b1, r);
            },
        }
    }
}

/// The view of an interval sequence is a set of half steps: `2 * x` stands for the value `x`
/// and `2 * x + 1` for the values right above `x` (and below any greater boundary).
/// Whether the set holds `x`.
pub open spec fn holds_at(s: Set<int>, x: int) -> bool {
    s.contains(2 * x)
}

/// Whether the set holds the values right above `x`.
pub open spec fn holds_above(s: Set<int>, x: int) -> bool {
    s.contains(2 * x + 1)
}

/// Whether the set holds the values right below `x`.
pub open spec fn holds_below(s: Set<int>, x: int) -> bool {
    s.contains(2 * x - 1)
}

impl<T: SortKey> IntervalSeq<T> {
    /// The interval sequence made of a finished builder.
    fn from_builder(r: Builder<T>) -> (s: Self)
        requires
            well_formed(r.below_all, r.values@, r.kinds@),
        ensures
            forall|k: int| s.val(k) == r.value(k),
            s@ == Set::new(|k: int| r.value(k)),
    {
        let Builder { below_all, values, kinds } = r;
        IntervalSeq { below_all, values, kinds }
    }

    /// The combination of `a` and `b` under `op`.
    fn combine(a: &Self, b: &Self, op: BoolOp) -> (r: Self)
        ensures
            r@ == Set::new(|k: int| op.apply(a@.contains(k), b@.contains(k))),
    {
        proof {
            use_type_invariant(a);
            use_type_invariant(b);
        }
        let mut r: Builder<T> = Builder {
            below_all: op.exec_apply(a.below_all, b.below_all),
            values: Vec::new(),
            kinds: Vec::new(),
        };
        proof {
            assert forall|k: int| a.tail_above(0, k) && b.tail_above(0, k) implies #[trigger] r.value(k) == op.apply(a.val(k), b.val(k)) by {
                lemma_value_between(a.below_all, a.values@, a.kinds@, 0, k);
                lemma_value_between(b.below_all, b.values@, b.kinds@, 0, k);
            }
        }
        merge0(op, a, b, 0, a.values.len(), 0, b.values.len(), &mut r);
        let s = Self::from_builder(r);
        assert(s@ =~= Set::new(|k: int| op.apply(a@.contains(k), b@.contains(k))));
        s
    }

    /// The values in both `self` and `that`.
    pub fn and(self, that: Self) -> (r: Self)
        ensures
            r@ == self@.intersect(that@),
    {
        let r = Self::combine(&self, &that, BoolOp::And);
        assert(r@ =~= self@.intersect(that@));
        r
    }

    /// The values in `self` or in `that`.
    pub fn or(self, that: Self) -> (r: Self)
        ensures
            r@ == self@.union(that@),
    {
        let r = Self::combine(&self, &that, BoolOp::Or);
        assert(r@ =~= self@.union(that@));
        r
    }

    /// The values in exactly one of `self` and `that`.
    pub fn xor(self, that: Self) -> (r: Self)
        ensures
            r@ == self@.difference(that@).union(that@.difference(self@)),
    {
        let r = Self::combine(&self, &that, BoolOp::Xor);
        assert(r@ =~= self@.difference(that@).union(that@.difference(self@)));
        r
    }

    /// The complement.
    pub fn negate(self) -> (r: Self)
        ensures
            r@ == self@.complement(),
    {
        proof {
            use_type_invariant(&self);
        }
        let IntervalSeq { below_all, values, kinds } = self;
        let mut flipped: Vec<Kind> = Vec::new();
        let mut i: usize = 0;
        while i < kinds.len()
            invariant
                i <= kinds@.len(),
                flipped@.len() == i,
                forall|x: int| 0 <= x < i ==> #[trigger] flipped@[x] == Kind::of(!kinds@[x].at(), !kinds@[x].above()),
            decreases kinds@.len() - i,
        {
            flipped.push(kinds[i].flipped());
            i = i + 1;
        }
        proof {
            assert forall|x: int| 0 <= x < flipped@.len() implies #[trigger] flipped@[x] != Kind::of(
                below_index(!below_all, flipped@, x),
                below_index(!below_all, flipped@, x),
            ) by {
                assert(kinds@[x] != Kind::of(below_index(below_all, kinds@, x), below_index(below_all, kinds@, x)));
            }
            assert forall|k: int| seq_value(!below_all, values@, flipped@, k) == !seq_value(below_all, values@, kinds@, k) by {
                lemma_value_negate(below_all, values@, kinds@, flipped@, k);
            }
        }
        let r = IntervalSeq { below_all: !below_all, values, kinds: flipped };
        assert(r@ =~= self@.complement());
        r
    }
}

/// Negating the flag and every kind negates membership everywhere.
proof fn lemma_value_negate<T: SortKey>(below: bool, vals: Seq<T>, kinds: Seq<Kind>, flipped: Seq<Kind>, k: int)
    requires
        vals.len() == kinds.len(),
        flipped.len() == kinds.len(),
        forall|x: int| 0 <= x < kinds.len() ==> #[trigger] flipped[x] == Kind::of(!kinds[x].at(), !kinds[x].above()),
    ensures
        seq_value(!below, vals, flipped, k) == !seq_value(below, vals, kinds, k),
    decreases vals.len(),
{
    if vals.len() > 0 {
        let n = vals.len() - 1;
        assert(flipped[n] == Kind::of(!kinds[n].at(), !kinds[n].above()));
        if 2 * vals.last().key() > k {
            let fd = flipped.drop_last();
            let kd = kinds.drop_last();
            assert forall|x: int| 0 <= x < kd.len() implies #[trigger] fd[x] == Kind::of(!kd[x].at(), !kd[x].above()) by {
                assert(fd[x] == flipped[x] && kd[x] == kinds[x]);
            }
            lemma_value_negate(below, vals.drop_last(), kd, fd, k);
        }
    }
}

/// Membership in a sequence of one boundary.
proof fn lemma_single<T: SortKey>(below: bool, v: T, kind: Kind, d: int)
    ensures
        seq_value(below, seq![v], seq![kind], d) == (if 2 * v.key() < d {
            kind.above()
        } else if 2 * v.key() == d {
            kind.at()
        } else {
            below
        }),
{
    assert(seq![v] =~= Seq::<T>::empty().push(v));
    assert(seq![kind] =~= Seq::<Kind>::empty().push(kind));
    lemma_value_push(below, Seq::<T>::empty(), Seq::<Kind>::empty(), v, kind, d);
}

/// Membership in a sequence of two boundaries.
proof fn lemma_pair<T: SortKey>(below: bool, a: T, fk: Kind, b: T, tk: Kind, d: int)
    ensures
        seq_value(below, seq![a, b], seq![fk, tk], d) == (if 2 * b.key() < d {
            tk.above()
        } else if 2 * b.key() == d {
            tk.at()
        } else if 2 * a.key() < d {
            fk.above()
        } else if 2 * a.key() == d {
            fk.at()
        } else {
            below
        }),
{
    assert(seq![a, b] =~= seq![a].push(b));
    assert(seq![fk, tk] =~= seq![fk].push(tk));
    lemma_value_push(below, seq![a], seq![fk], b, tk, d);
    lemma_single(below, a, fk, d);
}

impl<T: SortKey> IntervalSeq<T> {
    /// The empty set.
    pub fn empty() -> (r: IntervalSeq<T>)
        ensures
            r@ == Set::<int>::empty(),
    {
        let r = IntervalSeq { below_all: false, kinds: Vec::new(), values: Vec::new() };
        assert(r@ =~= Set::<int>::empty());
        r
    }

    /// The set of all values.
    pub fn all() -> (r: IntervalSeq<T>)
        ensures
            r@ == Set::<int>::full(),
    {
        let r = IntervalSeq { below_all: true, kinds: Vec::new(), values: Vec::new() };
        assert(r@ =~= Set::<int>::full());
        r
    }

    /// The set with one boundary `value` of `kind`, and `below_all` below it.
    fn singleton(below_all: bool, value: T, kind: Kind) -> (r: IntervalSeq<T>)
        requires
            kind != Kind::of(below_all, below_all),
        ensures
            forall|d: int| #[trigger] r@.contains(d) == (if 2 * value.key() < d {
                kind.above()
            } else if 2 * value.key() == d {
                kind.at()
            } else {
                below_all
            }),
    {
        let mut values: Vec<T> = Vec::new();
        values.push(value);
        let mut kinds: Vec<Kind> = Vec::new();
        kinds.push(kind);
        assert(values@ =~= seq![value]);
        assert(kinds@ =~= seq![kind]);
        let r = IntervalSeq { below_all, values, kinds };
        proof {
            assert forall|d: int| #[trigger] r@.contains(d) == (if 2 * value.key() < d {
                kind.above()
            } else if 2 * value.key() == d {
                kind.at()
            } else {
                below_all
            }) by {
                lemma_single(below_all, value, kind, d);
            }
        }
        r
    }

    /// The set holding just `value`.
    pub fn at(value: T) -> (r: IntervalSeq<T>)
        ensures
            r@ == Interval::Point(value)@,
    {
        let r = IntervalSeq::singleton(false, value, Kind::K10);
        assert(r@ =~= Interval::Point(value)@);
        r
    }

    /// Every value except `value`.
    pub fn except(value: T) -> (r: IntervalSeq<T>)
        ensures
            r@ == Interval::Point(value)@.complement(),
    {
        let r = IntervalSeq::singleton(true, value, Kind::K01);
        assert(r@ =~= Interval::Point(value)@.complement());
        r
    }

    /// The values below `value`.
    pub fn below(value: T) -> (r: IntervalSeq<T>)
        ensures
            r@ == Interval::Below(value, false)@,
    {
        let r = IntervalSeq::singleton(true, value, Kind::K00);
        assert(r@ =~= Interval::Below(value, false)@);
        r
    }

    /// The values at or below `value`.
    pub fn at_or_below(value: T) -> (r: IntervalSeq<T>)
        ensures
            r@ == Interval::Below(value, true)@,
    {
        let r = IntervalSeq::singleton(true, value, Kind::K10);
        assert(r@ =~= Interval::Below(value, true)@);
        r
    }

    /// The values at or above `value`.
    pub fn at_or_above(value: T) -> (r: IntervalSeq<T>)
        ensures
            r@ == Interval::Above(value, true)@,
    {
        let r = IntervalSeq::singleton(false, value, Kind::K11);
        assert(r@ =~= Interval::Above(value, true)@);
        r
    }

    /// The values above `value`.
    pub fn above(value: T) -> (r: IntervalSeq<T>)
        ensures
            r@ == Interval::Above(value, false)@,
    {
        let r = IntervalSeq::singleton(false, value, Kind::K01);
        assert(r@ =~= Interval::Above(value, false)@);
        r
    }

    /// The values from `from` (a boundary of kind `fk`, which opens) to `to` (a boundary of
    /// kind `tk`, which closes).
    fn from_to(from: T, fk: Kind, to: T, tk: Kind) -> (r: IntervalSeq<T>)
        requires
            from.key() < to.key(),
            fk.above(),
            !tk.above(),
        ensures
            forall|d: int| #[trigger] r@.contains(d) == (if 2 * to.key() < d {
                false
            } else if 2 * to.key() == d {
                tk.at()
            } else if 2 * from.key() < d {
                true
            } else if 2 * from.key() == d {
                fk.at()
            } else {
                false
            }),
    {
        let mut values: Vec<T> = Vec::new();
        values.push(from);
        values.push(to);
        let mut kinds: Vec<Kind> = Vec::new();
        kinds.push(fk);
        kinds.push(tk);
        assert(values@ =~= seq![from, to]);
        assert(kinds@ =~= seq![fk, tk]);
        let r = IntervalSeq { below_all: false, values, kinds };
        proof {
            assert forall|d: int| #[trigger] r@.contains(d) == (if 2 * to.key() < d {
                false
            } else if 2 * to.key() == d {
                tk.at()
            } else if 2 * from.key() < d {
                true
            } else if 2 * from.key() == d {
                fk.at()
            } else {
                false
            }) by {
                lemma_pair(false, from, fk, to, tk, d);
            }
        }
        r
    }

    /// The interval `value` as an interval sequence.
    pub fn from_interval(value: Interval<T>) -> (r: IntervalSeq<T>)
        ensures
            r@ == value@,
    {
        let r = match (value.lower_bound(), value.upper_bound()) {
            (Bound::Unbound, Bound::Open(x)) => IntervalSeq::below(x),
            (Bound::Unbound, Bound::Closed(x)) => IntervalSeq::at_or_below(x),
            (Bound::Open(x), Bound::Unbound) => IntervalSeq::above(x),
            (Bound::Closed(x), Bound::Unbound) => IntervalSeq::at_or_above(x),
            (Bound::Closed(a), Bound::Closed(b)) => {
                if a.key_eq(&b) {
                    IntervalSeq::at(a)
                } else if a.key_lt(&b) {
                    IntervalSeq::from_to(a, Kind::K11, b, Kind::K10)
                } else {
                    IntervalSeq::empty()
                }
            },
            (Bound::Closed(a), Bound::Open(b)) => {
                if a.key_lt(&b) {
                    IntervalSeq::from_to(a, Kind::K11, b, Kind::K00)
                } else {
                    IntervalSeq::empty()
                }
            },
            (Bound::Open(a), Bound::Closed(b)) => {
                if a.key_lt(&b) {
                    IntervalSeq::from_to(a, Kind::K01, b, Kind::K10)
                } else {
                    IntervalSeq::empty()
                }
            },
            (Bound::Open(a), Bound::Open(b)) => {
                if a.key_lt(&b) {
                    IntervalSeq::from_to(a, Kind::K01, b, Kind::K00)
                } else {
                    IntervalSeq::empty()
                }
            },
            (Bound::Unbound, Bound::Unbound) => IntervalSeq::all(),
            _ => IntervalSeq::empty(),
        };
        assert(r@ =~= value@);
        r
    }

    /// The set of all values if `value`, else the empty set.
    pub fn constant(value: bool) -> (r: IntervalSeq<T>)
        ensures
            r@ == (if value { Set::<int>::full() } else { Set::<int>::empty() }),
    {
        if value {
            IntervalSeq::all()
        } else {
            IntervalSeq::empty()
        }
    }
}

/// The set holds `v`'s membership everywhere above the half step `m`.
pub open spec fn constant_above(s: Set<int>, m: int, v: bool) -> bool {
    forall|d: int| d > m ==> #[trigger] s.contains(d) == v
}

/// The set holds `v`'s membership everywhere below the half step `m`.
pub open spec fn constant_below(s: Set<int>, m: int, v: bool) -> bool {
    forall|d: int| d < m ==> #[trigger] s.contains(d) == v
}

/// Every half step between two members is a member.
pub open spec fn convex(s: Set<int>) -> bool {
    forall|a: int, b: int, d: int|
        #![trigger s.contains(a), s.contains(b), s.contains(d)]
        s.contains(a) && s.contains(b) && a <= d <= b ==> s.contains(d)
}

/// The half steps that lie between two members.
pub open spec fn hull_of(s: Set<int>) -> Set<int> {
    Set::new(
        |d: int|
            exists|a: int, b: int|
                #![trigger s.contains(a), s.contains(b)]
                s.contains(a) && s.contains(b) && a <= d <= b,
    )
}

/// The lowest member of a set that holds nothing below its first boundary.
pub open spec fn low_end<T: SortKey>(vals: Seq<T>, kinds: Seq<Kind>) -> int {
    if kinds[0].at() {
        2 * vals[0].key()
    } else {
        2 * vals[0].key() + 1
    }
}

/// The highest member of a set that holds nothing above its last boundary.
pub open spec fn high_end<T: SortKey>(vals: Seq<T>, kinds: Seq<Kind>) -> int {
    if kinds[vals.len() - 1].at() {
        2 * vals[vals.len() - 1].key()
    } else {
        2 * vals[vals.len() - 1].key() - 1
    }
}

/// Without members below the first boundary, [low_end] is the lowest member.
proof fn lemma_low_end<T: SortKey>(vals: Seq<T>, kinds: Seq<Kind>)
    requires
        well_formed(false, vals, kinds),
        vals.len() > 0,
    ensures
        seq_value(false, vals, kinds, low_end(vals, kinds)),
        forall|d: int| #[trigger] seq_value(false, vals, kinds, d) ==> low_end(vals, kinds) <= d,
{
    let v = 2 * vals[0].key();
    lemma_value_at(false, vals, kinds, 0);
    assert forall|d: int| #[trigger] seq_value(false, vals, kinds, d) implies low_end(vals, kinds) <= d by {
        if d < v {
            lemma_value_between(false, vals, kinds, 0, d);
        }
    }
    if !kinds[0].at() {
        assert(kinds[0] != Kind::of(below_index(false, kinds, 0), below_index(false, kinds, 0)));
        if vals.len() > 1 {
            assert(vals[0].key() < vals[1].key());
        }
        lemma_value_between(false, vals, kinds, 1, v + 1);
    }
}

/// Without members above the last boundary, [high_end] is the highest member.
proof fn lemma_high_end<T: SortKey>(below: bool, vals: Seq<T>, kinds: Seq<Kind>)
    requires
        well_formed(below, vals, kinds),
        vals.len() > 0,
        !kinds[vals.len() - 1].above(),
    ensures
        seq_value(below, vals, kinds, high_end(vals, kinds)),
        forall|d: int| #[trigger] seq_value(below, vals, kinds, d) ==> d <= high_end(vals, kinds),
{
    let n = vals.len();
    let v = 2 * vals[n - 1].key();
    lemma_value_at(below, vals, kinds, n - 1);
    assert forall|d: int| #[trigger] seq_value(below, vals, kinds, d) implies d <= high_end(vals, kinds) by {
        if d > v {
            lemma_value_between(below, vals, kinds, n as int, d);
        }
    }
    if !kinds[n - 1].at() {
        assert(kinds[n - 1] != Kind::of(below_index(below, kinds, n - 1), below_index(below, kinds, n - 1)));
        if n > 1 {
            assert(vals[n - 2].key() < vals[n - 1].key());
        }
        lemma_value_between(below, vals, kinds, n - 1, v - 1);
    }
}

/// With members below all boundaries, everything below the first one is a member.
proof fn lemma_low_ray<T: SortKey>(below: bool, vals: Seq<T>, kinds: Seq<Kind>)
    requires
        well_formed(below, vals, kinds),
    ensures
        forall|d: int| (vals.len() == 0 || d < 2 * vals[0].key()) ==> #[trigger] seq_value(below, vals, kinds, d) == below,
{
    assert forall|d: int| (vals.len() == 0 || d < 2 * vals[0].key()) implies #[trigger] seq_value(below, vals, kinds, d) == below by {
        lemma_value_between(below, vals, kinds, 0, d);
    }
}

/// Above the last boundary, membership is what holds right above it.
proof fn lemma_high_ray<T: SortKey>(below: bool, vals: Seq<T>, kinds: Seq<Kind>)
    requires
        well_formed(below, vals, kinds),
    ensures
        forall|d: int| (vals.len() == 0 || d > 2 * vals[vals.len() - 1].key()) ==> #[trigger] seq_value(below, vals, kinds, d)
            == below_index(below, kinds, vals.len() as int),
{
    assert forall|d: int| (vals.len() == 0 || d > 2 * vals[vals.len() - 1].key()) implies #[trigger] seq_value(below, vals, kinds, d)
        == below_index(below, kinds, vals.len() as int) by {
        lemma_value_between(below, vals, kinds, vals.len() as int, d);
    }
}

/// Membership in a set with at most two boundaries, region by region.
proof fn lemma_value_small<T: SortKey>(below: bool, vals: Seq<T>, kinds: Seq<Kind>, d: int)
    requires
        well_formed(below, vals, kinds),
        vals.len() <= 2,
    ensures
        seq_value(below, vals, kinds, d) == if vals.len() == 0 || d < 2 * vals[0].key() {
            below
        } else if d == 2 * vals[0].key() {
            kinds[0].at()
        } else if vals.len() == 1 || d < 2 * vals[1].key() {
            kinds[0].above()
        } else if d == 2 * vals[1].key() {
            kinds[1].at()
        } else {
            kinds[1].above()
        },
{
    let n = vals.len();
    if n == 0 || d < 2 * vals[0].key() {
        lemma_value_between(below, vals, kinds, 0, d);
    } else if d == 2 * vals[0].key() {
        lemma_value_at(below, vals, kinds, 0);
    } else if n == 1 || d < 2 * vals[1].key() {
        lemma_value_between(below, vals, kinds, 1, d);
    } else if d == 2 * vals[1].key() {
        lemma_value_at(below, vals, kinds, 1);
    } else {
        lemma_value_between(below, vals, kinds, 2, d);
    }
}

/// What the contiguity test computes from the representation.
spec fn contiguous_test(below: bool, kinds: Seq<Kind>) -> bool {
    if below {
        kinds.len() == 1 && kinds[0] != Kind::K01
    } else {
        kinds.len() <= 1 || (kinds.len() == 2 && (kinds[0] is K01 || kinds[0] is K11) && (kinds[1] is K10
            || kinds[1] is K00))
    }
}

/// The contiguity test holds exactly of the sets without gaps that are not everything.
proof fn lemma_contiguous<T: SortKey>(below: bool, vals: Seq<T>, kinds: Seq<Kind>)
    requires
        well_formed(below, vals, kinds),
    ensures
        contiguous_test(below, kinds) == (convex(Set::new(|d: int| seq_value(below, vals, kinds, d)))
            && Set::new(|d: int| seq_value(below, vals, kinds, d)) != Set::<int>::full()),
{
    let s = Set::new(|d: int| seq_value(below, vals, kinds, d));
    let n = vals.len();
    if n >= 2 {
        assert(vals[0].key() < vals[1].key());
    }
    if n >= 3 {
        assert(vals[1].key() < vals[2].key());
    }
    if n > 0 {
        assert(kinds[0] != Kind::of(below_index(below, kinds, 0), below_index(below, kinds, 0)));
    }
    if n > 1 {
        assert(kinds[1] != Kind::of(below_index(below, kinds, 1), below_index(below, kinds, 1)));
    }
    if n > 2 {
        assert(kinds[2] != Kind::of(below_index(below, kinds, 2), below_index(below, kinds, 2)));
    }
    if below && n == 0 {
        lemma_low_ray(below, vals, kinds);
        assert(s =~= Set::<int>::full());
    } else if !below && n == 0 {
        lemma_low_ray(below, vals, kinds);
        assert(!s.contains(0));
        assert(convex(s));
    } else if n <= 2 && contiguous_test(below, kinds) {
        let v0 = 2 * vals[0].key();
        assert forall|a: int, b: int, d: int|
            #![trigger s.contains(a), s.contains(b), s.contains(d)]
            s.contains(a) && s.contains(b) && a <= d <= b implies s.contains(d) by {
            lemma_value_small(below, vals, kinds, a);
            lemma_value_small(below, vals, kinds, b);
            lemma_value_small(below, vals, kinds, d);
        }
        if below {
            lemma_value_small(below, vals, kinds, v0 + 1);
            assert(!s.contains(v0 + 1));
        } else {
            lemma_value_small(below, vals, kinds, v0 - 1);
            assert(!s.contains(v0 - 1));
        }
    } else {
        // a gap: two members with a non-member between them
        let v0 = 2 * vals[0].key();
        if kinds[0] is K01 {
            lemma_value_at(below, vals, kinds, 0);
            lemma_value_between(below, vals, kinds, 0, v0 - 1);
            lemma_value_between(below, vals, kinds, 1, v0 + 1);
            if below {
                assert(s.contains(v0 - 1) && s.contains(v0 + 1) && !s.contains(v0));
            } else {
                // a later boundary ends the ray above the first one
                let v1 = 2 * vals[1].key();
                lemma_value_at(below, vals, kinds, 1);
                lemma_value_between(below, vals, kinds, 1, v1 - 1);
                if kinds[1] is K01 {
                    lemma_value_between(below, vals, kinds, 2, v1 + 1);
                    assert(s.contains(v1 - 1) && s.contains(v1 + 1) && !s.contains(v1));
                } else {
                    let v2 = 2 * vals[2].key();
                    lemma_value_between(below, vals, kinds, 2, v1 + 1);
                    lemma_value_at(below, vals, kinds, 2);
                    lemma_value_between(below, vals, kinds, 3, v2 + 1);
                    if kinds[2].at() {
                        assert(s.contains(v1 - 1) && s.contains(v2) && !s.contains(v1 + 1));
                    } else {
                        assert(s.contains(v1 - 1) && s.contains(v2 + 1) && !s.contains(v1 + 1));
                    }
                }
            }
        } else if !kinds[0].above() {
            // the set holds something below or at the first boundary and something later
            let v1 = 2 * vals[1].key();
            lemma_value_at(below, vals, kinds, 0);
            lemma_value_between(below, vals, kinds, 0, v0 - 1);
            lemma_value_between(below, vals, kinds, 1, v0 + 1);
            lemma_value_at(below, vals, kinds, 1);
            lemma_value_between(below, vals, kinds, 2, v1 + 1);
            let a = if below { v0 - 1 } else { v0 };
            if kinds[1].at() {
                assert(s.contains(a) && s.contains(v1) && !s.contains(v0 + 1));
            } else {
                assert(s.contains(a) && s.contains(v1 + 1) && !s.contains(v0 + 1));
            }
        } else {
            // kinds[0] is K11, with nothing below it
            let v1 = 2 * vals[1].key();
            lemma_value_at(below, vals, kinds, 1);
            lemma_value_between(below, vals, kinds, 1, v1 - 1);
            lemma_value_between(below, vals, kinds, 2, v1 + 1);
            if kinds[1] is K01 {
                assert(s.contains(v1 - 1) && s.contains(v1 + 1) && !s.contains(v1));
            } else {
                let v2 = 2 * vals[2].key();
                lemma_value_at(below, vals, kinds, 2);
                lemma_value_between(below, vals, kinds, 3, v2 + 1);
                if kinds[2].at() {
                    assert(s.contains(v1 - 1) && s.contains(v2) && !s.contains(v1 + 1));
                } else {
                    assert(s.contains(v1 - 1) && s.contains(v2 + 1) && !s.contains(v1 + 1));
                }
            }
        }
    }
}

/// Queries on a set of values described by interval boundaries.
pub trait IntervalSet<T: SortKey> {
    /// The half steps that the set holds (see [holds_at]).
    spec fn members(&self) -> Set<int>;

    /// Whether the set is empty.
    fn is_empty(&self) -> (r: bool)
        ensures
            r == (self.members() == Set::<int>::empty()),
    ;

    /// Whether the set holds `value`.
    fn at(&self, value: T) -> (r: bool)
        ensures
            r == holds_at(self.members(), value.key()),
    ;

    /// Whether the set holds the values right above `value`.
    fn above(&self, value: T) -> (r: bool)
        ensures
            r == holds_above(self.members(), value.key()),
    ;

    /// Whether the set holds the values right below `value`.
    fn below(&self, value: T) -> (r: bool)
        ensures
            r == holds_below(self.members(), value.key()),
    ;

    /// Whether the set holds everything above some value.
    fn above_all(&self) -> (r: bool)
        ensures
            exists|m: int| #[trigger] constant_above(self.members(), m, r),
    ;

    /// Whether the set holds everything below some value.
    fn below_all(&self) -> (r: bool)
        ensures
            exists|m: int| #[trigger] constant_below(self.members(), m, r),
    ;

    /// Whether the set has no gap; the set of all values does not count as contiguous.
    fn is_contiguous(&self) -> (r: bool)
        ensures
            r == (convex(self.members()) && self.members() != Set::<int>::full()),
    ;

    /// The smallest interval that holds the set.
    fn hull(&self) -> (r: Interval<T>)
        ensures
            r.spec_valid(),
            r@ == hull_of(self.members()),
    ;
}

impl<T: SortKey> IntervalSet<T> for IntervalSeq<T> {
    open spec fn members(&self) -> Set<int> {
        self@
    }

    fn is_contiguous(&self) -> (r: bool) {
        proof {
            use_type_invariant(self);
            lemma_contiguous(self.below_all, self.values@, self.kinds@);
            assert(self@ =~= Set::new(|d: int| seq_value(self.below_all, self.values@, self.kinds@, d)));
        }
        if self.below_all {
            self.kinds.len() == 1 && self.kinds[0] != Kind::K01
        } else {
            if self.kinds.len() <= 1 {
                true
            } else if self.kinds.len() == 2 {
                let a = self.kinds[0];
                let b = self.kinds[1];
                (a == Kind::K01 || a == Kind::K11) && (b == Kind::K10 || b == Kind::K00)
            } else {
                false
            }
        }
    }

    #[verifier::rlimit(40)]
    fn hull(&self) -> (r: Interval<T>) {
        proof {
            use_type_invariant(self);
        }
        let ghost below = self.below_all;
        let ghost vals = self.values@;
        let ghost kinds = self.kinds@;
        let n = self.values.len();
        let above = self.below_index(n);
        proof {
            lemma_low_ray(below, vals, kinds);
            lemma_high_ray(below, vals, kinds);
            if n > 1 {
                assert(vals[0].key() < vals[n - 1].key());
            }
        }
        if !self.below_all && n == 0 {
            proof {
                assert(hull_of(self@) =~= Set::<int>::empty());
                assert(Interval::<T>::Empty@ =~= Set::<int>::empty());
            }
            Interval::Empty
        } else if self.below_all && above {
            let r = Interval::All;
            proof {
                assert forall|d: int| #[trigger] hull_of(self@).contains(d) == r.holds(d) by {
                    let a = if n == 0 || d < 2 * vals[0].key() { d } else { 2 * vals[0].key() - 1 };
                    let b = if n == 0 || d > 2 * vals[n - 1].key() { d } else { 2 * vals[n - 1].key() + 1 };
                    assert(self@.contains(a) && self@.contains(b) && a <= d <= b);
                }
                assert(r@ =~= hull_of(self@));
            }
            r
        } else if self.below_all {
            let upper = self.upper_bound(n - 1);
            let r = Interval::from_bounds(Bound::Unbound, upper);
            proof {
                lemma_high_end(below, vals, kinds);
                let m = high_end(vals, kinds);
                assert forall|d: int| #[trigger] hull_of(self@).contains(d) == r.holds(d) by {
                    if r.holds(d) {
                        let a = if d < 2 * vals[0].key() { d } else { 2 * vals[0].key() - 1 };
                        assert(self@.contains(a) && self@.contains(m) && a <= d <= m);
                    }
                    if hull_of(self@).contains(d) {
                        let (a, b) = choose|a: int, b: int| self@.contains(a) && self@.contains(b) && a <= d <= b;
                        assert(seq_value(below, vals, kinds, b));
                    }
                }
                assert(r@ =~= hull_of(self@));
            }
            r
        } else if above {
            let lower = self.lower_bound(0);
            let r = Interval::from_bounds(lower, Bound::Unbound);
            proof {
                lemma_low_end(vals, kinds);
                let m = low_end(vals, kinds);
                assert forall|d: int| #[trigger] hull_of(self@).contains(d) == r.holds(d) by {
                    if r.holds(d) {
                        let b = if d > 2 * vals[n - 1].key() { d } else { 2 * vals[n - 1].key() + 1 };
                        assert(self@.contains(m) && self@.contains(b) && m <= d <= b);
                    }
                    if hull_of(self@).contains(d) {
                        let (a, b) = choose|a: int, b: int| self@.contains(a) && self@.contains(b) && a <= d <= b;
                        assert(seq_value(below, vals, kinds, a));
                    }
                }
                assert(r@ =~= hull_of(self@));
            }
            r
        } else {
            let lower = self.lower_bound(0);
            let upper = self.upper_bound(n - 1);
            let r = Interval::from_bounds(lower, upper);
            proof {
                lemma_low_end(vals, kinds);
                lemma_high_end(below, vals, kinds);
                let m = low_end(vals, kinds);
                let mm = high_end(vals, kinds);
                assert forall|d: int| #[trigger] hull_of(self@).contains(d) == r.holds(d) by {
                    if r.holds(d) {
                        assert(self@.contains(m) && self@.contains(mm) && m <= d <= mm);
                    }
                    if hull_of(self@).contains(d) {
                        let (a, b) = choose|a: int, b: int| self@.contains(a) && self@.contains(b) && a <= d <= b;
                        assert(seq_value(below, vals, kinds, a));
                        assert(seq_value(below, vals, kinds, b));
                    }
                }
                assert(r@ =~= hull_of(self@));
            }
            r
        }
    }

    fn is_empty(&self) -> (r: bool) {
        proof {
            use_type_invariant(self);
        }
        let r = !self.below_all && self.values.len() == 0;
        proof {
            if r {
                assert(self@ =~= Set::<int>::empty());
            } else if self.values@.len() > 0 {
                let v = self.values@[0].key();
                lemma_value_at(self.below_all, self.values@, self.kinds@, 0);
                lemma_value_between(self.below_all, self.values@, self.kinds@, 0, 2 * v - 1);
                if self.values@.len() > 1 {
                    assert(self.values@[0].key() < self.values@[1].key());
                }
                lemma_value_between(self.below_all, self.values@, self.kinds@, 1, 2 * v + 1);
                assert(self.kinds@[0] != Kind::of(self.below_all, self.below_all));
                assert(self@.contains(2 * v - 1) || self@.contains(2 * v) || self@.contains(2 * v + 1));
            } else {
                assert(self@.contains(0));
            }
        }
        r
    }

    fn at(&self, value: T) -> (r: bool) {
        proof {
            use_type_invariant(self);
        }
        match search(self.values.as_slice(), 0, self.values.len(), &value) {
            Ok(index) => {
                proof {
                    lemma_value_at(self.below_all, self.values@, self.kinds@, index as int);
                }
                self.kinds[index].value_at()
            },
            Err(index) => {
                proof {
                    lemma_value_between(self.below_all, self.values@, self.kinds@, index as int, 2 * value.key());
                }
                self.below_index(index)
            },
        }
    }

    fn above(&self, value: T) -> (r: bool) {
        proof {
            use_type_invariant(self);
        }
        match search(self.values.as_slice(), 0, self.values.len(), &value) {
            Ok(index) => {
                proof {
                    if index + 1 < self.values@.len() {
                        assert(self.values@[index as int].key() < self.values@[index + 1].key());
                    }
                    lemma_value_between(self.below_all, self.values@, self.kinds@, index + 1, 2 * value.key() + 1);
                }
                self.kinds[index].value_above()
            },
            Err(index) => {
                proof {
                    lemma_value_between(self.below_all, self.values@, self.kinds@, index as int, 2 * value.key() + 1);
                }
                self.below_index(index)
            },
        }
    }

    fn below(&self, value: T) -> (r: bool) {
        proof {
            use_type_invariant(self);
        }
        match search(self.values.as_slice(), 0, self.values.len(), &value) {
            Ok(index) => {
                proof {
                    if index > 0 {
                        assert(self.values@[index - 1].key() < self.values@[index as int].key());
                    }
                    lemma_value_between(self.below_all, self.values@, self.kinds@, index as int, 2 * value.key() - 1);
                }
                if index > 0 {
                    self.kinds[index - 1].value_above()
                } else {
                    self.below_all
                }
            },
            Err(index) => {
                proof {
                    lemma_value_between(self.below_all, self.values@, self.kinds@, index as int, 2 * value.key() - 1);
                }
                self.below_index(index)
            },
        }
    }

    fn below_all(&self) -> (r: bool) {
        proof {
            use_type_invariant(self);
            let m = if self.values@.len() > 0 { 2 * self.values@[0].key() } else { 0 };
            assert forall|d: int| d < m implies #[trigger] self@.contains(d) == self.below_all by {
                lemma_value_between(self.below_all, self.values@, self.kinds@, 0, d);
            }
            assert(constant_below(self.members(), m, self.below_all));
        }
        self.below_all
    }

    fn above_all(&self) -> (r: bool) {
        proof {
            use_type_invariant(self);
        }
        let n = self.kinds.len();
        let r = self.below_index(n);
        proof {
            let m = if n > 0 { 2 * self.values@[n - 1].key() } else { 0 };
            assert forall|d: int| d > m implies #[trigger] self@.contains(d) == r by {
                lemma_value_between(self.below_all, self.values@, self.kinds@, n as int, d);
            }
            assert(constant_above(self.members(), m, r));
        }
        r
    }
}

impl<T: SortKey> IntervalSeq<T> {
    /// Whether the representation is well formed: one kind per value, values ascending, and no
    /// boundary that changes nothing. Every interval sequence is.
    pub fn is_valid(&self) -> (r: bool)
        ensures
            r,
    {
        proof {
            use_type_invariant(self);
        }
        if self.values.len() != self.kinds.len() {
            return false;
        }
        let mut prev = self.below_all;
        let mut i: usize = 0;
        while i < self.values.len()
            invariant
                well_formed(self.below_all, self.values@, self.kinds@),
                i <= self.values@.len(),
                prev == below_index(self.below_all, self.kinds@, i as int),
            decreases self.values@.len() - i,
        {
            if i > 0 && !self.values[i - 1].key_lt(&self.values[i]) {
                return false;
            }
            let k = self.kinds[i];
            if (!prev && k == Kind::K00) || (prev && k == Kind::K11) {
                return false;
            }
            prev = k.value_above();
            i = i + 1;
        }
        true
    }
}

impl<T: SortKey> BitAnd for IntervalSeq<T> {
    type Output = IntervalSeq<T>;

    fn bitand(self, rhs: IntervalSeq<T>) -> (r: IntervalSeq<T>)
        ensures
            r@ == self@.intersect(rhs@),
    {
        self.and(rhs)
    }
}

impl<T: SortKey> vstd::std_specs::ops::BitAndSpecImpl for IntervalSeq<T> {
    /// The result is described by the `ensures` of `bitand` alone.
    open spec fn obeys_bitand_spec() -> bool {
        false
    }

    open spec fn bitand_req(self, rhs: IntervalSeq<T>) -> bool {
        true
    }

    open spec fn bitand_spec(self, rhs: IntervalSeq<T>) -> IntervalSeq<T> {
        self
    }
}

impl<T: SortKey> BitOr for IntervalSeq<T> {
    type Output = IntervalSeq<T>;

    fn bitor(self, rhs: IntervalSeq<T>) -> (r: IntervalSeq<T>)
        ensures
            r@ == self@.union(rhs@),
    {
        self.or(rhs)
    }
}

impl<T: SortKey> vstd::std_specs::ops::BitOrSpecImpl for IntervalSeq<T> {
    /// The result is described by the `ensures` of `bitor` alone.
    open spec fn obeys_bitor_spec() -> bool {
        false
    }

    open spec fn bitor_req(self, rhs: IntervalSeq<T>) -> bool {
        true
    }

    open spec fn bitor_spec(self, rhs: IntervalSeq<T>) -> IntervalSeq<T> {
        self
    }
}

impl<T: SortKey> BitXor for IntervalSeq<T> {
    type Output = IntervalSeq<T>;

    fn bitxor(self, rhs: IntervalSeq<T>) -> (r: IntervalSeq<T>)
        ensures
            r@ == self@.difference(rhs@).union(rhs@.difference(self@)),
    {
        self.xor(rhs)
    }
}

impl<T: SortKey> vstd::std_specs::ops::BitXorSpecImpl for IntervalSeq<T> {
    /// The result is described by the `ensures` of `bitxor` alone.
    open spec fn obeys_bitxor_spec() -> bool {
        false
    }

    open spec fn bitxor_req(self, rhs: IntervalSeq<T>) -> bool {
        true
    }

    open spec fn bitxor_spec(self, rhs: IntervalSeq<T>) -> IntervalSeq<T> {
        self
    }
}

impl<T: SortKey> Not for IntervalSeq<T> {
    type Output = IntervalSeq<T>;

    fn not(self) -> (r: IntervalSeq<T>)
        ensures
            r@ == self@.complement(),
    {
        self.negate()
    }
}

impl<T: SortKey> vstd::std_specs::ops::NotSpecImpl for IntervalSeq<T> {
    /// The result is described by the `ensures` of `not` alone.
    open spec fn obeys_not_spec() -> bool {
        false
    }

    open spec fn not_req(self) -> bool {
        true
    }

    open spec fn not_spec(self) -> IntervalSeq<T> {
        self
    }
}

impl<T: SortKey> Clone for IntervalSeq<T> {
    fn clone(&self) -> (r: Self)
        ensures
            r@ == self@,
    {
        proof {
            use_type_invariant(self);
        }
        let values = crate::array_set::copy_vec(&self.values);
        let kinds = crate::array_set::copy_vec(&self.kinds);
        IntervalSeq { below_all: self.below_all, values, kinds }
    }
}

impl<T: SortKey> From<bool> for IntervalSeq<T> {
    fn from(value: bool) -> (r: IntervalSeq<T>)
        ensures
            r@ == (if value { Set::<int>::full() } else { Set::<int>::empty() }),
    {
        IntervalSeq::constant(value)
    }
}

impl<T: SortKey> vstd::std_specs::convert::FromSpecImpl<bool> for IntervalSeq<T> {
    /// The result is described by the `ensures` of `from` alone.
    open spec fn obeys_from_spec() -> bool {
        false
    }

    closed spec fn from_spec(v: bool) -> Self {
        vstd::pervasive::arbitrary()
    }
}

impl<T: SortKey> From<Interval<T>> for IntervalSeq<T> {
    fn from(value: Interval<T>) -> (r: IntervalSeq<T>)
        ensures
            r@ == value@,
    {
        IntervalSeq::from_interval(value)
    }
}

impl<T: SortKey> vstd::std_specs::convert::FromSpecImpl<Interval<T>> for IntervalSeq<T> {
    /// The result is described by the `ensures` of `from` alone.
    open spec fn obeys_from_spec() -> bool {
        false
    }

    closed spec fn from_spec(v: Interval<T>) -> Self {
        vstd::pervasive::arbitrary()
    }
}


/// The maximal intervals of an interval sequence, in ascending order.
///
/// It has passed the first `i` boundaries; `lower` is where the interval that is open at this
/// point starts, if one is.
pub struct Intervals<'a, T: SortKey> {
    seq: &'a IntervalSeq<T>,
    i: usize,
    lower: Option<Bound<T>>,
}

impl<'a, T: SortKey> Intervals<'a, T> {
    #[verifier::type_invariant]
    spec fn inv(self) -> bool {
        let n = self.seq.values@.len();
        &&& self.seq.valid()
        &&& self.i <= n
        &&& (self.lower is Some ==> self.seq.bi(self.i as int))
        &&& (self.lower is None && self.i < n ==> !self.seq.bi(self.i as int))
        &&& match self.lower {
            Some(Bound::Unbound) => self.i == 0,
            Some(Bound::Closed(x)) => self.i > 0 && x == self.seq.values@[self.i - 1]
                && self.seq.kinds@[self.i - 1].at(),
            Some(Bound::Open(x)) => self.i > 0 && x == self.seq.values@[self.i - 1]
                && !self.seq.kinds@[self.i - 1].at(),
            Some(Bound::Empty) => false,
            None => true,
        }
    }

    /// Whether the half step `d` is still to be handed out.
    spec fn pending(&self, d: int) -> bool {
        self.seq.val(d) && match self.lower {
            Some(b) => b.allows_from_below(d),
            None => self.i < self.seq.values@.len() && (self.i == 0 || 2 * self.seq.values@[self.i
                - 1].key() < d),
        }
    }

    /// The part of the set that is still to be handed out.
    pub closed spec fn rest(&self) -> Set<int> {
        Set::new(|d: int| self.pending(d))
    }

    /// The whole set that is being walked through.
    pub closed spec fn whole(&self) -> Set<int> {
        self.seq@
    }

    /// The half step of the next boundary to pass, if one is left.
    pub closed spec fn upcoming(&self) -> Option<int> {
        if self.i < self.seq.values@.len() {
            Some(2 * self.seq.values@[self.i as int].key())
        } else {
            None
        }
    }

    /// A bound on the number of steps left.
    pub closed spec fn steps(&self) -> nat {
        (2 * (self.seq.values@.len() - self.i) + if self.lower is Some { 1int } else { 0int }) as nat
    }

    /// Passes the next boundary, or closes the last interval. Returns an interval when one
    /// ends there: the lowest maximal interval of what is left. One ends at the next boundary
    /// `v` when what is left has a gap at or right above `v` with some of it below the gap;
    /// once all boundaries are passed, what is left is one interval, and it is returned.
    #[verifier::rlimit(80)]
    pub fn next_interval(&mut self) -> (r: Option<Interval<T>>)
        ensures
            final(self).whole() == old(self).whole(),
            match old(self).upcoming() {
                Some(v) => {
                    &&& next_edge(old(self).whole(), Some(v), final(self).upcoming())
                    &&& (r is Some <==> exists|d: int, e: int|
                        #![trigger old(self).rest().contains(d), old(self).rest().contains(e)]
                        old(self).rest().contains(d) && !old(self).rest().contains(e) && d < e <= v + 1)
                },
                None => {
                    &&& final(self).upcoming() is None
                    &&& final(self).rest() == Set::<int>::empty()
                    &&& (r is Some <==> old(self).rest() != Set::<int>::empty())
                },
            },
            old(self).steps() == 0 ==> r is None && old(self).rest() == Set::<int>::empty(),
            old(self).steps() > 0 ==> final(self).steps() < old(self).steps(),
            r is None ==> final(self).rest() == old(self).rest(),
            r matches Some(iv) ==> {
                &&& iv.spec_valid()
                &&& iv@ == first_run(old(self).rest())
                &&& exists|d: int| #[trigger] iv.holds(d)
                &&& forall|d: int| #[trigger] iv.holds(d) ==> old(self).rest().contains(d)
                &&& final(self).rest() == old(self).rest().difference(iv@)
                &&& forall|d: int, e: int| #[trigger] iv.holds(d) && #[trigger] final(self).rest().contains(e) ==> d + 1 < e
            },
    {
        proof {
            use_type_invariant(&*self);
        }
        let seq = self.seq;
        let ghost vals = seq.values@;
        let ghost kinds = seq.kinds@;
        let ghost below = seq.below_all;
        let i = self.i;
        let n = seq.values.len();
        if i < n {
            let value = seq.values[i];
            let kind = seq.kinds[i];
            let ghost v = 2 * value.key();
            proof {
                seq.lemma_next_edge(i + 1);
                lemma_value_at(below, vals, kinds, i as int);
                assert forall|d: int| (i == 0 || 2 * vals[i - 1].key() < d) && d < v implies #[trigger] seq.val(d)
                    == seq.bi(i as int) by {
                    lemma_value_between(below, vals, kinds, i as int, d);
                }
                assert forall|d: int| v < d && (i + 1 == n || d < 2 * vals[i + 1].key()) implies #[trigger] seq.val(d)
                    == kind.above() by {
                    lemma_value_between(below, vals, kinds, i + 1, d);
                }
                if i + 1 < n {
                    assert(vals[i as int].key() < vals[i + 1].key());
                    assert(seq.val(v + 1) == kind.above());
                }
                if i > 0 {
                    assert(vals[i - 1].key() < vals[i as int].key());
                    lemma_value_at(below, vals, kinds, i - 1);
                }
                assert(kinds[i as int] != Kind::of(seq.bi(i as int), seq.bi(i as int)));
            }
            match self.lower {
                None => {
                    match kind {
                        Kind::K10 => {
                            *self = Intervals { seq, i: i + 1, lower: None };
                            let iv = Interval::Point(value);
                            proof {
                                assert(old(self).rest().contains(v) && !old(self).rest().contains(v + 1));
                                assert(iv.holds(v));
                                assert(seq.val(v + 1) == false);
                                assert forall|d: int| #[trigger] iv.holds(d) implies old(self).rest().contains(d) by {}
                                assert(self.rest() =~= old(self).rest().difference(iv@));
                                assert forall|d: int, e: int| #[trigger] iv.holds(d) && #[trigger] self.rest().contains(e)
                                    implies d + 1 < e by {
                                    assert(e != v + 1);
                                }
                                lemma_first_run(iv, old(self).rest(), self.rest());
                            }
                            Some(iv)
                        },
                        Kind::K11 => {
                            *self = Intervals { seq, i: i + 1, lower: Some(Bound::Closed(value)) };
                            proof {
                                assert forall|d: int, e: int|
                                    #![trigger old(self).rest().contains(d), old(self).rest().contains(e)]
                                    old(self).rest().contains(d) && !old(self).rest().contains(e) && d < e
                                    implies v + 1 < e by {
                                    if d < v {
                                        assert(seq.val(d) == seq.bi(i as int));
                                    }
                                    assert(old(self).rest().contains(v + 1));
                                }
                                assert(self.rest() =~= old(self).rest());
                            }
                            None
                        },
                        Kind::K01 => {
                            *self = Intervals { seq, i: i + 1, lower: Some(Bound::Open(value)) };
                            proof {
                                assert forall|d: int, e: int|
                                    #![trigger old(self).rest().contains(d), old(self).rest().contains(e)]
                                    old(self).rest().contains(d) && !old(self).rest().contains(e) && d < e
                                    implies v + 1 < e by {
                                    if d < v {
                                        assert(seq.val(d) == seq.bi(i as int));
                                    }
                                }
                                assert(self.rest() =~= old(self).rest());
                            }
                            None
                        },
                        Kind::K00 => {
                            proof {
                                assert(false);
                            }
                            None
                        },
                    }
                },
                Some(lower) => {
                    match kind {
                        Kind::K01 => {
                            let upper = Bound::Open(value);
                            *self = Intervals { seq, i: i + 1, lower: Some(upper) };
                            let iv = Interval::from_bounds(lower, upper);
                            proof {
                                assert(seq.val(v - 1) == seq.bi(i as int));
                                assert(old(self).rest().contains(v - 1) && !old(self).rest().contains(v));
                                assert(exists|d: int| #[trigger] iv.holds(d)) by {
                                    match lower {
                                        Bound::Closed(x) => {
                                            assert(iv.holds(2 * x.key()));
                                        },
                                        Bound::Open(x) => {
                                            assert(iv.holds(2 * x.key() + 1));
                                        },
                                        _ => {
                                            assert(iv.holds(v - 1));
                                        },
                                    }
                                }
                                assert forall|d: int| #[trigger] iv.holds(d) implies old(self).rest().contains(d) by {}
                                assert(self.rest() =~= old(self).rest().difference(iv@));
                                lemma_first_run(iv, old(self).rest(), self.rest());
                            }
                            Some(iv)
                        },
                        Kind::K00 => {
                            let upper = Bound::Open(value);
                            *self = Intervals { seq, i: i + 1, lower: None };
                            let iv = Interval::from_bounds(lower, upper);
                            proof {
                                assert(seq.val(v - 1) == seq.bi(i as int));
                                assert(old(self).rest().contains(v - 1) && !old(self).rest().contains(v));
                                assert(exists|d: int| #[trigger] iv.holds(d)) by {
                                    match lower {
                                        Bound::Closed(x) => {
                                            assert(iv.holds(2 * x.key()));
                                        },
                                        Bound::Open(x) => {
                                            assert(iv.holds(2 * x.key() + 1));
                                        },
                                        _ => {
                                            assert(iv.holds(v - 1));
                                        },
                                    }
                                }
                                assert(seq.val(v + 1) == false);
                                assert forall|d: int| #[trigger] iv.holds(d) implies old(self).rest().contains(d) by {}
                                assert(self.rest() =~= old(self).rest().difference(iv@));
                                assert forall|d: int, e: int| #[trigger] iv.holds(d) && #[trigger] self.rest().contains(e)
                                    implies d + 1 < e by {
                                    assert(e != v + 1);
                                }
                                lemma_first_run(iv, old(self).rest(), self.rest());
                            }
                            Some(iv)
                        },
                        Kind::K10 => {
                            let upper = Bound::Closed(value);
                            *self = Intervals { seq, i: i + 1, lower: None };
                            let iv = Interval::from_bounds(lower, upper);
                            proof {
                                assert(old(self).rest().contains(v) && !old(self).rest().contains(v + 1));
                                assert(iv.holds(v));
                                assert(seq.val(v + 1) == false);
                                assert forall|d: int| #[trigger] iv.holds(d) implies old(self).rest().contains(d) by {}
                                assert(self.rest() =~= old(self).rest().difference(iv@));
                                assert forall|d: int, e: int| #[trigger] iv.holds(d) && #[trigger] self.rest().contains(e)
                                    implies d + 1 < e by {
                                    assert(e != v + 1);
                                }
                                lemma_first_run(iv, old(self).rest(), self.rest());
                            }
                            Some(iv)
                        },
                        Kind::K11 => {
                            proof {
                                assert(false);
                            }
                            None
                        },
                    }
                },
            }
        } else {
            match self.lower {
                Some(lower) => {
                    *self = Intervals { seq, i, lower: None };
                    let iv = Interval::from_bounds(lower, Bound::Unbound);
                    proof {
                        assert forall|d: int| (n == 0 || 2 * vals[n - 1].key() < d) implies #[trigger] seq.val(d)
                            == seq.bi(n as int) by {
                            lemma_value_between(below, vals, kinds, n as int, d);
                        }
                        if n > 0 {
                            lemma_value_at(below, vals, kinds, n - 1);
                        }
                        assert(exists|d: int| #[trigger] iv.holds(d)) by {
                            match lower {
                                Bound::Closed(x) => {
                                    assert(iv.holds(2 * x.key()));
                                },
                                Bound::Open(x) => {
                                    assert(iv.holds(2 * x.key() + 1));
                                },
                                _ => {
                                    assert(iv.holds(0));
                                },
                            }
                        }
                        assert forall|d: int| #[trigger] iv.holds(d) implies old(self).rest().contains(d) by {}
                        assert(self.rest() =~= old(self).rest().difference(iv@));
                        assert(self.rest() =~= Set::<int>::empty());
                        lemma_first_run(iv, old(self).rest(), self.rest());
                    }
                    Some(iv)
                },
                None => {
                    proof {
                        assert(old(self).rest() =~= Set::<int>::empty());
                    }
                    None
                },
            }
        }
    }

    /// The next maximal interval of the set, in ascending order, or `None` when all have been
    /// handed out.
    pub fn next(&mut self) -> (r: Option<Interval<T>>)
        ensures
            r is None ==> old(self).rest() == Set::<int>::empty() && final(self).rest() == Set::<int>::empty(),
            r is Some ==> final(self).steps() < old(self).steps(),
            r matches Some(iv) ==> {
                &&& iv.spec_valid()
                &&& iv@ == first_run(old(self).rest())
                &&& exists|d: int| #[trigger] iv.holds(d)
                &&& forall|d: int| #[trigger] iv.holds(d) ==> old(self).rest().contains(d)
                &&& final(self).rest() == old(self).rest().difference(iv@)
                &&& forall|d: int, e: int| #[trigger] iv.holds(d) && #[trigger] final(self).rest().contains(e) ==> d + 1 < e
            },
    {
        loop
            invariant
                self.rest() == old(self).rest(),
                self.steps() <= old(self).steps(),
            decreases self.steps(),
        {
            proof {
                use_type_invariant(&*self);
            }
            let has_next = self.i < self.seq.values.len() || self.lower.is_some();
            match self.next_interval() {
                Some(x) => {
                    return Some(x);
                },
                None => {
                    if !has_next {
                        return None;
                    }
                },
            }
        }
    }
}

impl<T: SortKey> IntervalSeq<T> {
    /// The maximal intervals of the set, in ascending order.
    pub fn intervals(&self) -> (r: Intervals<'_, T>)
        ensures
            r.rest() == self@,
            r.whole() == self@,
            next_edge(self@, None, r.upcoming()),
    {
        proof {
            use_type_invariant(self);
        }
        let r = Intervals { seq: self, i: 0, lower: if self.below_all { Some(Bound::Unbound) } else { None } };
        proof {
            self.lemma_next_edge(0);
            if !self.below_all && self.values@.len() == 0 {
                assert(self@ =~= Set::<int>::empty());
            }
            assert(r.rest() =~= self@);
        }
        r
    }

    /// The boundary values, in ascending order: exactly the values at which membership changes.
    pub fn edges(&self) -> (r: Edges<'_, T>)
        ensures
            r.remaining() == self.boundaries(),
            sorted(self.boundaries()),
            forall|d: int| #[trigger] is_edge(self@, d) <==> exists|j: int|
                0 <= j < self.boundaries().len() && d == 2 * #[trigger] self.boundaries()[j].key(),
    {
        proof {
            use_type_invariant(self);
            assert forall|d: int| #[trigger] is_edge(self@, d) <==> exists|j: int|
                0 <= j < self.values@.len() && d == 2 * #[trigger] self.values@[j].key() by {
                lemma_edges(self.below_all, self.values@, self.kinds@, d);
            }
        }
        let r = Edges { values: self.values.as_slice(), i: 0 };
        assert(r.remaining() =~= self.values@);
        r
    }

    /// The boundary values, in ascending order.
    pub closed spec fn boundaries(&self) -> Seq<T> {
        self.values@
    }
}

/// The boundary values of an interval sequence, in ascending order.
pub struct Edges<'a, T> {
    values: &'a [T],
    i: usize,
}

impl<'a, T> Edges<'a, T> {
    #[verifier::type_invariant]
    spec fn inv(self) -> bool {
        self.i <= self.values@.len()
    }

    /// The values not yet handed out.
    pub closed spec fn remaining(&self) -> Seq<T> {
        self.values@.skip(self.i as int)
    }

    /// The next boundary value, if any.
    pub fn next(&mut self) -> (r: Option<&'a T>)
        ensures
            old(self).remaining().len() == 0 ==> r is None && final(self).remaining() == old(self).remaining(),
            old(self).remaining().len() > 0 ==> (r matches Some(x) && *x == old(self).remaining()[0])
                && final(self).remaining() == old(self).remaining().drop_first(),
    {
        proof {
            use_type_invariant(&*self);
        }
        if self.i < self.values.len() {
            let x = &self.values[self.i];
            assert(old(self).remaining()[0] == self.values@[self.i as int]);
            self.i = self.i + 1;
            assert(self.remaining() =~= old(self).remaining().drop_first());
            Some(x)
        } else {
            None
        }
    }
}

} // verus!

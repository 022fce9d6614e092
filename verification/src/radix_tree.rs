//! A radix tree: a map from sequences of keys to values in which entries share the nodes of
//! their common prefixes.
//!
//! Each node holds the keys of the edge that leads to it, the value of the sequence that ends
//! there, if any, and its subtrees, ordered by the first key of their edge. Sets and maps
//! combine node by node, splitting an edge where two trees part and joining a node with its
//! only child again where nothing ends at it.
use vstd::prelude::*;
use crate::key::SortKey;

verus! {

broadcast use vstd::std_specs::vec::axiom_vec_index_decreases, vstd::std_specs::vec::axiom_vec_decreases_to_view;

/// `p` is a prefix of `s`.
pub open spec fn has_prefix<K>(s: Seq<K>, p: Seq<K>) -> bool {
    p.len() <= s.len() && s.take(p.len() as int) == p
}

/// A node of a radix tree, and the tree below it.
#[derive(Debug, PartialEq, Eq)]
pub struct RadixTree<K, V> {
    prefix: Vec<K>,
    value: Option<V>,
    children: Vec<RadixTree<K, V>>,
}

impl<K: SortKey, V> RadixTree<K, V> {
    /// The keys of the edge that leads to this node.
    pub closed spec fn edge(self) -> Seq<K> {
        self.prefix@
    }

    /// The value at this node.
    pub closed spec fn node_value(self) -> Option<V> {
        self.value
    }

    /// The subtrees below this node.
    pub closed spec fn subtrees(self) -> Seq<RadixTree<K, V>> {
        self.children@
    }

    /// The value stored under `key` in this tree; `key` includes the edge of the root.
    pub closed spec fn lookup(self, key: Seq<K>) -> Option<V>
        decreases self, 0int,
    {
        if has_prefix(key, self.prefix@) {
            let rest = key.skip(self.prefix@.len() as int);
            if rest.len() == 0 {
                self.value
            } else {
                proof {
                    assert(decreases_to!(self => self.children));
                }
                lookup_in(self.children@, 0, rest)
            }
        } else {
            None
        }
    }

    /// The number of levels of the tree.
    pub closed spec fn height(self) -> nat
        decreases self, 0int,
    {
        proof {
            assert(decreases_to!(self => self.children));
        }
        1 + max_height(self.children@, 0)
    }

    /// Children have nonempty edges, strictly ascending by their first key, and are well formed
    /// themselves.
    pub closed spec fn wf(self) -> bool
        decreases self,
    {
        &&& forall|i: int| 0 <= i < self.children@.len() ==> #[trigger] self.children@[i].prefix@.len() > 0
        &&& forall|i: int, j: int|
            0 <= i < j < self.children@.len() ==> (#[trigger] self.children@[i]).prefix@[0].key() < (
            #[trigger] self.children@[j]).prefix@[0].key()
        &&& forall|i: int| 0 <= i < self.children@.len() ==> (#[trigger] self.children@[i]).wf()
    }

    /// Neither this node nor a node below it is without a value and without children.
    pub closed spec fn trimmed(self) -> bool
        decreases self,
    {
        &&& (self.value is Some || self.children@.len() > 0)
        &&& forall|i: int| 0 <= i < self.children@.len() ==> (#[trigger] self.children@[i]).trimmed()
    }
}

impl<K: SortKey, V> View for RadixTree<K, V> {
    type V = Map<Seq<K>, V>;

    /// The entries of the tree: each key sequence with a value, and its value.
    closed spec fn view(&self) -> Map<Seq<K>, V> {
        Map::new(|k: Seq<K>| self.lookup(k) is Some, |k: Seq<K>| self.lookup(k)->0)
    }
}

/// The value under `rest` in the first of the trees `cs[i..]` that has one.
spec fn lookup_in<K: SortKey, V>(cs: Seq<RadixTree<K, V>>, i: int, rest: Seq<K>) -> Option<V>
    decreases cs, cs.len() - i,
{
    if 0 <= i < cs.len() {
        match cs[i].lookup(rest) {
            Some(v) => Some(v),
            None => lookup_in(cs, i + 1, rest),
        }
    } else {
        None
    }
}

/// The largest height among the trees `cs[i..]`, and 0 if there are none.
spec fn max_height<K: SortKey, V>(cs: Seq<RadixTree<K, V>>, i: int) -> nat
    decreases cs, cs.len() - i,
{
    if 0 <= i < cs.len() {
        let h = cs[i].height();
        let m = max_height(cs, i + 1);
        if h < m {
            m
        } else {
            h
        }
    } else {
        0
    }
}

/// The first key of the edge of `t`.
spec fn first<K: SortKey, V>(t: RadixTree<K, V>) -> int {
    t.prefix@[0].key()
}

/// Every tree of the list is trimmed.
spec fn all_trimmed<K: SortKey, V>(cs: Seq<RadixTree<K, V>>) -> bool {
    forall|i: int| 0 <= i < cs.len() ==> (#[trigger] cs[i]).trimmed()
}

/// A list of subtrees as a well formed node holds them.
spec fn children_ok<K: SortKey, V>(cs: Seq<RadixTree<K, V>>) -> bool {
    &&& forall|i: int| 0 <= i < cs.len() ==> #[trigger] cs[i].prefix@.len() > 0
    &&& forall|i: int, j: int| 0 <= i < j < cs.len() ==> first(#[trigger] cs[i]) < first(#[trigger] cs[j])
    &&& forall|i: int| 0 <= i < cs.len() ==> (#[trigger] cs[i]).wf()
}

proof fn lemma_wf_children<K: SortKey, V>(t: RadixTree<K, V>)
    ensures
        t.wf() == children_ok(t.children@),
{
}

/// A tree whose edge starts with another key than `key` has nothing under it.
proof fn lemma_lookup_other_first<K: SortKey, V>(t: RadixTree<K, V>, key: Seq<K>)
    requires
        t.prefix@.len() > 0,
        key.len() > 0,
        t.prefix@[0] != key[0],
    ensures
        t.lookup(key) is None,
{
    if has_prefix(key, t.prefix@) {
        assert(key.take(t.prefix@.len() as int)[0] == key[0]);
    }
}

/// In a list of subtrees with distinct first keys, the value under `rest` is the one in the
/// subtree whose edge starts with `rest[0]`, and there is none if no edge does.
proof fn lemma_lookup_in<K: SortKey, V>(cs: Seq<RadixTree<K, V>>, i: int, rest: Seq<K>)
    requires
        children_ok(cs),
        rest.len() > 0,
        0 <= i,
    ensures
        forall|j: int| i <= j < cs.len() && (#[trigger] cs[j]).prefix@[0] == rest[0] ==> lookup_in(cs, i, rest) == cs[j].lookup(rest),
        (forall|j: int| i <= j < cs.len() ==> (#[trigger] cs[j]).prefix@[0] != rest[0]) ==> lookup_in(cs, i, rest) is None,
    decreases cs.len() - i,
{
    if i < cs.len() {
        lemma_lookup_in(cs, i + 1, rest);
        if cs[i].prefix@[0] != rest[0] {
            lemma_lookup_other_first(cs[i], rest);
        } else {
            assert forall|j: int| i < j < cs.len() implies (#[trigger] cs[j]).prefix@[0] != rest[0] by {
                assert(first(cs[i]) < first(cs[j]));
            }
        }
    }
}

/// A subtree is lower than the node above it.
proof fn lemma_max_height<K: SortKey, V>(cs: Seq<RadixTree<K, V>>, i: int, j: int)
    requires
        0 <= i <= j < cs.len(),
    ensures
        cs[j].height() <= max_height(cs, i),
    decreases j - i,
{
    if i < j {
        lemma_max_height(cs, i + 1, j);
    }
}

proof fn lemma_child_height<K: SortKey, V>(t: RadixTree<K, V>, j: int)
    requires
        0 <= j < t.children@.len(),
    ensures
        t.children@[j].height() < t.height(),
{
    lemma_max_height(t.children@, 0, j);
}

/// A key `x` comes before the subtree `cs[i]`, if there is one.
spec fn before<K: SortKey, V>(cs: Seq<RadixTree<K, V>>, i: int, x: int) -> bool {
    0 <= i < cs.len() ==> x < first(cs[i])
}

/// A way of combining the values of two maps under one key, which gives nothing for nothing.
pub open spec fn combines<V, W>(comb: spec_fn(Option<V>, Option<W>) -> Option<V>) -> bool {
    comb(None, None) is None
}

/// `c` is what merging the subtrees `ga[..ia]` and `gb[..ib]` under `comb` gives: it is a list
/// of subtrees as a node holds them, all before the subtrees that remain, and under every key
/// sequence that starts before those, it holds the combination of what `ga` and `gb` hold.
spec fn merged<K: SortKey, V, W>(
    ga: Seq<RadixTree<K, V>>,
    ia: int,
    gb: Seq<RadixTree<K, W>>,
    ib: int,
    c: Seq<RadixTree<K, V>>,
    comb: spec_fn(Option<V>, Option<W>) -> Option<V>,
) -> bool {
    &&& 0 <= ia <= ga.len()
    &&& 0 <= ib <= gb.len()
    &&& children_ok(c)
    &&& forall|j: int| 0 <= j < c.len() ==> before(ga, ia, #[trigger] first(c[j])) && before(gb, ib, first(c[j]))
    &&& forall|j: int| 0 <= j < ia ==> before(gb, ib, #[trigger] first(ga[j]))
    &&& forall|j: int| 0 <= j < ib ==> before(ga, ia, #[trigger] first(gb[j]))
    &&& forall|rest: Seq<K>|
        rest.len() > 0 && before(ga, ia, rest[0].key()) && before(gb, ib, rest[0].key()) ==> #[trigger] lookup_in(c, 0, rest)
            == comb(lookup_in(ga, 0, rest), lookup_in(gb, 0, rest))
}

/// Nothing is merged yet.
proof fn lemma_merge_start<K: SortKey, V, W>(
    ga: Seq<RadixTree<K, V>>,
    gb: Seq<RadixTree<K, W>>,
    comb: spec_fn(Option<V>, Option<W>) -> Option<V>,
)
    requires
        children_ok(ga),
        children_ok(gb),
        combines(comb),
    ensures
        merged(ga, 0, gb, 0, Seq::empty(), comb),
{
    assert forall|rest: Seq<K>|
        rest.len() > 0 && before(ga, 0, rest[0].key()) && before(gb, 0, rest[0].key()) implies #[trigger] lookup_in(
        Seq::<RadixTree<K, V>>::empty(),
        0,
        rest,
    ) == comb(lookup_in(ga, 0, rest), lookup_in(gb, 0, rest)) by {
        lemma_lookup_in(ga, 0, rest);
        lemma_lookup_in(gb, 0, rest);
        assert forall|j: int| 0 <= j < ga.len() implies (#[trigger] ga[j]).prefix@[0] != rest[0] by {
            if j > 0 {
                assert(first(ga[0]) < first(ga[j]));
            }
        }
        assert forall|j: int| 0 <= j < gb.len() implies (#[trigger] gb[j]).prefix@[0] != rest[0] by {
            if j > 0 {
                assert(first(gb[0]) < first(gb[j]));
            }
        }
    }
}

/// When everything is merged, the merged list holds the combination under every key sequence.
proof fn lemma_merge_end<K: SortKey, V, W>(
    ga: Seq<RadixTree<K, V>>,
    gb: Seq<RadixTree<K, W>>,
    c: Seq<RadixTree<K, V>>,
    comb: spec_fn(Option<V>, Option<W>) -> Option<V>,
    rest: Seq<K>,
)
    requires
        merged(ga, ga.len() as int, gb, gb.len() as int, c, comb),
        rest.len() > 0,
    ensures
        lookup_in(c, 0, rest) == comb(lookup_in(ga, 0, rest), lookup_in(gb, 0, rest)),
{
}

/// What the subtree `cs[i]` holds under `rest` if `take`, and nothing otherwise.
spec fn taken<K: SortKey, V>(cs: Seq<RadixTree<K, V>>, i: int, take: bool, rest: Seq<K>) -> Option<V> {
    if take {
        cs[i].lookup(rest)
    } else {
        None
    }
}

/// The conditions of one step of a merge: the subtrees with the smallest next first key `x`
/// are taken, from `ga`, from `gb` or from both.
spec fn step_ok<K: SortKey, V, W>(
    ga: Seq<RadixTree<K, V>>,
    ia: int,
    gb: Seq<RadixTree<K, W>>,
    ib: int,
    ta: bool,
    tb: bool,
    x: int,
) -> bool {
    &&& (ta || tb)
    &&& ta ==> ia < ga.len() && first(ga[ia]) == x
    &&& tb ==> ib < gb.len() && first(gb[ib]) == x
    &&& !ta ==> before(ga, ia, x) && (ia < ga.len() ==> x < first(ga[ia]))
    &&& !tb ==> (ib < gb.len() ==> x < first(gb[ib]))
}

/// One step of a merge, which appends `t` to the merged list or, with `push` false, nothing.
proof fn lemma_merge_step<K: SortKey, V, W>(
    ga: Seq<RadixTree<K, V>>,
    ia: int,
    gb: Seq<RadixTree<K, W>>,
    ib: int,
    c: Seq<RadixTree<K, V>>,
    comb: spec_fn(Option<V>, Option<W>) -> Option<V>,
    ta: bool,
    tb: bool,
    x: int,
    push: bool,
    t: RadixTree<K, V>,
)
    requires
        children_ok(ga),
        children_ok(gb),
        combines(comb),
        merged(ga, ia, gb, ib, c, comb),
        step_ok(ga, ia, gb, ib, ta, tb, x),
        push ==> t.prefix@.len() > 0 && first(t) == x && t.wf(),
        forall|rest: Seq<K>|
            rest.len() > 0 && rest[0].key() == x ==> (if push {
                t.lookup(rest)
            } else {
                None
            }) == comb(#[trigger] taken(ga, ia, ta, rest), taken(gb, ib, tb, rest)),
    ensures
        merged(
            ga,
            if ta { ia + 1 } else { ia },
            gb,
            if tb { ib + 1 } else { ib },
            if push { c.push(t) } else { c },
            comb,
        ),
{
    let ia2 = if ta { ia + 1 } else { ia };
    let ib2 = if tb { ib + 1 } else { ib };
    let c2 = if push { c.push(t) } else { c };
    assert(forall|j: int| 0 <= j < c.len() ==> #[trigger] first(c[j]) < x);
    assert forall|j: int| 0 <= j < ia2 implies #[trigger] first(ga[j]) <= x by {
        if ta {
            if j < ia {
                assert(first(ga[j]) < first(ga[ia]));
            }
        } else {
            assert(before(gb, ib, first(ga[j])));
        }
    }
    assert forall|j: int| 0 <= j < ib2 implies #[trigger] first(gb[j]) <= x by {
        if tb {
            if j < ib {
                assert(first(gb[j]) < first(gb[ib]));
            }
        } else {
            assert(before(ga, ia, first(gb[j])));
        }
    }
    assert forall|j: int| ia2 <= j < ga.len() implies x < #[trigger] first(ga[j]) by {
        if ta {
            assert(first(ga[ia]) < first(ga[j]));
        } else if ia < j {
            assert(first(ga[ia]) < first(ga[j]));
        }
    }
    assert forall|j: int| ib2 <= j < gb.len() implies x < #[trigger] first(gb[j]) by {
        if tb {
            assert(first(gb[ib]) < first(gb[j]));
        } else if ib < j {
            assert(first(gb[ib]) < first(gb[j]));
        }
    }
    assert(children_ok(c2)) by {
        if push {
            assert forall|i: int, j: int| 0 <= i < j < c2.len() implies first(#[trigger] c2[i]) < first(#[trigger] c2[j]) by {
                if j == c.len() {
                    assert(first(c[i]) < x);
                } else {
                    assert(c2[i] == c[i] && c2[j] == c[j]);
                }
            }
            assert forall|i: int| 0 <= i < c2.len() implies #[trigger] c2[i].prefix@.len() > 0 && c2[i].wf() by {
                if i < c.len() {
                    assert(c2[i] == c[i]);
                }
            }
        }
    }
    assert forall|j: int| 0 <= j < c2.len() implies before(ga, ia2, #[trigger] first(c2[j])) && before(gb, ib2, first(c2[j])) by {
        if j < c.len() {
            assert(c2[j] == c[j]);
        }
    }
    assert forall|rest: Seq<K>|
        rest.len() > 0 && before(ga, ia2, rest[0].key()) && before(gb, ib2, rest[0].key()) implies #[trigger] lookup_in(
        c2,
        0,
        rest,
    ) == comb(lookup_in(ga, 0, rest), lookup_in(gb, 0, rest)) by {
        let y = rest[0].key();
        lemma_lookup_in(ga, 0, rest);
        lemma_lookup_in(gb, 0, rest);
        lemma_lookup_in(c, 0, rest);
        lemma_lookup_in(c2, 0, rest);
        if y < x {
            if push {
                K::lemma_key_injective(rest[0], t.prefix@[0]);
                assert(c2[c.len() as int] == t);
                assert forall|j: int| 0 <= j < c.len() && (#[trigger] c[j]).prefix@[0] == rest[0] implies
                    c2[j].prefix@[0] == rest[0] && c2[j] == c[j] by {}
                if exists|j: int| 0 <= j < c.len() && (#[trigger] c[j]).prefix@[0] == rest[0] {
                    let j = choose|j: int| 0 <= j < c.len() && (#[trigger] c[j]).prefix@[0] == rest[0];
                    assert(c2[j] == c[j]);
                } else {
                    assert forall|j: int| 0 <= j < c2.len() implies (#[trigger] c2[j]).prefix@[0] != rest[0] by {
                        if j < c.len() {
                            assert(c2[j] == c[j]);
                        }
                    }
                }
            }
            assert(before(ga, ia, y) && before(gb, ib, y));
        } else {
            assert forall|j: int| 0 <= j < c2.len() && (#[trigger] c2[j]).prefix@[0] == rest[0] implies push && j == c.len() by {
                if j < c.len() {
                    assert(c2[j] == c[j]);
                    assert(first(c[j]) < x);
                }
            }
            assert forall|j: int| 0 <= j < ga.len() && (#[trigger] ga[j]).prefix@[0] == rest[0] implies ta && j == ia by {
                assert(first(ga[j]) == y);
            }
            assert forall|j: int| 0 <= j < gb.len() && (#[trigger] gb[j]).prefix@[0] == rest[0] implies tb && j == ib by {
                assert(first(gb[j]) == y);
            }
            if y == x {
                // instantiate the requirement on `t` for this key sequence
                let _ = taken(ga, ia, ta, rest);
                if ta {
                    K::lemma_key_injective(rest[0], ga[ia].prefix@[0]);
                }
                if tb {
                    K::lemma_key_injective(rest[0], gb[ib].prefix@[0]);
                }
                if push {
                    K::lemma_key_injective(rest[0], t.prefix@[0]);
                    assert(c2[c.len() as int] == t);
                } else {
                    assert forall|j: int| 0 <= j < c2.len() implies (#[trigger] c2[j]).prefix@[0] != rest[0] by {}
                }
                if !ta {
                    assert forall|j: int| 0 <= j < ga.len() implies (#[trigger] ga[j]).prefix@[0] != rest[0] by {}
                }
                if !tb {
                    assert forall|j: int| 0 <= j < gb.len() implies (#[trigger] gb[j]).prefix@[0] != rest[0] by {}
                }
            } else {
                assert forall|j: int| 0 <= j < c2.len() implies (#[trigger] c2[j]).prefix@[0] != rest[0] by {
                    if push && j == c.len() {
                        assert(c2[j] == t);
                    }
                }
                assert forall|j: int| 0 <= j < ga.len() implies (#[trigger] ga[j]).prefix@[0] != rest[0] by {}
                assert forall|j: int| 0 <= j < gb.len() implies (#[trigger] gb[j]).prefix@[0] != rest[0] by {}
            }
        }
    }
}

/// `p + q` is a prefix of `k` exactly when `p` is and `q` is a prefix of the rest.
proof fn lemma_prefix_concat<K>(k: Seq<K>, p: Seq<K>, q: Seq<K>)
    ensures
        has_prefix(k, p + q) == (has_prefix(k, p) && has_prefix(k.skip(p.len() as int), q)),
        has_prefix(k, p + q) ==> k.skip((p + q).len() as int) == k.skip(p.len() as int).skip(q.len() as int),
{
    if has_prefix(k, p + q) {
        assert(k.take(p.len() as int) =~= (p + q).take(p.len() as int));
        assert((p + q).take(p.len() as int) =~= p);
        assert(k.skip(p.len() as int).take(q.len() as int) =~= q) by {
            assert forall|i: int| 0 <= i < q.len() implies k.skip(p.len() as int).take(q.len() as int)[i] == q[i] by {
                assert(k.take((p + q).len() as int)[p.len() + i] == (p + q)[p.len() + i]);
            }
        }
        assert(k.skip((p + q).len() as int) =~= k.skip(p.len() as int).skip(q.len() as int));
    }
    if has_prefix(k, p) && has_prefix(k.skip(p.len() as int), q) {
        assert(k.take((p + q).len() as int) =~= p + q) by {
            assert forall|i: int| 0 <= i < (p + q).len() implies k.take((p + q).len() as int)[i] == (p + q)[i] by {
                if i < p.len() {
                    assert(k.take(p.len() as int)[i] == p[i]);
                } else {
                    assert(k.skip(p.len() as int).take(q.len() as int)[i - p.len()] == q[i - p.len()]);
                }
            }
        }
    }
}

/// Lists of subtrees that hold the same under every key hold the same from every index on.
proof fn lemma_lookup_in_same<K: SortKey, V>(cs: Seq<RadixTree<K, V>>, ds: Seq<RadixTree<K, V>>, i: int, rest: Seq<K>)
    requires
        cs.len() == ds.len(),
        forall|j: int, k: Seq<K>| 0 <= j < cs.len() ==> #[trigger] cs[j].lookup(k) == ds[j].lookup(k),
    ensures
        lookup_in(cs, i, rest) == lookup_in(ds, i, rest),
    decreases cs.len() - i,
{
    if 0 <= i < cs.len() {
        lemma_lookup_in_same(cs, ds, i + 1, rest);
        assert(cs[i].lookup(rest) == ds[i].lookup(rest));
    }
}

/// Lists of subtrees of the same heights have the same largest height.
proof fn lemma_max_height_same<K: SortKey, V>(cs: Seq<RadixTree<K, V>>, ds: Seq<RadixTree<K, V>>, i: int)
    requires
        cs.len() == ds.len(),
        forall|j: int| 0 <= j < cs.len() ==> #[trigger] cs[j].height() == ds[j].height(),
    ensures
        max_height(cs, i) == max_height(ds, i),
    decreases cs.len() - i,
{
    if 0 <= i < cs.len() {
        lemma_max_height_same(cs, ds, i + 1);
        assert(cs[i].height() == ds[i].height());
    }
}

/// The length of the longest common prefix of `a` and `b`.
fn common_prefix<K: SortKey>(a: &[K], b: &[K]) -> (r: usize)
    ensures
        r <= a@.len(),
        r <= b@.len(),
        a@.take(r as int) == b@.take(r as int),
        r < a@.len() && r < b@.len() ==> a@[r as int] != b@[r as int],
{
    let max = if a.len() < b.len() { a.len() } else { b.len() };
    let mut i: usize = 0;
    while i < max
        invariant
            max <= a@.len(),
            max <= b@.len(),
            max == a@.len() || max == b@.len(),
            i <= max,
            a@.take(i as int) == b@.take(i as int),
        decreases max - i,
    {
        if !a[i].key_eq(&b[i]) {
            return i;
        }
        proof {
            K::lemma_key_injective(a@[i as int], b@[i as int]);
            assert(a@.take(i + 1) =~= a@.take(i as int).push(a@[i as int]));
            assert(b@.take(i + 1) =~= b@.take(i as int).push(b@[i as int]));
        }
        i = i + 1;
    }
    i
}

/// A copy of the elements of `v` from `n` on.
fn copy_back<K: Copy>(v: &[K], n: usize) -> (r: Vec<K>)
    requires
        n <= v@.len(),
    ensures
        r@ == v@.skip(n as int),
{
    let mut r: Vec<K> = Vec::new();
    let mut i: usize = n;
    while i < v.len()
        invariant
            n <= i <= v@.len(),
            r@ == v@.subrange(n as int, i as int),
        decreases v@.len() - i,
    {
        r.push(v[i]);
        assert(r@ =~= v@.subrange(n as int, i + 1));
        i = i + 1;
    }
    assert(r@ =~= v@.skip(n as int));
    r
}

impl<K: SortKey, V: Copy> RadixTree<K, V> {
    /// Whether this node has no value and no subtrees.
    pub closed spec fn bare(self) -> bool {
        self.value is None && self.children@.len() == 0
    }

    /// The empty tree, with an empty edge.
    pub fn new() -> (r: Self)
        ensures
            r.wf(),
            r@ == Map::<Seq<K>, V>::empty(),
            r.edge() == Seq::<K>::empty(),
            r.bare(),
    {
        let r = RadixTree { prefix: Vec::new(), value: None, children: Vec::new() };
        assert(r@ =~= Map::<Seq<K>, V>::empty());
        r
    }

    /// The tree that holds `value` under the empty sequence.
    pub fn leaf(value: V) -> (r: Self)
        ensures
            r.wf(),
            r.trimmed(),
            r@ == map![Seq::<K>::empty() => value],
    {
        let empty: Vec<K> = Vec::new();
        let r = Self::single(empty.as_slice(), value);
        assert(empty@ =~= Seq::<K>::empty());
        r
    }

    /// The tree that holds `value` under `key`.
    pub fn single(key: &[K], value: V) -> (r: Self)
        ensures
            r.wf(),
            r.trimmed(),
            r@ == map![key@ => value],
            r.edge() == key@,
    {
        let prefix = copy_back(key, 0);
        let r = RadixTree { prefix, value: Some(value), children: Vec::new() };
        assert(prefix@ =~= key@);
        assert forall|k: Seq<K>| #[trigger] r.lookup(k) == (if k == key@ { Some(value) } else { None }) by {
            if has_prefix(k, key@) && k != key@ {
                assert(k.take(key@.len() as int) == key@);
                assert(k.skip(key@.len() as int).len() > 0) by {
                    if k.len() == key@.len() {
                        assert(k =~= k.take(key@.len() as int));
                    }
                }
            }
            if k == key@ {
                assert(k.take(key@.len() as int) =~= key@);
                assert(k.skip(key@.len() as int).len() == 0);
            }
        }
        assert(r@ =~= map![key@ => value]);
        r
    }

    /// The keys of the edge that leads to the root.
    pub fn prefix(&self) -> (r: &[K])
        ensures
            r@ == self.edge(),
    {
        self.prefix.as_slice()
    }

    /// The value stored at the root: under the edge of the root.
    pub fn value(&self) -> (r: &Option<V>)
        ensures
            *r == self@.get(self.edge()),
    {
        proof {
            assert(self.prefix@.take(self.prefix@.len() as int) =~= self.prefix@);
            assert(self.prefix@.skip(self.prefix@.len() as int).len() == 0);
        }
        &self.value
    }

    /// Whether the root has no value and no subtrees.
    pub fn is_empty(&self) -> (r: bool)
        requires
            self.wf(),
        ensures
            r == self.bare(),
            r ==> self@ == Map::<Seq<K>, V>::empty(),
            self.trimmed() ==> self@ != Map::<Seq<K>, V>::empty(),
    {
        let r = self.value.is_none() && self.children.len() == 0;
        if r {
            assert(self@ =~= Map::<Seq<K>, V>::empty());
        }
        proof {
            if self.trimmed() {
                let k = lemma_trimmed_some(*self, 0);
                lemma_lookup_off_zero(*self, k);
                assert(self@.dom().contains(k));
            }
        }
        r
    }

    /// Puts `prefix` in front of the edge of the root.
    pub fn prepend(&mut self, prefix: &[K])
        requires
            old(self).wf(),
        ensures
            final(self).wf(),
            final(self).edge() == prefix@ + old(self).edge(),
            final(self).node_value() == old(self).node_value(),
            final(self).subtrees() == old(self).subtrees(),
            final(self).height() == old(self).height(),
            final(self).trimmed() == old(self).trimmed(),
            forall|k: Seq<K>| #[trigger] final(self).lookup(k) == (if has_prefix(k, prefix@) {
                old(self).lookup(k.skip(prefix@.len() as int))
            } else {
                None
            }),
    {
        if prefix.len() > 0 {
            let mut p = copy_back(prefix, 0);
            let mut q = Vec::new();
            std::mem::swap(&mut q, &mut self.prefix);
            let ghost pp = p@;
            p.append(&mut q);
            self.prefix = p;
            assert(pp =~= prefix@);
        } else {
            assert(prefix@ + old(self).edge() =~= old(self).edge());
        }
        assert forall|k: Seq<K>| #[trigger] self.lookup(k) == (if has_prefix(k, prefix@) {
            old(self).lookup(k.skip(prefix@.len() as int))
        } else {
            None
        }) by {
            lemma_prefix_concat(k, prefix@, old(self).prefix@);
            if prefix@.len() == 0 {
                assert(k.take(0) =~= prefix@);
                assert(k.skip(0) =~= k);
            }
        }
    }
}


impl<K: SortKey, V: Copy> RadixTree<K, V> {
    /// Splits the edge of the root after `n` keys: the root keeps the first `n` keys and gets
    /// the old root, with the rest of the edge, as its only subtree.
    fn split(&mut self, n: usize)
        requires
            old(self).wf(),
            n < old(self).prefix@.len(),
        ensures
            final(self).wf(),
            forall|k: Seq<K>| #[trigger] final(self).lookup(k) == old(self).lookup(k),
            final(self).prefix@ == old(self).prefix@.take(n as int),
            final(self).value is None,
            final(self).children@.len() == 1,
            final(self).children@[0].prefix@ == old(self).prefix@.skip(n as int),
            final(self).children@[0].height() == old(self).height(),
            final(self).height() == old(self).height() + 1,
            old(self).trimmed() ==> final(self).trimmed(),
    {
        let rest = self.prefix.split_off(n);
        let mut value: Option<V> = None;
        std::mem::swap(&mut value, &mut self.value);
        let mut children: Vec<Self> = Vec::new();
        std::mem::swap(&mut children, &mut self.children);
        let child = RadixTree { prefix: rest, value, children };
        self.children.push(child);
        proof {
            let p = old(self).prefix@;
            let pn = p.take(n as int);
            assert(p =~= pn + rest@);
            assert(child.children@ == old(self).children@);
            assert(child.wf() == old(self).wf());
            assert(child.trimmed() == old(self).trimmed());
            assert(max_height(self.children@, 1) == 0);
            assert(child.height() == old(self).height());
            assert(self.prefix@ == pn);
            assert(self.children@ =~= seq![child]);
            assert forall|k: Seq<K>| #[trigger] self.lookup(k) == old(self).lookup(k) by {
                lemma_prefix_concat(k, pn, rest@);
                if has_prefix(k, pn) {
                    let r = k.skip(n as int);
                    if r.len() > 0 {
                        assert(lookup_in(self.children@, 1, r) is None);
                        assert(self.children@[0] == child);
                        assert(lookup_in(self.children@, 0, r) == child.lookup(r));
                        assert(self.lookup(k) == child.lookup(r));
                        assert(old(self).lookup(k) == child.lookup(r));
                    } else {
                        assert(k.len() == n);
                        assert(self.lookup(k) is None);
                    }
                } else {
                    assert(self.lookup(k) is None);
                }
            }
        }
    }

    /// Joins a root without a value to its only subtree.
    fn unsplit(&mut self)
        requires
            old(self).wf(),
        ensures
            final(self).wf(),
            forall|k: Seq<K>| #[trigger] final(self).lookup(k) == old(self).lookup(k),
            final(self).height() <= old(self).height(),
            old(self).prefix@.len() > 0 ==> final(self).prefix@.len() > 0 && final(self).prefix@[0]
                == old(self).prefix@[0],
            old(self).trimmed() ==> final(self).trimmed(),
            old(self).bare() ==> final(self).bare(),
            if old(self).subtrees().len() == 1 && old(self).node_value() is None {
                &&& final(self).edge() == old(self).edge() + old(self).subtrees()[0].edge()
                &&& final(self).node_value() == old(self).subtrees()[0].node_value()
                &&& final(self).subtrees() == old(self).subtrees()[0].subtrees()
            } else {
                *final(self) == *old(self)
            },
    {
        if self.children.len() == 1 && self.value.is_none() {
            let ghost c0 = self.children@[0];
            proof {
                lemma_child_height(*self, 0);
            }
            let mut child = self.children.pop().unwrap();
            assert(child == c0);
            child.prepend(self.prefix.as_slice());
            proof {
                assert forall|k: Seq<K>| #[trigger] child.lookup(k) == old(self).lookup(k) by {
                    if has_prefix(k, old(self).prefix@) {
                        let r = k.skip(old(self).prefix@.len() as int);
                        if r.len() == 0 {
                            assert(c0.prefix@.len() > 0);
                        } else {
                            assert(lookup_in(old(self).children@, 1, r) is None);
                        }
                    }
                }
            }
            *self = child;
        }
    }

    /// A copy of the tree in which the edge of the root loses its first `n` keys.
    fn copy_shortened(&self, n: usize) -> (r: Self)
        requires
            self.wf(),
            n < self.prefix@.len(),
        ensures
            r.wf(),
            r.prefix@ == self.prefix@.skip(n as int),
            r.value == self.value,
            r.height() == self.height(),
            forall|k: Seq<K>| #[trigger] r.lookup(k) == self.lookup(self.prefix@.take(n as int) + k),
            self.trimmed() ==> r.trimmed(),
        decreases self,
    {
        let mut out: Vec<Self> = Vec::new();
        let mut i: usize = 0;
        while i < self.children.len()
            invariant
                self.wf(),
                i <= self.children@.len(),
                out@.len() == i,
                forall|j: int| 0 <= j < i ==> (#[trigger] out@[j]).prefix@ == self.children@[j].prefix@,
                forall|j: int| 0 <= j < i ==> (#[trigger] out@[j]).wf(),
                forall|j: int| 0 <= j < i ==> (#[trigger] out@[j]).height() == self.children@[j].height(),
                forall|j: int, k: Seq<K>| 0 <= j < i ==> #[trigger] out@[j].lookup(k) == self.children@[j].lookup(k),
                forall|j: int| 0 <= j < i ==> self.children@[j].trimmed() ==> (#[trigger] out@[j]).trimmed(),
            decreases self.children@.len() - i,
        {
            let ghost c = self.children@[i as int];
            assert(c.prefix@.len() > 0);
            let t = self.children[i].copy_shortened(0);
            proof {
                assert forall|k: Seq<K>| #[trigger] t.lookup(k) == c.lookup(k) by {
                    assert(c.prefix@.take(0) + k =~= k);
                }
                assert(t.prefix@ =~= c.prefix@);
            }
            out.push(t);
            i = i + 1;
        }
        let prefix = copy_back(self.prefix.as_slice(), n);
        let r = RadixTree { prefix, value: self.value, children: out };
        proof {
            let ghost cs = self.children@;
            assert(r.wf()) by {
                assert forall|i: int, j: int| 0 <= i < j < out@.len() implies (#[trigger] out@[i]).prefix@[0].key() < (
                #[trigger] out@[j]).prefix@[0].key() by {
                    assert(first(cs[i]) < first(cs[j]));
                }
            }
            assert forall|j: int, k: Seq<K>| 0 <= j < cs.len() implies #[trigger] out@[j].lookup(k) == cs[j].lookup(k) by {}
            lemma_max_height_same(out@, cs, 0);
            assert forall|k: Seq<K>| #[trigger] r.lookup(k) == self.lookup(self.prefix@.take(n as int) + k) by {
                let pn = self.prefix@.take(n as int);
                let kk = pn + k;
                lemma_prefix_concat(kk, pn, prefix@);
                assert(self.prefix@ =~= pn + prefix@);
                assert(kk.take(n as int) =~= pn);
                assert(kk.skip(n as int) =~= k);
                if has_prefix(k, prefix@) {
                    let rest = k.skip(prefix@.len() as int);
                    if rest.len() > 0 {
                        lemma_lookup_in_same(out@, cs, 0, rest);
                    }
                }
            }
        }
        r
    }
}

/// The value of the first map where it has one, and that of the second otherwise.
pub open spec fn union_of<V>(a: Option<V>, b: Option<V>) -> Option<V> {
    if a is Some {
        a
    } else {
        b
    }
}

/// [union_of] as a function value.
spec fn union_comb<V>() -> spec_fn(Option<V>, Option<V>) -> Option<V> {
    |a: Option<V>, b: Option<V>| union_of(a, b)
}

/// The value of the first map where the second has one too.
pub open spec fn inter_of<V, W>(a: Option<V>, b: Option<W>) -> Option<V> {
    if b is Some {
        a
    } else {
        None
    }
}

/// The value of the first map where the second has none.
pub open spec fn diff_of<V, W>(a: Option<V>, b: Option<W>) -> Option<V> {
    if b is Some {
        None
    } else {
        a
    }
}

/// [inter_of] as a function value.
spec fn inter_comb<V, W>() -> spec_fn(Option<V>, Option<W>) -> Option<V> {
    |a: Option<V>, b: Option<W>| inter_of(a, b)
}

/// [diff_of] as a function value.
spec fn diff_comb<V, W>() -> spec_fn(Option<V>, Option<W>) -> Option<V> {
    |a: Option<V>, b: Option<W>| diff_of(a, b)
}

/// A bare node holds nothing.
proof fn lemma_bare_lookup<K: SortKey, V: Copy>(t: RadixTree<K, V>, k: Seq<K>)
    requires
        t.bare(),
    ensures
        t.lookup(k) is None,
{
}

/// A tree whose edge differs from `k` at a position within both has nothing under `k`.
proof fn lemma_lookup_diverging<K: SortKey, V>(t: RadixTree<K, V>, k: Seq<K>, i: int)
    requires
        0 <= i < t.prefix@.len(),
        i < k.len(),
        k[i] != t.prefix@[i],
    ensures
        t.lookup(k) is None,
{
    if has_prefix(k, t.prefix@) {
        assert(k.take(t.prefix@.len() as int)[i] == k[i]);
    }
}

/// A tree whose edge is longer than `k` has nothing under `k`.
proof fn lemma_lookup_short<K: SortKey, V>(t: RadixTree<K, V>, k: Seq<K>)
    requires
        k.len() < t.prefix@.len(),
    ensures
        t.lookup(k) is None,
{
}

/// A list of one subtree holds what that subtree holds.
proof fn lemma_lookup_in_one<K: SortKey, V>(cs: Seq<RadixTree<K, V>>, rest: Seq<K>)
    requires
        cs.len() == 1,
    ensures
        lookup_in(cs, 0, rest) == cs[0].lookup(rest),
{
    assert(lookup_in(cs, 1, rest) is None);
}

impl<K: SortKey, V: Copy> RadixTree<K, V> {
    /// Merges the subtrees `a` and `b` of two nodes with the same key sequence: subtrees whose
    /// edges start with the same key are combined, the others are kept, those of `b` copied.
    #[verifier::loop_isolation(false)]
    #[verifier::spinoff_prover]
    fn merge_outer(a: Vec<Self>, b: &[Self]) -> (c: Vec<Self>)
        requires
            children_ok(a@),
            children_ok(b@),
        ensures
            children_ok(c@),
            all_trimmed(a@) && all_trimmed(b@) ==> all_trimmed(c@) && c@.len() >= a@.len() && c@.len() >= b@.len(),
            forall|rest: Seq<K>| rest.len() > 0 ==> #[trigger] lookup_in(c@, 0, rest) == union_of(
                lookup_in(a@, 0, rest),
                lookup_in(b@, 0, rest),
            ),
        decreases max_height(a@, 0) + max_height(b@, 0) + 1, 0int,
    {
        let ghost ga = a@;
        let ghost gb = b@;
        let ghost comb = union_comb::<V>();
        let mut a = a;
        let mut ra: Vec<Self> = Vec::new();
        while a.len() > 0
            invariant
                a@ == ga.take(a@.len() as int),
                ra@.len() == ga.len() - a@.len(),
                forall|j: int| 0 <= j < ra@.len() ==> #[trigger] ra@[j] == ga[ga.len() - 1 - j],
            decreases a@.len(),
        {
            let x = a.pop().unwrap();
            ra.push(x);
            assert(a@ =~= ga.take(a@.len() as int));
        }
        let mut c: Vec<Self> = Vec::new();
        let mut ib: usize = 0;
        proof {
            lemma_merge_start(ga, gb, comb);
        }
        while ra.len() > 0 || ib < b.len()
            invariant
                children_ok(ga),
                children_ok(gb),
                combines(comb),
                comb == union_comb::<V>(),
                b@ == gb,
                ra@.len() <= ga.len(),
                forall|j: int| 0 <= j < ra@.len() ==> #[trigger] ra@[j] == ga[ga.len() - 1 - j],
                ib <= gb.len(),
                merged(ga, ga.len() - ra@.len(), gb, ib as int, c@, comb),
                all_trimmed(ga) && all_trimmed(gb) ==> all_trimmed(c@) && c@.len() >= ga.len() - ra@.len() && c@.len() >= ib,
            decreases ra@.len() + gb.len() - ib,
        {
            let ghost ia = ga.len() - ra@.len();
            let ghost c0 = c@;
            let mut take_a = true;
            let mut take_b = true;
            if ra.len() == 0 {
                take_a = false;
            } else if ib == b.len() {
                take_b = false;
            } else {
                assert(ra@[ra@.len() - 1] == ga[ia]);
                let ka = &ra[ra.len() - 1].prefix[0];
                let kb = &b[ib].prefix[0];
                if ka.key_lt(kb) {
                    take_b = false;
                } else if kb.key_lt(ka) {
                    take_a = false;
                }
            }
            if take_a && !take_b {
                assert(ra@[ra@.len() - 1] == ga[ia]);
                let t = ra.pop().unwrap();
                proof {
                    assert forall|rest: Seq<K>| rest.len() > 0 && rest[0].key() == first(t) implies (if true {
                        t.lookup(rest)
                    } else {
                        None
                    }) == comb(#[trigger] taken(ga, ia, true, rest), taken(gb, ib as int, false, rest)) by {}
                    lemma_merge_step(ga, ia, gb, ib as int, c0, comb, true, false, first(t), true, t);
                }
                c.push(t);
            } else if !take_a {
                let ghost tb = gb[ib as int];
                let t = b[ib].copy_shortened(0);
                proof {
                    assert forall|rest: Seq<K>| rest.len() > 0 && rest[0].key() == first(tb) implies (if true {
                        t.lookup(rest)
                    } else {
                        None
                    }) == comb(#[trigger] taken(ga, ia, false, rest), taken(gb, ib as int, true, rest)) by {
                        assert(tb.prefix@.take(0) + rest =~= rest);
                    }
                    assert(t.prefix@ =~= tb.prefix@);
                    lemma_merge_step(ga, ia, gb, ib as int, c0, comb, false, true, first(tb), true, t);
                }
                c.push(t);
                ib = ib + 1;
            } else {
                assert(ra@[ra@.len() - 1] == ga[ia]);
                let mut t = ra.pop().unwrap();
                let ghost ta = t;
                let ghost tb = gb[ib as int];
                proof {
                    lemma_max_height(ga, 0, ia);
                    lemma_max_height(gb, 0, ib as int);
                    K::lemma_key_injective(ta.prefix@[0], tb.prefix@[0]);
                    assert(ta.height() + b@[ib as int].height() < max_height(ga, 0) + max_height(gb, 0) + 1);
                }
                t.outer_combine_with(&b[ib]);
                let keep = !t.is_empty();
                proof {
                    if keep {
                        assert forall|rest: Seq<K>| rest.len() > 0 && rest[0].key() == first(ta) implies (if true {
                            t.lookup(rest)
                        } else {
                            None
                        }) == comb(#[trigger] taken(ga, ia, true, rest), taken(gb, ib as int, true, rest)) by {
                            assert(t.lookup(rest) == union_of(ta.lookup(rest), tb.lookup(rest)));
                        }
                        lemma_merge_step(ga, ia, gb, ib as int, c0, comb, true, true, first(ta), true, t);
                    } else {
                        assert forall|rest: Seq<K>| rest.len() > 0 && rest[0].key() == first(ta) implies (if false {
                            t.lookup(rest)
                        } else {
                            None
                        }) == comb(#[trigger] taken(ga, ia, true, rest), taken(gb, ib as int, true, rest)) by {
                            lemma_bare_lookup(t, rest);
                            assert(t.lookup(rest) == union_of(ta.lookup(rest), tb.lookup(rest)));
                        }
                        lemma_merge_step(ga, ia, gb, ib as int, c0, comb, true, true, first(ta), false, t);
                    }
                }
                if keep {
                    c.push(t);
                }
                ib = ib + 1;
            }
        }
        proof {
            assert forall|rest: Seq<K>| rest.len() > 0 implies #[trigger] lookup_in(c@, 0, rest) == union_of(
                lookup_in(ga, 0, rest),
                lookup_in(gb, 0, rest),
            ) by {
                lemma_merge_end(ga, gb, c@, comb, rest);
            }
        }
        c
    }

    /// Adds the entries of `that` whose key sequence has no value in `self`; where both have
    /// one, the value of `self` stays.
    fn outer_combine_with(&mut self, that: &Self)
        requires
            old(self).wf(),
            that.wf(),
        ensures
            final(self).wf(),
            forall|k: Seq<K>| #[trigger] final(self).lookup(k) == union_of(old(self).lookup(k), that.lookup(k)),
            old(self).trimmed() && that.trimmed() ==> final(self).trimmed(),
            old(self).bare() && old(self).prefix@.len() == 0 && that.trimmed() ==> final(self).trimmed(),
            old(self).prefix@.len() > 0 && that.prefix@.len() > 0 && old(self).prefix@[0] == that.prefix@[0]
                ==> final(self).prefix@.len() > 0 && final(self).prefix@[0] == old(self).prefix@[0],
        decreases old(self).height() + that.height(), 1int,
    {
        let ghost o = *self;
        let n = common_prefix(self.prefix.as_slice(), that.prefix.as_slice());
        let sl = self.prefix.len();
        let tl = that.prefix.len();
        if n == sl && n == tl {
            proof {
                assert(o.prefix@ =~= o.prefix@.take(n as int));
                assert(that.prefix@ =~= that.prefix@.take(n as int));
            }
            if self.value.is_none() {
                self.value = that.value;
            }
            let mut cs: Vec<Self> = Vec::new();
            std::mem::swap(&mut cs, &mut self.children);
            proof {
                lemma_wf_children(o);
                lemma_wf_children(*that);
            }
            let merged = Self::merge_outer(cs, that.children.as_slice());
            self.children = merged;
            proof {
                assert(self.prefix@ == o.prefix@);
                assert(self.prefix@ == that.prefix@);
                assert forall|k: Seq<K>| #[trigger] self.lookup(k) == union_of(o.lookup(k), that.lookup(k)) by {
                    if has_prefix(k, self.prefix@) {
                        let rest = k.skip(n as int);
                        if rest.len() > 0 {
                            assert(self.lookup(k) == lookup_in(self.children@, 0, rest));
                            assert(o.lookup(k) == lookup_in(o.children@, 0, rest));
                            assert(that.lookup(k) == lookup_in(that.children@, 0, rest));
                        }
                    }
                }
            }
        } else if n == sl {
            let t = that.copy_shortened(n);
            let ghost gt = t;
            let mut one: Vec<Self> = Vec::new();
            one.push(t);
            let mut cs: Vec<Self> = Vec::new();
            std::mem::swap(&mut cs, &mut self.children);
            proof {
                lemma_wf_children(o);
                assert(one@[0] == gt);
                assert(max_height(one@, 1) == 0);
            }
            let merged = Self::merge_outer(cs, one.as_slice());
            self.children = merged;
            proof {
                assert(self.prefix@ == o.prefix@);
                assert(self.value == o.value);
                assert(cs@ == o.children@);
                let p = o.prefix@;
                assert(p =~= o.prefix@.take(n as int));
                assert(that.prefix@ =~= p + gt.prefix@);
                assert(that.prefix@.take(n as int) =~= p);
                assert forall|k: Seq<K>| #[trigger] self.lookup(k) == union_of(o.lookup(k), that.lookup(k)) by {
                    lemma_prefix_concat(k, p, gt.prefix@);
                    if has_prefix(k, p) {
                        let rest = k.skip(n as int);
                        assert(k =~= p + rest);
                        if rest.len() == 0 {
                            lemma_lookup_short(*that, k);
                        } else {
                            lemma_lookup_in_one(one@, rest);
                            assert(self.lookup(k) == lookup_in(self.children@, 0, rest));
                            assert(o.lookup(k) == lookup_in(o.children@, 0, rest));
                            assert(gt.lookup(rest) == that.lookup(k));
                        }
                    }
                }
            }
        } else if n == tl {
            self.split(n);
            let ghost s1 = *self;
            proof {
                assert(that.prefix@ =~= that.prefix@.take(n as int));
            }
            self.value = that.value;
            let mut cs: Vec<Self> = Vec::new();
            std::mem::swap(&mut cs, &mut self.children);
            proof {
                lemma_wf_children(s1);
                lemma_wf_children(*that);
                assert(max_height(s1.children@, 1) == 0);
            }
            let merged = Self::merge_outer(cs, that.children.as_slice());
            self.children = merged;
            proof {
                assert(self.prefix@ == that.prefix@);
                assert forall|k: Seq<K>| #[trigger] self.lookup(k) == union_of(o.lookup(k), that.lookup(k)) by {
                    assert(s1.lookup(k) == o.lookup(k));
                    if has_prefix(k, that.prefix@) {
                        let rest = k.skip(n as int);
                        if rest.len() == 0 {
                            lemma_lookup_short(o, k);
                        } else {
                            assert(self.lookup(k) == lookup_in(self.children@, 0, rest));
                            assert(s1.lookup(k) == lookup_in(s1.children@, 0, rest));
                            assert(that.lookup(k) == lookup_in(that.children@, 0, rest));
                        }
                    }
                }
            }
        } else {
            self.split(n);
            let ghost s1 = *self;
            let t = that.copy_shortened(n);
            let ghost gt = t;
            let ghost c0 = s1.children@[0];
            proof {
                assert(c0.prefix@[0] == o.prefix@[n as int]);
                assert(gt.prefix@[0] == that.prefix@[n as int]);
                K::lemma_key_injective(c0.prefix@[0], gt.prefix@[0]);
            }
            if t.prefix[0].key_lt(&self.children[0].prefix[0]) {
                self.children.insert(0, t);
            } else {
                self.children.push(t);
            }
            proof {
                let pn = o.prefix@.take(n as int);
                assert(that.prefix@.take(n as int) == pn);
                assert(that.prefix@ =~= pn + gt.prefix@);
                assert(o.prefix@ =~= pn + c0.prefix@);
                let cs2 = self.children@;
                assert(cs2.len() == 2);
                assert((cs2[0] == c0 && cs2[1] == gt) || (cs2[0] == gt && cs2[1] == c0));
                assert(children_ok(cs2));
                assert forall|k: Seq<K>| #[trigger] self.lookup(k) == union_of(o.lookup(k), that.lookup(k)) by {
                    assert(s1.lookup(k) == o.lookup(k));
                    if has_prefix(k, pn) {
                        let rest = k.skip(n as int);
                        assert(k =~= pn + rest);
                        if rest.len() == 0 {
                            lemma_lookup_short(o, k);
                            lemma_lookup_short(*that, k);
                        } else {
                            lemma_lookup_in(self.children@, 0, rest);
                            lemma_lookup_in(s1.children@, 0, rest);
                            lemma_lookup_in_one(s1.children@, rest);
                            assert(k[n as int] == rest[0]);
                            assert(self.lookup(k) == lookup_in(cs2, 0, rest));
                            assert(s1.lookup(k) == lookup_in(s1.children@, 0, rest));
                            if rest[0] == c0.prefix@[0] {
                                lemma_lookup_diverging(*that, k, n as int);
                                if cs2[0] == c0 {
                                    assert(cs2[0].prefix@[0] == rest[0]);
                                } else {
                                    assert(cs2[1].prefix@[0] == rest[0]);
                                }
                            } else if rest[0] == gt.prefix@[0] {
                                lemma_lookup_diverging(o, k, n as int);
                                lemma_lookup_other_first(c0, rest);
                                assert(gt.lookup(rest) == that.lookup(k));
                                if cs2[0] == gt {
                                    assert(cs2[0].prefix@[0] == rest[0]);
                                } else {
                                    assert(cs2[1].prefix@[0] == rest[0]);
                                }
                            } else {
                                lemma_lookup_diverging(o, k, n as int);
                                lemma_lookup_diverging(*that, k, n as int);
                                assert forall|j: int| 0 <= j < cs2.len() implies (#[trigger] cs2[j]).prefix@[0] != rest[0] by {}
                            }
                        }
                    } else {
                        lemma_prefix_concat(k, pn, gt.prefix@);
                        lemma_prefix_concat(k, pn, c0.prefix@);
                    }
                }
            }
        }
        self.unsplit();
    }

    /// Merges the subtrees `a` and `b` of two nodes with the same key sequence, keeping only
    /// what both hold: subtrees whose edges start with the same key are intersected.
    #[verifier::loop_isolation(false)]
    #[verifier::spinoff_prover]
    fn merge_inner<W: Copy>(a: Vec<Self>, b: &[RadixTree<K, W>]) -> (c: Vec<Self>)
        requires
            children_ok(a@),
            children_ok(b@),
        ensures
            children_ok(c@),
            all_trimmed(a@) ==> all_trimmed(c@),
            forall|rest: Seq<K>| rest.len() > 0 ==> #[trigger] lookup_in(c@, 0, rest) == inter_of(
                lookup_in(a@, 0, rest),
                lookup_in(b@, 0, rest),
            ),
        decreases max_height(a@, 0) + max_height(b@, 0) + 1, 0int,
    {
        let ghost ga = a@;
        let ghost gb = b@;
        let ghost comb = inter_comb::<V, W>();
        let mut a = a;
        let mut ra: Vec<Self> = Vec::new();
        while a.len() > 0
            invariant
                a@ == ga.take(a@.len() as int),
                ra@.len() == ga.len() - a@.len(),
                forall|j: int| 0 <= j < ra@.len() ==> #[trigger] ra@[j] == ga[ga.len() - 1 - j],
            decreases a@.len(),
        {
            let x = a.pop().unwrap();
            ra.push(x);
            assert(a@ =~= ga.take(a@.len() as int));
        }
        let mut c: Vec<Self> = Vec::new();
        let mut ib: usize = 0;
        proof {
            lemma_merge_start(ga, gb, comb);
        }
        while ra.len() > 0 || ib < b.len()
            invariant
                children_ok(ga),
                children_ok(gb),
                combines(comb),
                comb == inter_comb::<V, W>(),
                b@ == gb,
                ra@.len() <= ga.len(),
                forall|j: int| 0 <= j < ra@.len() ==> #[trigger] ra@[j] == ga[ga.len() - 1 - j],
                ib <= gb.len(),
                merged(ga, ga.len() - ra@.len(), gb, ib as int, c@, comb),
                all_trimmed(ga) ==> all_trimmed(c@),
            decreases ra@.len() + gb.len() - ib,
        {
            let ghost ia = ga.len() - ra@.len();
            let ghost c0 = c@;
            let mut take_a = true;
            let mut take_b = true;
            if ra.len() == 0 {
                take_a = false;
            } else if ib == b.len() {
                take_b = false;
            } else {
                assert(ra@[ra@.len() - 1] == ga[ia]);
                let ka = &ra[ra.len() - 1].prefix[0];
                let kb = &b[ib].prefix[0];
                if ka.key_lt(kb) {
                    take_b = false;
                } else if kb.key_lt(ka) {
                    take_a = false;
                }
            }
            if take_a && !take_b {
                assert(ra@[ra@.len() - 1] == ga[ia]);
                let t = ra.pop().unwrap();
                proof {
                    assert forall|rest: Seq<K>| rest.len() > 0 && rest[0].key() == first(t) implies (if false {
                        t.lookup(rest)
                    } else {
                        None
                    }) == comb(#[trigger] taken(ga, ia, true, rest), taken(gb, ib as int, false, rest)) by {}
                    lemma_merge_step(ga, ia, gb, ib as int, c0, comb, true, false, first(t), false, t);
                }
            } else if !take_a {
                let ghost tb = gb[ib as int];
                proof {
                    let none: RadixTree<K, V> = vstd::pervasive::arbitrary();
                    assert forall|rest: Seq<K>| rest.len() > 0 && rest[0].key() == first(tb) implies (if false {
                        none.lookup(rest)
                    } else {
                        None
                    }) == comb(#[trigger] taken(ga, ia, false, rest), taken(gb, ib as int, true, rest)) by {}
                    lemma_merge_step(ga, ia, gb, ib as int, c0, comb, false, true, first(tb), false, none);
                }
                ib = ib + 1;
            } else {
                assert(ra@[ra@.len() - 1] == ga[ia]);
                let mut t = ra.pop().unwrap();
                let ghost ta = t;
                let ghost tb = gb[ib as int];
                proof {
                    lemma_max_height(ga, 0, ia);
                    lemma_max_height(gb, 0, ib as int);
                    K::lemma_key_injective(ta.prefix@[0], tb.prefix@[0]);
                    assert(ta.height() + b@[ib as int].height() < max_height(ga, 0) + max_height(gb, 0) + 1);
                }
                t.inner_combine_with(&b[ib]);
                let keep = !t.is_empty();
                proof {
                    if keep {
                        assert forall|rest: Seq<K>| rest.len() > 0 && rest[0].key() == first(ta) implies (if true {
                            t.lookup(rest)
                        } else {
                            None
                        }) == comb(#[trigger] taken(ga, ia, true, rest), taken(gb, ib as int, true, rest)) by {
                            assert(t.lookup(rest) == inter_of(ta.lookup(rest), tb.lookup(rest)));
                        }
                        lemma_merge_step(ga, ia, gb, ib as int, c0, comb, true, true, first(ta), true, t);
                    } else {
                        assert forall|rest: Seq<K>| rest.len() > 0 && rest[0].key() == first(ta) implies (if false {
                            t.lookup(rest)
                        } else {
                            None
                        }) == comb(#[trigger] taken(ga, ia, true, rest), taken(gb, ib as int, true, rest)) by {
                            lemma_bare_lookup(t, rest);
                            assert(t.lookup(rest) == inter_of(ta.lookup(rest), tb.lookup(rest)));
                        }
                        lemma_merge_step(ga, ia, gb, ib as int, c0, comb, true, true, first(ta), false, t);
                    }
                }
                if keep {
                    c.push(t);
                }
                ib = ib + 1;
            }
        }
        proof {
            assert forall|rest: Seq<K>| rest.len() > 0 implies #[trigger] lookup_in(c@, 0, rest) == inter_of(
                lookup_in(ga, 0, rest),
                lookup_in(gb, 0, rest),
            ) by {
                lemma_merge_end(ga, gb, c@, comb, rest);
            }
        }
        c
    }

    /// Merges the subtrees `a` and `b` of two nodes with the same key sequence, keeping what
    /// `a` holds and `b` does not: subtrees whose edges start with the same key are subtracted.
    #[verifier::loop_isolation(false)]
    #[verifier::spinoff_prover]
    fn merge_left<W: Copy>(a: Vec<Self>, b: &[RadixTree<K, W>]) -> (c: Vec<Self>)
        requires
            children_ok(a@),
            children_ok(b@),
        ensures
            children_ok(c@),
            all_trimmed(a@) ==> all_trimmed(c@),
            forall|rest: Seq<K>| rest.len() > 0 ==> #[trigger] lookup_in(c@, 0, rest) == diff_of(
                lookup_in(a@, 0, rest),
                lookup_in(b@, 0, rest),
            ),
        decreases max_height(a@, 0) + max_height(b@, 0) + 1, 0int,
    {
        let ghost ga = a@;
        let ghost gb = b@;
        let ghost comb = diff_comb::<V, W>();
        let mut a = a;
        let mut ra: Vec<Self> = Vec::new();
        while a.len() > 0
            invariant
                a@ == ga.take(a@.len() as int),
                ra@.len() == ga.len() - a@.len(),
                forall|j: int| 0 <= j < ra@.len() ==> #[trigger] ra@[j] == ga[ga.len() - 1 - j],
            decreases a@.len(),
        {
            let x = a.pop().unwrap();
            ra.push(x);
            assert(a@ =~= ga.take(a@.len() as int));
        }
        let mut c: Vec<Self> = Vec::new();
        let mut ib: usize = 0;
        proof {
            lemma_merge_start(ga, gb, comb);
        }
        while ra.len() > 0 || ib < b.len()
            invariant
                children_ok(ga),
                children_ok(gb),
                combines(comb),
                comb == diff_comb::<V, W>(),
                b@ == gb,
                ra@.len() <= ga.len(),
                forall|j: int| 0 <= j < ra@.len() ==> #[trigger] ra@[j] == ga[ga.len() - 1 - j],
                ib <= gb.len(),
                merged(ga, ga.len() - ra@.len(), gb, ib as int, c@, comb),
                all_trimmed(ga) ==> all_trimmed(c@),
            decreases ra@.len() + gb.len() - ib,
        {
            let ghost ia = ga.len() - ra@.len();
            let ghost c0 = c@;
            let mut take_a = true;
            let mut take_b = true;
            if ra.len() == 0 {
                take_a = false;
            } else if ib == b.len() {
                take_b = false;
            } else {
                assert(ra@[ra@.len() - 1] == ga[ia]);
                let ka = &ra[ra.len() - 1].prefix[0];
                let kb = &b[ib].prefix[0];
                if ka.key_lt(kb) {
                    take_b = false;
                } else if kb.key_lt(ka) {
                    take_a = false;
                }
            }
            if take_a && !take_b {
                assert(ra@[ra@.len() - 1] == ga[ia]);
                let t = ra.pop().unwrap();
                proof {
                    assert forall|rest: Seq<K>| rest.len() > 0 && rest[0].key() == first(t) implies (if true {
                        t.lookup(rest)
                    } else {
                        None
                    }) == comb(#[trigger] taken(ga, ia, true, rest), taken(gb, ib as int, false, rest)) by {}
                    lemma_merge_step(ga, ia, gb, ib as int, c0, comb, true, false, first(t), true, t);
                }
                c.push(t);
            } else if !take_a {
                let ghost tb = gb[ib as int];
                proof {
                    let none: RadixTree<K, V> = vstd::pervasive::arbitrary();
                    assert forall|rest: Seq<K>| rest.len() > 0 && rest[0].key() == first(tb) implies (if false {
                        none.lookup(rest)
                    } else {
                        None
                    }) == comb(#[trigger] taken(ga, ia, false, rest), taken(gb, ib as int, true, rest)) by {}
                    lemma_merge_step(ga, ia, gb, ib as int, c0, comb, false, true, first(tb), false, none);
                }
                ib = ib + 1;
            } else {
                assert(ra@[ra@.len() - 1] == ga[ia]);
                let mut t = ra.pop().unwrap();
                let ghost ta = t;
                let ghost tb = gb[ib as int];
                proof {
                    lemma_max_height(ga, 0, ia);
                    lemma_max_height(gb, 0, ib as int);
                    K::lemma_key_injective(ta.prefix@[0], tb.prefix@[0]);
                    assert(ta.height() + b@[ib as int].height() < max_height(ga, 0) + max_height(gb, 0) + 1);
                }
                t.left_combine_with(&b[ib]);
                let keep = !t.is_empty();
                proof {
                    if keep {
                        assert forall|rest: Seq<K>| rest.len() > 0 && rest[0].key() == first(ta) implies (if true {
                            t.lookup(rest)
                        } else {
                            None
                        }) == comb(#[trigger] taken(ga, ia, true, rest), taken(gb, ib as int, true, rest)) by {
                            assert(t.lookup(rest) == diff_of(ta.lookup(rest), tb.lookup(rest)));
                        }
                        lemma_merge_step(ga, ia, gb, ib as int, c0, comb, true, true, first(ta), true, t);
                    } else {
                        assert forall|rest: Seq<K>| rest.len() > 0 && rest[0].key() == first(ta) implies (if false {
                            t.lookup(rest)
                        } else {
                            None
                        }) == comb(#[trigger] taken(ga, ia, true, rest), taken(gb, ib as int, true, rest)) by {
                            lemma_bare_lookup(t, rest);
                            assert(t.lookup(rest) == diff_of(ta.lookup(rest), tb.lookup(rest)));
                        }
                        lemma_merge_step(ga, ia, gb, ib as int, c0, comb, true, true, first(ta), false, t);
                    }
                }
                if keep {
                    c.push(t);
                }
                ib = ib + 1;
            }
        }
        proof {
            assert forall|rest: Seq<K>| rest.len() > 0 implies #[trigger] lookup_in(c@, 0, rest) == diff_of(
                lookup_in(ga, 0, rest),
                lookup_in(gb, 0, rest),
            ) by {
                lemma_merge_end(ga, gb, c@, comb, rest);
            }
        }
        c
    }

    /// Keeps only the entries whose key sequence has a value in `that` too.
    fn inner_combine_with<W: Copy>(&mut self, that: &RadixTree<K, W>)
        requires
            old(self).wf(),
            that.wf(),
        ensures
            final(self).wf(),
            forall|k: Seq<K>| #[trigger] final(self).lookup(k) == inter_of(old(self).lookup(k), that.lookup(k)),
            old(self).trimmed() ==> final(self).trimmed() || final(self).bare(),
            old(self).prefix@.len() > 0 && that.prefix@.len() > 0 && old(self).prefix@[0] == that.prefix@[0]
                ==> final(self).prefix@.len() > 0 && final(self).prefix@[0] == old(self).prefix@[0],
        decreases old(self).height() + that.height(), 1int,
    {
        let ghost o = *self;
        let n = common_prefix(self.prefix.as_slice(), that.prefix.as_slice());
        let sl = self.prefix.len();
        let tl = that.prefix.len();
        if n == sl && n == tl {
            proof {
                assert(o.prefix@ =~= o.prefix@.take(n as int));
                assert(that.prefix@ =~= that.prefix@.take(n as int));
            }
            if that.value.is_none() {
                self.value = None;
            }
            let mut cs: Vec<Self> = Vec::new();
            std::mem::swap(&mut cs, &mut self.children);
            proof {
                lemma_wf_children(o);
                lemma_wf_children(*that);
            }
            let merged = Self::merge_inner(cs, that.children.as_slice());
            self.children = merged;
            proof {
                assert(self.prefix@ == o.prefix@);
                assert(self.prefix@ == that.prefix@);
                assert forall|k: Seq<K>| #[trigger] self.lookup(k) == inter_of(o.lookup(k), that.lookup(k)) by {
                    if has_prefix(k, self.prefix@) {
                        let rest = k.skip(n as int);
                        if rest.len() > 0 {
                            assert(self.lookup(k) == lookup_in(self.children@, 0, rest));
                            assert(o.lookup(k) == lookup_in(o.children@, 0, rest));
                            assert(that.lookup(k) == lookup_in(that.children@, 0, rest));
                        }
                    }
                }
            }
        } else if n == sl {
            self.value = None;
            let t = that.copy_shortened(n);
            let ghost gt = t;
            let mut one: Vec<RadixTree<K, W>> = Vec::new();
            one.push(t);
            let mut cs: Vec<Self> = Vec::new();
            std::mem::swap(&mut cs, &mut self.children);
            proof {
                lemma_wf_children(o);
                assert(one@[0] == gt);
                assert(max_height(one@, 1) == 0);
            }
            let merged = Self::merge_inner(cs, one.as_slice());
            self.children = merged;
            proof {
                assert(self.prefix@ == o.prefix@);
                assert(cs@ == o.children@);
                let p = o.prefix@;
                assert(p =~= o.prefix@.take(n as int));
                assert(that.prefix@ =~= p + gt.prefix@);
                assert(that.prefix@.take(n as int) =~= p);
                assert forall|k: Seq<K>| #[trigger] self.lookup(k) == inter_of(o.lookup(k), that.lookup(k)) by {
                    lemma_prefix_concat(k, p, gt.prefix@);
                    if has_prefix(k, p) {
                        let rest = k.skip(n as int);
                        assert(k =~= p + rest);
                        if rest.len() == 0 {
                            lemma_lookup_short(*that, k);
                        } else {
                            lemma_lookup_in_one(one@, rest);
                            assert(self.lookup(k) == lookup_in(self.children@, 0, rest));
                            assert(o.lookup(k) == lookup_in(o.children@, 0, rest));
                            assert(gt.lookup(rest) == that.lookup(k));
                        }
                    }
                }
            }
        } else if n == tl {
            self.split(n);
            let ghost s1 = *self;
            proof {
                assert(that.prefix@ =~= that.prefix@.take(n as int));
            }
            let mut cs: Vec<Self> = Vec::new();
            std::mem::swap(&mut cs, &mut self.children);
            proof {
                lemma_wf_children(s1);
                lemma_wf_children(*that);
                assert(max_height(s1.children@, 1) == 0);
            }
            let merged = Self::merge_inner(cs, that.children.as_slice());
            self.children = merged;
            proof {
                assert(self.prefix@ == that.prefix@);
                assert forall|k: Seq<K>| #[trigger] self.lookup(k) == inter_of(o.lookup(k), that.lookup(k)) by {
                    assert(s1.lookup(k) == o.lookup(k));
                    if has_prefix(k, that.prefix@) {
                        let rest = k.skip(n as int);
                        if rest.len() == 0 {
                            lemma_lookup_short(o, k);
                        } else {
                            assert(self.lookup(k) == lookup_in(self.children@, 0, rest));
                            assert(s1.lookup(k) == lookup_in(s1.children@, 0, rest));
                            assert(that.lookup(k) == lookup_in(that.children@, 0, rest));
                        }
                    }
                }
            }
        } else {
            self.value = None;
            self.children.clear();
            proof {
                assert forall|k: Seq<K>| #[trigger] self.lookup(k) == inter_of(o.lookup(k), that.lookup(k)) by {
                    if k.len() > n {
                        if k[n as int] != o.prefix@[n as int] {
                            lemma_lookup_diverging(o, k, n as int);
                        } else {
                            lemma_lookup_diverging(*that, k, n as int);
                        }
                    } else {
                        lemma_lookup_short(o, k);
                    }
                }
            }
        }
        self.unsplit();
    }

    /// Removes the entries whose key sequence has a value in `that`.
    fn left_combine_with<W: Copy>(&mut self, that: &RadixTree<K, W>)
        requires
            old(self).wf(),
            that.wf(),
        ensures
            final(self).wf(),
            forall|k: Seq<K>| #[trigger] final(self).lookup(k) == diff_of(old(self).lookup(k), that.lookup(k)),
            old(self).trimmed() ==> final(self).trimmed() || final(self).bare(),
            old(self).prefix@.len() > 0 && that.prefix@.len() > 0 && old(self).prefix@[0] == that.prefix@[0]
                ==> final(self).prefix@.len() > 0 && final(self).prefix@[0] == old(self).prefix@[0],
        decreases old(self).height() + that.height(), 1int,
    {
        let ghost o = *self;
        let n = common_prefix(self.prefix.as_slice(), that.prefix.as_slice());
        let sl = self.prefix.len();
        let tl = that.prefix.len();
        if n == sl && n == tl {
            proof {
                assert(o.prefix@ =~= o.prefix@.take(n as int));
                assert(that.prefix@ =~= that.prefix@.take(n as int));
            }
            if that.value.is_some() {
                self.value = None;
            }
            let mut cs: Vec<Self> = Vec::new();
            std::mem::swap(&mut cs, &mut self.children);
            proof {
                lemma_wf_children(o);
                lemma_wf_children(*that);
            }
            let merged = Self::merge_left(cs, that.children.as_slice());
            self.children = merged;
            proof {
                assert(self.prefix@ == o.prefix@);
                assert(self.prefix@ == that.prefix@);
                assert forall|k: Seq<K>| #[trigger] self.lookup(k) == diff_of(o.lookup(k), that.lookup(k)) by {
                    if has_prefix(k, self.prefix@) {
                        let rest = k.skip(n as int);
                        if rest.len() > 0 {
                            assert(self.lookup(k) == lookup_in(self.children@, 0, rest));
                            assert(o.lookup(k) == lookup_in(o.children@, 0, rest));
                            assert(that.lookup(k) == lookup_in(that.children@, 0, rest));
                        }
                    }
                }
            }
        } else if n == sl {
            let t = that.copy_shortened(n);
            let ghost gt = t;
            let mut one: Vec<RadixTree<K, W>> = Vec::new();
            one.push(t);
            let mut cs: Vec<Self> = Vec::new();
            std::mem::swap(&mut cs, &mut self.children);
            proof {
                lemma_wf_children(o);
                assert(one@[0] == gt);
                assert(max_height(one@, 1) == 0);
            }
            let merged = Self::merge_left(cs, one.as_slice());
            self.children = merged;
            proof {
                assert(self.prefix@ == o.prefix@);
                assert(self.value == o.value);
                assert(cs@ == o.children@);
                let p = o.prefix@;
                assert(p =~= o.prefix@.take(n as int));
                assert(that.prefix@ =~= p + gt.prefix@);
                assert(that.prefix@.take(n as int) =~= p);
                assert forall|k: Seq<K>| #[trigger] self.lookup(k) == diff_of(o.lookup(k), that.lookup(k)) by {
                    lemma_prefix_concat(k, p, gt.prefix@);
                    if has_prefix(k, p) {
                        let rest = k.skip(n as int);
                        assert(k =~= p + rest);
                        if rest.len() == 0 {
                            lemma_lookup_short(*that, k);
                        } else {
                            lemma_lookup_in_one(one@, rest);
                            assert(self.lookup(k) == lookup_in(self.children@, 0, rest));
                            assert(o.lookup(k) == lookup_in(o.children@, 0, rest));
                            assert(gt.lookup(rest) == that.lookup(k));
                        }
                    }
                }
            }
        } else if n == tl {
            self.split(n);
            let ghost s1 = *self;
            proof {
                assert(that.prefix@ =~= that.prefix@.take(n as int));
            }
            let mut cs: Vec<Self> = Vec::new();
            std::mem::swap(&mut cs, &mut self.children);
            proof {
                lemma_wf_children(s1);
                lemma_wf_children(*that);
                assert(max_height(s1.children@, 1) == 0);
            }
            let merged = Self::merge_left(cs, that.children.as_slice());
            self.children = merged;
            proof {
                assert(self.prefix@ == that.prefix@);
                assert forall|k: Seq<K>| #[trigger] self.lookup(k) == diff_of(o.lookup(k), that.lookup(k)) by {
                    assert(s1.lookup(k) == o.lookup(k));
                    if has_prefix(k, that.prefix@) {
                        let rest = k.skip(n as int);
                        if rest.len() == 0 {
                            lemma_lookup_short(o, k);
                        } else {
                            assert(self.lookup(k) == lookup_in(self.children@, 0, rest));
                            assert(s1.lookup(k) == lookup_in(s1.children@, 0, rest));
                            assert(that.lookup(k) == lookup_in(that.children@, 0, rest));
                        }
                    }
                }
            }
        } else {
            proof {
                assert forall|k: Seq<K>| #[trigger] self.lookup(k) == diff_of(o.lookup(k), that.lookup(k)) by {
                    if k.len() > n {
                        if k[n as int] != o.prefix@[n as int] {
                            lemma_lookup_diverging(o, k, n as int);
                        } else {
                            lemma_lookup_diverging(*that, k, n as int);
                        }
                    } else {
                        lemma_lookup_short(o, k);
                    }
                }
            }
        }
        self.unsplit();
    }

    /// Keeps only the entries whose key sequence has a value in `that` too.
    pub fn intersection_with<W: Copy>(&mut self, that: &RadixTree<K, W>)
        requires
            old(self).wf(),
            that.wf(),
        ensures
            final(self).wf(),
            final(self)@ == old(self)@.restrict(that@.dom()),
            old(self).trimmed() ==> final(self).trimmed() || final(self).bare(),
    {
        self.inner_combine_with(that);
        proof {
            assert(self@ =~= old(self)@.restrict(that@.dom()));
        }
    }

    /// Removes the entries whose key sequence has a value in `that`.
    pub fn difference_with<W: Copy>(&mut self, that: &RadixTree<K, W>)
        requires
            old(self).wf(),
            that.wf(),
        ensures
            final(self).wf(),
            final(self)@ == old(self)@.remove_keys(that@.dom()),
            old(self).trimmed() ==> final(self).trimmed() || final(self).bare(),
    {
        self.left_combine_with(that);
        proof {
            assert(self@ =~= old(self)@.remove_keys(that@.dom()));
        }
    }

    /// Adds the entries of `that` whose key sequence has no value in `self`; where both have
    /// one, the value of `self` stays.
    pub fn union_with(&mut self, that: &Self)
        requires
            old(self).wf(),
            that.wf(),
        ensures
            final(self).wf(),
            final(self)@ == that@.union_prefer_right(old(self)@),
            old(self).trimmed() && that.trimmed() ==> final(self).trimmed(),
            old(self).bare() && old(self).edge().len() == 0 && that.trimmed() ==> final(self).trimmed(),
    {
        self.outer_combine_with(that);
        proof {
            assert(self@ =~= that@.union_prefer_right(old(self)@));
        }
    }
}

/// The value under `key` in the tree `t` as if the edge of its root lost its first `off` keys.
spec fn lookup_off<K: SortKey, V>(t: RadixTree<K, V>, off: int, key: Seq<K>) -> Option<V> {
    let q = t.prefix@.skip(off);
    if has_prefix(key, q) {
        let rest = key.skip(q.len() as int);
        if rest.len() == 0 {
            t.value
        } else {
            lookup_in(t.children@, 0, rest)
        }
    } else {
        None
    }
}

/// Some key sequence has a value in both `l` and `r`, their edges shortened by `lp` and `rp`.
spec fn meets<K: SortKey, V, W>(l: RadixTree<K, V>, lp: int, r: RadixTree<K, W>, rp: int) -> bool {
    exists|k: Seq<K>| (#[trigger] lookup_off(l, lp, k)) is Some && lookup_off(r, rp, k) is Some
}

proof fn lemma_lookup_off_zero<K: SortKey, V>(t: RadixTree<K, V>, k: Seq<K>)
    ensures
        lookup_off(t, 0, k) == t.lookup(k),
{
    assert(t.prefix@.skip(0) =~= t.prefix@);
}

/// Looking past the first `n` keys of the shortened edge.
proof fn lemma_lookup_off_step<K: SortKey, V>(t: RadixTree<K, V>, off: int, n: int, k: Seq<K>)
    requires
        0 <= off,
        0 <= n,
        off + n <= t.prefix@.len(),
    ensures
        lookup_off(t, off, k) == (if has_prefix(k, t.prefix@.skip(off).take(n)) {
            lookup_off(t, off + n, k.skip(n))
        } else {
            None
        }),
{
    let q = t.prefix@.skip(off);
    let a = q.take(n);
    let b = t.prefix@.skip(off + n);
    assert(q =~= a + b);
    lemma_prefix_concat(k, a, b);
}

/// A child holds under `rest` what the list holds, if it has anything there.
proof fn lemma_lookup_in_some<K: SortKey, V>(cs: Seq<RadixTree<K, V>>, j: int, rest: Seq<K>)
    requires
        children_ok(cs),
        0 <= j < cs.len(),
        rest.len() > 0,
        cs[j].lookup(rest) is Some,
    ensures
        lookup_in(cs, 0, rest) == cs[j].lookup(rest),
{
    lemma_lookup_in(cs, 0, rest);
    if cs[j].prefix@[0] != rest[0] {
        lemma_lookup_other_first(cs[j], rest);
    }
}

/// The child that holds something under `rest`, when the list does.
proof fn lemma_lookup_in_child<K: SortKey, V>(cs: Seq<RadixTree<K, V>>, rest: Seq<K>) -> (j: int)
    requires
        children_ok(cs),
        rest.len() > 0,
        lookup_in(cs, 0, rest) is Some,
    ensures
        0 <= j < cs.len(),
        cs[j].prefix@[0] == rest[0],
        cs[j].lookup(rest) == lookup_in(cs, 0, rest),
{
    lemma_lookup_in(cs, 0, rest);
    choose|j: int| 0 <= j < cs.len() && (#[trigger] cs[j]).prefix@[0] == rest[0]
}

/// The length of the longest common prefix of `a[i..]` and `b[j..]`.
fn common_prefix_at<K: SortKey>(a: &[K], i: usize, b: &[K], j: usize) -> (r: usize)
    requires
        i <= a@.len(),
        j <= b@.len(),
    ensures
        r <= a@.len() - i,
        r <= b@.len() - j,
        a@.skip(i as int).take(r as int) == b@.skip(j as int).take(r as int),
        r < a@.len() - i && r < b@.len() - j ==> a@[i + r] != b@[j + r],
{
    let mut r: usize = 0;
    while r < a.len() - i && r < b.len() - j
        invariant
            i <= a@.len(),
            j <= b@.len(),
            i + r <= a@.len(),
            j + r <= b@.len(),
            a@.skip(i as int).take(r as int) == b@.skip(j as int).take(r as int),
        decreases a@.len() - i - r,
    {
        if !a[i + r].key_eq(&b[j + r]) {
            return r;
        }
        proof {
            K::lemma_key_injective(a@[i + r], b@[j + r]);
            assert(a@.skip(i as int).take(r + 1) =~= a@.skip(i as int).take(r as int).push(a@[i + r]));
            assert(b@.skip(j as int).take(r + 1) =~= b@.skip(j as int).take(r as int).push(b@[j + r]));
        }
        r = r + 1;
    }
    r
}

impl<K: SortKey, V: Copy> RadixTree<K, V> {
    /// Whether some key sequence has a value in both `l` and `r`, their edges shortened by `lp`
    /// and `rp`.
    #[verifier::loop_isolation(false)]
    fn intersects0<W: Copy>(l: &Self, lp: usize, r: &RadixTree<K, W>, rp: usize) -> (b: bool)
        requires
            l.wf(),
            r.wf(),
            lp <= l.prefix@.len(),
            rp <= r.prefix@.len(),
        ensures
            b == meets(*l, lp as int, *r, rp as int),
        decreases l.height() + r.height(),
    {
        let n = common_prefix_at(l.prefix.as_slice(), lp, r.prefix.as_slice(), rp);
        let ll = l.prefix.len() - lp;
        let rl = r.prefix.len() - rp;
        let ghost lq = l.prefix@.skip(lp as int);
        let ghost rq = r.prefix@.skip(rp as int);
        if n == ll && n == rl {
            proof {
                assert(lq =~= lq.take(n as int));
                assert(rq =~= rq.take(n as int));
                lemma_wf_children(*l);
                lemma_wf_children(*r);
            }
            if l.value.is_some() && r.value.is_some() {
                proof {
                    assert(lq.take(lq.len() as int) =~= lq);
                    assert(lq.skip(lq.len() as int).len() == 0);
                    assert(lq == rq);
                    assert(lookup_off(*l, lp as int, lq) is Some);
                    assert(lookup_off(*r, rp as int, lq) is Some);
                }
                return true;
            }
            let ghost lc = l.children@;
            let ghost rc = r.children@;
            let mut i: usize = 0;
            let mut j: usize = 0;
            while i < l.children.len() && j < r.children.len()
                invariant
                    lc == l.children@,
                    rc == r.children@,
                    children_ok(lc),
                    children_ok(rc),
                    i <= lc.len(),
                    j <= rc.len(),
                    forall|x: int, y: int| 0 <= x < i && 0 <= y < rc.len() && first(lc[x]) == first(rc[y]) ==> !meets(
                        #[trigger] lc[x],
                        0,
                        #[trigger] rc[y],
                        0,
                    ),
                    forall|x: int, y: int| 0 <= y < j && 0 <= x < lc.len() && first(lc[x]) == first(rc[y]) ==> !meets(
                        #[trigger] lc[x],
                        0,
                        #[trigger] rc[y],
                        0,
                    ),
                decreases lc.len() + rc.len() - i - j,
            {
                let a = &l.children[i];
                let c = &r.children[j];
                if a.prefix[0].key_lt(&c.prefix[0]) {
                    proof {
                        assert forall|y: int| 0 <= y < rc.len() && first(lc[i as int]) == first(rc[y]) implies y < j by {
                            if y >= j && y > j {
                                assert(first(rc[j as int]) < first(rc[y]));
                            }
                        }
                    }
                    i = i + 1;
                } else if c.prefix[0].key_lt(&a.prefix[0]) {
                    proof {
                        assert forall|x: int| 0 <= x < lc.len() && first(lc[x]) == first(rc[j as int]) implies x < i by {
                            if x > i {
                                assert(first(lc[i as int]) < first(lc[x]));
                            }
                        }
                    }
                    j = j + 1;
                } else {
                    proof {
                        lemma_child_height(*l, i as int);
                        lemma_child_height(*r, j as int);
                    }
                    if Self::intersects0(a, 0, c, 0) {
                        proof {
                            let k0 = choose|k: Seq<K>| (#[trigger] lookup_off(lc[i as int], 0, k)) is Some && lookup_off(rc[j as int], 0, k) is Some;
                            lemma_lookup_off_zero(lc[i as int], k0);
                            lemma_lookup_off_zero(rc[j as int], k0);
                            assert(k0.len() > 0) by {
                                assert(lc[i as int].prefix@.len() > 0);
                            }
                            lemma_lookup_in_some(lc, i as int, k0);
                            lemma_lookup_in_some(rc, j as int, k0);
                            let k = lq + k0;
                            assert(k.skip(n as int) =~= k0);
                            assert(k.take(n as int) =~= lq);
                            assert(lq == rq);
                            assert(lookup_off(*l, lp as int, k) is Some);
                            assert(lookup_off(*r, rp as int, k) is Some);
                        }
                        return true;
                    }
                    proof {
                        assert forall|y: int| 0 <= y < rc.len() && y != j && first(lc[i as int]) == first(rc[y]) implies false by {
                            if y < j {
                                assert(first(rc[y]) < first(rc[j as int]));
                            } else {
                                assert(first(rc[j as int]) < first(rc[y]));
                            }
                        }
                        assert forall|x: int| 0 <= x < lc.len() && x != i && first(lc[x]) == first(rc[j as int]) implies false by {
                            if x < i {
                                assert(first(lc[x]) < first(lc[i as int]));
                            } else {
                                assert(first(lc[i as int]) < first(lc[x]));
                            }
                        }
                    }
                    i = i + 1;
                    j = j + 1;
                }
            }
            proof {
                if meets(*l, lp as int, *r, rp as int) {
                    let k = choose|k: Seq<K>| (#[trigger] lookup_off(*l, lp as int, k)) is Some && lookup_off(*r, rp as int, k) is Some;
                    let rest = k.skip(n as int);
                    assert(rest.len() > 0);
                    let x = lemma_lookup_in_child(lc, rest);
                    let y = lemma_lookup_in_child(rc, rest);
                    K::lemma_key_injective(lc[x].prefix@[0], rc[y].prefix@[0]);
                    lemma_lookup_off_zero(lc[x], rest);
                    lemma_lookup_off_zero(rc[y], rest);
                    assert(meets(lc[x], 0, rc[y], 0));
                    assert(x < i || y < j);
                }
            }
            false
        } else if n == ll {
            let mut i: usize = 0;
            let ghost lc = l.children@;
            let rpn = rp + n;
            proof {
                lemma_wf_children(*l);
            }
            while i < l.children.len()
                invariant
                    lc == l.children@,
                    children_ok(lc),
                    r.wf(),
                    rpn == rp + n,
                    rp + n < r.prefix@.len(),
                    i <= lc.len(),
                    forall|x: int| 0 <= x < i ==> !meets(#[trigger] lc[x], 0, *r, rp + n),
                decreases lc.len() - i,
            {
                proof {
                    lemma_child_height(*l, i as int);
                }
                if Self::intersects0(&l.children[i], 0, r, rpn) {
                    proof {
                        let k0 = choose|k: Seq<K>| (#[trigger] lookup_off(lc[i as int], 0, k)) is Some && lookup_off(*r, rp + n, k) is Some;
                        lemma_lookup_off_zero(lc[i as int], k0);
                        assert(k0.len() > 0) by {
                            assert(r.prefix@.skip(rp + n).len() > 0);
                        }
                        lemma_lookup_in_some(lc, i as int, k0);
                        let k = lq + k0;
                        assert(k.skip(n as int) =~= k0);
                        assert(k.take(n as int) =~= lq);
                        assert(lq.take(n as int) =~= lq);
                        lemma_lookup_off_step(*r, rp as int, n as int, k);
                        assert(lookup_off(*l, lp as int, k) is Some);
                    }
                    return true;
                }
                i = i + 1;
            }
            proof {
                if meets(*l, lp as int, *r, rp as int) {
                    let k = choose|k: Seq<K>| (#[trigger] lookup_off(*l, lp as int, k)) is Some && lookup_off(*r, rp as int, k) is Some;
                    lemma_lookup_off_step(*r, rp as int, n as int, k);
                    assert(lq =~= rq.take(n as int));
                    let rest = k.skip(n as int);
                    assert(rest.len() > 0) by {
                        assert(r.prefix@.skip(rp + n).len() > 0);
                    }
                    let x = lemma_lookup_in_child(lc, rest);
                    lemma_lookup_off_zero(lc[x], rest);
                    assert(meets(lc[x], 0, *r, rp + n));
                }
            }
            false
        } else if n == rl {
            let mut j: usize = 0;
            let ghost rc = r.children@;
            let lpn = lp + n;
            proof {
                lemma_wf_children(*r);
            }
            while j < r.children.len()
                invariant
                    rc == r.children@,
                    children_ok(rc),
                    l.wf(),
                    lpn == lp + n,
                    lp + n < l.prefix@.len(),
                    j <= rc.len(),
                    forall|y: int| 0 <= y < j ==> !meets(*l, lp + n, #[trigger] rc[y], 0),
                decreases rc.len() - j,
            {
                proof {
                    lemma_child_height(*r, j as int);
                }
                if Self::intersects0(l, lpn, &r.children[j], 0) {
                    proof {
                        let k0 = choose|k: Seq<K>| (#[trigger] lookup_off(*l, lp + n, k)) is Some && lookup_off(rc[j as int], 0, k) is Some;
                        lemma_lookup_off_zero(rc[j as int], k0);
                        assert(k0.len() > 0) by {
                            assert(l.prefix@.skip(lp + n).len() > 0);
                        }
                        lemma_lookup_in_some(rc, j as int, k0);
                        let k = rq + k0;
                        assert(k.skip(n as int) =~= k0);
                        assert(k.take(n as int) =~= rq);
                        assert(rq.take(n as int) =~= rq);
                        lemma_lookup_off_step(*l, lp as int, n as int, k);
                        assert(lookup_off(*r, rp as int, k) is Some);
                        assert(lookup_off(*l, lp as int, k) is Some);
                    }
                    return true;
                }
                j = j + 1;
            }
            proof {
                if meets(*l, lp as int, *r, rp as int) {
                    let k = choose|k: Seq<K>| (#[trigger] lookup_off(*l, lp as int, k)) is Some && lookup_off(*r, rp as int, k) is Some;
                    lemma_lookup_off_step(*l, lp as int, n as int, k);
                    assert(rq =~= lq.take(n as int));
                    let rest = k.skip(n as int);
                    assert(rest.len() > 0) by {
                        assert(l.prefix@.skip(lp + n).len() > 0);
                    }
                    let y = lemma_lookup_in_child(rc, rest);
                    lemma_lookup_off_zero(rc[y], rest);
                    assert(meets(*l, lp + n, rc[y], 0));
                }
            }
            false
        } else {
            proof {
                if meets(*l, lp as int, *r, rp as int) {
                    let k = choose|k: Seq<K>| (#[trigger] lookup_off(*l, lp as int, k)) is Some && lookup_off(*r, rp as int, k) is Some;
                    assert(k.take(lq.len() as int)[n as int] == lq[n as int]);
                    assert(k.take(rq.len() as int)[n as int] == rq[n as int]);
                }
            }
            false
        }
    }

    /// Whether some key sequence has a value in both trees.
    pub fn intersects<W: Copy>(&self, that: &RadixTree<K, W>) -> (r: bool)
        requires
            self.wf(),
            that.wf(),
        ensures
            r == !self@.dom().disjoint(that@.dom()),
    {
        let r = Self::intersects0(self, 0, that, 0);
        proof {
            if r {
                let k = choose|k: Seq<K>| (#[trigger] lookup_off(*self, 0, k)) is Some && lookup_off(*that, 0, k) is Some;
                lemma_lookup_off_zero(*self, k);
                lemma_lookup_off_zero(*that, k);
                assert(self@.dom().contains(k) && that@.dom().contains(k));
            } else {
                assert forall|k: Seq<K>| self@.dom().contains(k) implies !that@.dom().contains(k) by {
                    lemma_lookup_off_zero(*self, k);
                    lemma_lookup_off_zero(*that, k);
                    if that@.dom().contains(k) {
                        assert(lookup_off(*self, 0, k) is Some && lookup_off(*that, 0, k) is Some);
                    }
                }
            }
        }
        r
    }

    /// Whether no key sequence has a value in both trees.
    pub fn is_disjoint<W: Copy>(&self, that: &RadixTree<K, W>) -> (r: bool)
        requires
            self.wf(),
            that.wf(),
        ensures
            r == self@.dom().disjoint(that@.dom()),
    {
        !self.intersects(that)
    }

    /// Whether `key` has a value.
    /// The value under `key.skip(off)` in the tree `t`.
    fn get0<'a>(t: &'a Self, key: &[K], off: usize) -> (r: Option<&'a V>)
        requires
            t.wf(),
            off <= key@.len(),
        ensures
            r is Some <==> t.lookup(key@.skip(off as int)) is Some,
            r matches Some(v) ==> *v == t.lookup(key@.skip(off as int))->0,
        decreases t,
    {
        let ghost k = key@.skip(off as int);
        let plen = t.prefix.len();
        if key.len() - off < plen {
            return None;
        }
        let mut i: usize = 0;
        while i < plen
            invariant
                i <= plen,
                plen == t.prefix@.len(),
                off + plen <= key.len(),
                k == key@.skip(off as int),
                forall|j: int| 0 <= j < i ==> key@[off + j] == t.prefix@[j],
            decreases plen - i,
        {
            if !key[off + i].key_eq(&t.prefix[i]) {
                proof {
                    assert(k.take(plen as int)[i as int] == key@[off + i]);
                }
                return None;
            }
            proof {
                K::lemma_key_injective(key@[off + i], t.prefix@[i as int]);
            }
            i = i + 1;
        }
        proof {
            assert(k.take(plen as int) =~= t.prefix@);
        }
        if key.len() - off == plen {
            return match &t.value {
                Some(v) => Some(v),
                None => None,
            };
        }
        let c0 = &key[off + plen];
        let ghost rest = k.skip(plen as int);
        proof {
            assert(rest[0] == key@[off + plen]);
            assert(key@.skip(off + plen) =~= rest);
            lemma_lookup_in(t.children@, 0, rest);
        }
        let mut j: usize = 0;
        while j < t.children.len()
            invariant
                j <= t.children@.len(),
                t.wf(),
                off + plen < key.len(),
                plen == t.prefix@.len(),
                rest.len() > 0,
                rest == key@.skip(off + plen),
                t.lookup(key@.skip(off as int)) == lookup_in(t.children@, 0, rest),
                *c0 == rest[0],
                forall|m: int| 0 <= m < j ==> (#[trigger] t.children@[m]).prefix@[0] != rest[0],
            decreases t.children@.len() - j,
        {
            if t.children[j].prefix[0].key_eq(c0) {
                proof {
                    K::lemma_key_injective(t.children@[j as int].prefix@[0], rest[0]);
                    lemma_lookup_in(t.children@, 0, rest);
                }
                return Self::get0(&t.children[j], key, off + plen);
            }
            proof {
                K::lemma_key_injective(t.children@[j as int].prefix@[0], rest[0]);
            }
            j = j + 1;
        }
        None
    }

    /// The value under `key`, if the tree has one.
    pub fn get(&self, key: &[K]) -> (r: Option<&V>)
        requires
            self.wf(),
        ensures
            r is Some <==> self@.dom().contains(key@),
            r matches Some(v) ==> *v == self@[key@],
    {
        proof {
            assert(key@.skip(0) =~= key@);
        }
        Self::get0(self, key, 0)
    }

    pub fn contains_key(&self, key: &[K]) -> (r: bool)
        requires
            self.wf(),
        ensures
            r == self@.dom().contains(key@),
    {
        let one: RadixTree<K, ()> = RadixTree::single(key, ());
        let r = self.intersects(&one);
        proof {
            assert(one@.dom() =~= set![key@]);
            if !r {
                assert(!one@.dom().disjoint(self@.dom()) ==> !self@.dom().disjoint(one@.dom()));
            }
        }
        r
    }
}

/// Every key sequence with a value in `l` has one in `r`, their edges shortened by `lp` and
/// `rp`.
spec fn within<K: SortKey, V, W>(l: RadixTree<K, V>, lp: int, r: RadixTree<K, W>, rp: int) -> bool {
    forall|k: Seq<K>| (#[trigger] lookup_off(l, lp, k)) is Some ==> lookup_off(r, rp, k) is Some
}

/// A trimmed tree holds something.
proof fn lemma_trimmed_some<K: SortKey, V>(t: RadixTree<K, V>, off: int) -> (k: Seq<K>)
    requires
        t.wf(),
        t.trimmed(),
        0 <= off <= t.prefix@.len(),
    ensures
        lookup_off(t, off, k) is Some,
    decreases t,
{
    let q = t.prefix@.skip(off);
    if t.value is Some {
        assert(q.take(q.len() as int) =~= q);
        assert(q.skip(q.len() as int).len() == 0);
        q
    } else {
        let c = t.children@[0];
        assert(decreases_to!(t => t.children));
        let k0 = lemma_trimmed_some(c, 0);
        lemma_lookup_off_zero(c, k0);
        assert(k0.len() > 0) by {
            assert(c.prefix@.len() > 0);
        }
        lemma_wf_children(t);
        lemma_lookup_in_some(t.children@, 0, k0);
        let k = q + k0;
        assert(k.take(q.len() as int) =~= q);
        assert(k.skip(q.len() as int) =~= k0);
        k
    }
}

impl<K: SortKey, V: Copy> RadixTree<K, V> {
    /// Whether every key sequence with a value in `l` has one in `r`, their edges shortened by
    /// `lp` and `rp`. A subtree of `l` without any entry counts as one with an entry that `r`
    /// lacks, so the answer is exact when `l` is trimmed.
    #[verifier::loop_isolation(false)]
    fn is_subset0<W: Copy>(l: &Self, lp: usize, r: &RadixTree<K, W>, rp: usize) -> (b: bool)
        requires
            l.wf(),
            r.wf(),
            lp <= l.prefix@.len(),
            rp <= r.prefix@.len(),
        ensures
            b ==> within(*l, lp as int, *r, rp as int),
            l.trimmed() ==> b == within(*l, lp as int, *r, rp as int),
        decreases l.height() + r.height(),
    {
        let n = common_prefix_at(l.prefix.as_slice(), lp, r.prefix.as_slice(), rp);
        let ll = l.prefix.len() - lp;
        let rl = r.prefix.len() - rp;
        let ghost lq = l.prefix@.skip(lp as int);
        let ghost rq = r.prefix@.skip(rp as int);
        proof {
            lemma_wf_children(*l);
            lemma_wf_children(*r);
        }
        if n == ll && n == rl {
            proof {
                assert(lq =~= lq.take(n as int));
                assert(rq =~= rq.take(n as int));
                assert(lq == rq);
                assert(lq.take(lq.len() as int) =~= lq);
                assert(lq.skip(lq.len() as int).len() == 0);
            }
            if l.value.is_some() && r.value.is_none() {
                proof {
                    assert(lookup_off(*l, lp as int, lq) is Some);
                }
                return false;
            }
            let ghost lc = l.children@;
            let ghost rc = r.children@;
            let mut i: usize = 0;
            let mut j: usize = 0;
            while i < l.children.len()
                invariant
                    lc == l.children@,
                    rc == r.children@,
                    i <= lc.len(),
                    j <= rc.len(),
                    i < lc.len() ==> forall|y: int| 0 <= y < j ==> #[trigger] first(rc[y]) < first(lc[i as int]),
                    forall|x: int| 0 <= x < i ==> exists|y: int| 0 <= y < rc.len() && first(#[trigger] lc[x]) == first(rc[y]) && within(lc[x], 0, rc[y], 0),
                decreases lc.len() + rc.len() - i - j,
            {
                if j == r.children.len() || l.children[i].prefix[0].key_lt(&r.children[j].prefix[0]) {
                    proof {
                        if l.trimmed() {
                            let x = lc[i as int];
                            let k0 = lemma_trimmed_some(x, 0);
                            lemma_lookup_off_zero(x, k0);
                            assert(k0.len() > 0) by {
                                assert(x.prefix@.len() > 0);
                            }
                            lemma_lookup_in_some(lc, i as int, k0);
                            lemma_lookup_in(rc, 0, k0);
                            assert forall|y: int| 0 <= y < rc.len() implies (#[trigger] rc[y]).prefix@[0] != k0[0] by {
                                if y >= j && y > j {
                                    assert(first(rc[j as int]) < first(rc[y]));
                                }
                            }
                            let k = lq + k0;
                            assert(k.take(n as int) =~= lq);
                            assert(k.skip(n as int) =~= k0);
                            assert(lookup_off(*l, lp as int, k) is Some);
                            assert(lookup_off(*r, rp as int, k) is None);
                        }
                    }
                    return false;
                } else if r.children[j].prefix[0].key_lt(&l.children[i].prefix[0]) {
                    j = j + 1;
                } else {
                    proof {
                        lemma_child_height(*l, i as int);
                        lemma_child_height(*r, j as int);
                        K::lemma_key_injective(lc[i as int].prefix@[0], rc[j as int].prefix@[0]);
                    }
                    if !Self::is_subset0(&l.children[i], 0, &r.children[j], 0) {
                        proof {
                            if l.trimmed() {
                                let x = lc[i as int];
                                assert(x.trimmed());
                                let k0 = choose|k: Seq<K>| !((#[trigger] lookup_off(x, 0, k)) is Some ==> lookup_off(rc[j as int], 0, k) is Some);
                                lemma_lookup_off_zero(x, k0);
                                lemma_lookup_off_zero(rc[j as int], k0);
                                assert(k0.len() > 0) by {
                                    assert(x.prefix@.len() > 0);
                                }
                                lemma_lookup_in_some(lc, i as int, k0);
                                lemma_lookup_in(rc, 0, k0);
                                let k = lq + k0;
                                assert(k.take(n as int) =~= lq);
                                assert(k.skip(n as int) =~= k0);
                                assert(lookup_off(*l, lp as int, k) is Some);
                                assert(lookup_off(*r, rp as int, k) is None);
                            }
                        }
                        return false;
                    }
                    proof {
                        assert(first(lc[i as int]) == first(rc[j as int]));
                        if i + 1 < lc.len() {
                            assert forall|y: int| 0 <= y < j + 1 implies #[trigger] first(rc[y]) < first(lc[i + 1]) by {
                                assert(first(lc[i as int]) < first(lc[i + 1]));
                                if y < j {
                                    assert(first(rc[y]) < first(lc[i as int]));
                                }
                            }
                        }
                    }
                    i = i + 1;
                    j = j + 1;
                }
            }
            proof {
                assert forall|k: Seq<K>| (#[trigger] lookup_off(*l, lp as int, k)) is Some implies lookup_off(*r, rp as int, k) is Some by {
                    let rest = k.skip(n as int);
                    if rest.len() > 0 {
                        let x = lemma_lookup_in_child(lc, rest);
                        let y = choose|y: int| 0 <= y < rc.len() && first(#[trigger] lc[x]) == first(rc[y]) && within(lc[x], 0, rc[y], 0);
                        lemma_lookup_off_zero(lc[x], rest);
                        lemma_lookup_off_zero(rc[y], rest);
                        assert(lookup_off(lc[x], 0, rest) is Some);
                        lemma_lookup_in_some(rc, y, rest);
                    }
                }
            }
            true
        } else if n == ll {
            let ghost lc = l.children@;
            let rpn = rp + n;
            proof {
                assert(lq =~= rq.take(n as int));
            }
            if l.value.is_some() {
                proof {
                    assert(lq.take(lq.len() as int) =~= lq);
                    assert(lq.skip(lq.len() as int).len() == 0);
                    assert(lookup_off(*l, lp as int, lq) is Some);
                    lemma_lookup_short(*r, r.prefix@.take(rp as int) + lq);
                    assert(!has_prefix(lq, rq));
                }
                return false;
            }
            let mut i: usize = 0;
            while i < l.children.len()
                invariant
                    lc == l.children@,
                    i <= lc.len(),
                    forall|x: int| 0 <= x < i ==> within(#[trigger] lc[x], 0, *r, rp + n),
                decreases lc.len() - i,
            {
                proof {
                    lemma_child_height(*l, i as int);
                }
                if !Self::is_subset0(&l.children[i], 0, r, rpn) {
                    proof {
                        if l.trimmed() {
                            let x = lc[i as int];
                            assert(x.trimmed());
                            let k0 = choose|k: Seq<K>| !((#[trigger] lookup_off(x, 0, k)) is Some ==> lookup_off(*r, rp + n, k) is Some);
                            lemma_lookup_off_zero(x, k0);
                            assert(k0.len() > 0) by {
                                assert(x.prefix@.len() > 0);
                            }
                            lemma_lookup_in_some(lc, i as int, k0);
                            let k = lq + k0;
                            assert(k.take(n as int) =~= lq);
                            assert(k.skip(n as int) =~= k0);
                            lemma_lookup_off_step(*r, rp as int, n as int, k);
                            assert(lookup_off(*l, lp as int, k) is Some);
                            assert(lookup_off(*r, rp as int, k) is None);
                        }
                    }
                    return false;
                }
                i = i + 1;
            }
            proof {
                assert forall|k: Seq<K>| (#[trigger] lookup_off(*l, lp as int, k)) is Some implies lookup_off(*r, rp as int, k) is Some by {
                    let rest = k.skip(n as int);
                    lemma_lookup_off_step(*r, rp as int, n as int, k);
                    let x = lemma_lookup_in_child(lc, rest);
                    lemma_lookup_off_zero(lc[x], rest);
                    assert(lookup_off(lc[x], 0, rest) is Some);
                }
            }
            true
        } else if n == rl {
            let ghost rc = r.children@;
            let lpn = lp + n;
            proof {
                assert(rq =~= lq.take(n as int));
            }
            let mut j: usize = 0;
            while j < r.children.len()
                invariant
                    rc == r.children@,
                    j <= rc.len(),
                    l.trimmed() ==> forall|y: int| 0 <= y < j ==> !within(*l, lp + n, #[trigger] rc[y], 0),
                decreases rc.len() - j,
            {
                proof {
                    lemma_child_height(*r, j as int);
                }
                if Self::is_subset0(l, lpn, &r.children[j], 0) {
                    proof {
                        assert forall|k: Seq<K>| (#[trigger] lookup_off(*l, lp as int, k)) is Some implies lookup_off(*r, rp as int, k) is Some by {
                            lemma_lookup_off_step(*l, lp as int, n as int, k);
                            let k2 = k.skip(n as int);
                            assert(lookup_off(*l, lp + n, k2) is Some);
                            lemma_lookup_off_zero(rc[j as int], k2);
                            assert(k2.len() > 0) by {
                                assert(l.prefix@.skip(lp + n).len() > 0);
                            }
                            lemma_lookup_in_some(rc, j as int, k2);
                            lemma_lookup_off_step(*r, rp as int, n as int, k);
                        }
                    }
                    return true;
                }
                j = j + 1;
            }
            proof {
                if l.trimmed() && within(*l, lp as int, *r, rp as int) {
                    let k = lemma_trimmed_some(*l, lp as int);
                    lemma_lookup_off_step(*l, lp as int, n as int, k);
                    lemma_lookup_off_step(*r, rp as int, n as int, k);
                    let k2 = k.skip(n as int);
                    assert(k2.len() > 0) by {
                        assert(l.prefix@.skip(lp + n).len() > 0);
                    }
                    let y = lemma_lookup_in_child(rc, k2);
                    assert(within(*l, lp + n, rc[y], 0)) by {
                        assert forall|k3: Seq<K>| (#[trigger] lookup_off(*l, lp + n, k3)) is Some implies lookup_off(rc[y], 0, k3) is Some by {
                            let kk = rq + k3;
                            assert(kk.take(n as int) =~= rq);
                            assert(kk.skip(n as int) =~= k3);
                            lemma_lookup_off_step(*l, lp as int, n as int, kk);
                            lemma_lookup_off_step(*r, rp as int, n as int, kk);
                            assert(k3.len() > 0) by {
                                assert(l.prefix@.skip(lp + n).len() > 0);
                            }
                            assert(k3[0] == l.prefix@[lp + n]) by {
                                assert(k3.take(l.prefix@.skip(lp + n).len() as int)[0] == k3[0]);
                            }
                            assert(k2[0] == l.prefix@[lp + n]) by {
                                assert(k2.take(l.prefix@.skip(lp + n).len() as int)[0] == k2[0]);
                            }
                            let z = lemma_lookup_in_child(rc, k3);
                            if z != y {
                                if z < y {
                                    assert(first(rc[z]) < first(rc[y]));
                                } else {
                                    assert(first(rc[y]) < first(rc[z]));
                                }
                            }
                            lemma_lookup_off_zero(rc[y], k3);
                        }
                    }
                }
            }
            false
        } else {
            proof {
                if l.trimmed() {
                    let k = lemma_trimmed_some(*l, lp as int);
                    assert(k.take(lq.len() as int)[n as int] == lq[n as int]);
                    if has_prefix(k, rq) {
                        assert(k.take(rq.len() as int)[n as int] == rq[n as int]);
                    }
                    assert(lookup_off(*r, rp as int, k) is None);
                }
            }
            false
        }
    }

    /// Whether every key sequence with a value in `self` has one in `that`. A subtree of `self`
    /// without any entry counts as one with an entry that `that` lacks, so the answer is exact
    /// when `self` is trimmed, and `true` always means that it is a subset.
    pub fn is_subset<W: Copy>(&self, that: &RadixTree<K, W>) -> (r: bool)
        requires
            self.wf(),
            that.wf(),
        ensures
            r ==> self@.dom().subset_of(that@.dom()),
            self.trimmed() ==> r == self@.dom().subset_of(that@.dom()),
    {
        let r = Self::is_subset0(self, 0, that, 0);
        proof {
            assert(within(*self, 0, *that, 0) == self@.dom().subset_of(that@.dom())) by {
                if within(*self, 0, *that, 0) {
                    assert forall|k: Seq<K>| self@.dom().contains(k) implies that@.dom().contains(k) by {
                        lemma_lookup_off_zero(*self, k);
                        lemma_lookup_off_zero(*that, k);
                    }
                } else {
                    let k = choose|k: Seq<K>| !((#[trigger] lookup_off(*self, 0, k)) is Some ==> lookup_off(*that, 0, k) is Some);
                    lemma_lookup_off_zero(*self, k);
                    lemma_lookup_off_zero(*that, k);
                    assert(self@.dom().contains(k));
                }
            }
        }
        r
    }
}

/// The key sequence of the entries of a traversal: the keys of the edges from the root down.
#[derive(Debug, Clone)]
pub struct IterKey<K>(Vec<K>);

impl<K: Copy> IterKey<K> {
    /// The keys held.
    pub closed spec fn keys(&self) -> Seq<K> {
        self.0@
    }

    /// No keys.
    pub fn new() -> (r: Self)
        ensures
            r.keys() == Seq::<K>::empty(),
    {
        IterKey(Vec::new())
    }

    /// Appends the keys of `data`.
    pub fn append(&mut self, data: &[K])
        ensures
            final(self).keys() == old(self).keys() + data@,
    {
        let mut i: usize = 0;
        while i < data.len()
            invariant
                i <= data@.len(),
                self.keys() == old(self).keys() + data@.take(i as int),
            decreases data@.len() - i,
        {
            self.0.push(data[i]);
            i = i + 1;
            assert(self.keys() =~= old(self).keys() + data@.take(i as int));
        }
        assert(data@.take(data@.len() as int) =~= data@);
    }

    /// Removes the last `n` keys, or all if there are fewer.
    pub fn pop(&mut self, n: usize)
        ensures
            final(self).keys() == old(self).keys().take(if n < old(self).keys().len() {
                old(self).keys().len() - n
            } else {
                0
            }),
    {
        let len = self.0.len();
        let keep = if n < len { len - n } else { 0 };
        self.0.truncate(keep);
    }

    /// The keys as a slice.
    pub fn as_slice(&self) -> (r: &[K])
        ensures
            r@ == self.keys(),
    {
        self.0.as_slice()
    }
}

/// The entries of the tree `t` below the key sequence `path`, as a traversal visits them: the
/// value at a node before the entries of its subtrees, and subtrees in the order of their
/// first key.
pub closed spec fn entries_of<K: SortKey, V>(t: RadixTree<K, V>, path: Seq<K>) -> Seq<(Seq<K>, V)>
    decreases t, 0int,
{
    let p = path + t.prefix@;
    let own = if t.value is Some {
        seq![(p, t.value->0)]
    } else {
        Seq::empty()
    };
    proof {
        assert(decreases_to!(t => t.children));
    }
    own + entries_in(t.children@, 0, p)
}

/// The entries of the trees `cs[i..]` below `path`, one tree after the other.
pub closed spec fn entries_in<K: SortKey, V>(cs: Seq<RadixTree<K, V>>, i: int, path: Seq<K>) -> Seq<(Seq<K>, V)>
    decreases cs, cs.len() - i,
{
    if 0 <= i < cs.len() {
        entries_of(cs[i], path) + entries_in(cs, i + 1, path)
    } else {
        Seq::empty()
    }
}

/// `a` comes before `b` among key sequences: `a` is a proper prefix of `b`, or at the first
/// position where the two differ, `a` holds the smaller key.
pub open spec fn seq_before<K: SortKey>(a: Seq<K>, b: Seq<K>) -> bool {
    exists|n: int|
        #![trigger a.take(n), b.take(n)]
        0 <= n <= a.len() && n <= b.len() && a.take(n) == b.take(n) && ((n == a.len() && n < b.len()) || (n
            < a.len() && n < b.len() && a[n].key() < b[n].key()))
}

/// The key sequences of the entries `es` ascend strictly: each comes before every later one,
/// so that none occurs twice.
pub open spec fn keys_ascend<K: SortKey, V>(es: Seq<(Seq<K>, V)>) -> bool {
    forall|i: int, j: int| 0 <= i < j < es.len() ==> seq_before(#[trigger] es[i].0, #[trigger] es[j].0)
}

/// No key sequence comes before itself, and of two key sequences at most one comes before the
/// other.
pub proof fn lemma_seq_before_asymmetric<K: SortKey>(a: Seq<K>, b: Seq<K>)
    ensures
        !seq_before(a, a),
        !(seq_before(a, b) && seq_before(b, a)),
{
    if seq_before(a, a) {
        let n = choose|n: int|
            #![trigger a.take(n), a.take(n)]
            0 <= n <= a.len() && n <= a.len() && a.take(n) == a.take(n) && ((n == a.len() && n < a.len()) || (n
                < a.len() && n < a.len() && a[n].key() < a[n].key()));
    }
    if seq_before(a, b) && seq_before(b, a) {
        let n = choose|n: int|
            #![trigger a.take(n), b.take(n)]
            0 <= n <= a.len() && n <= b.len() && a.take(n) == b.take(n) && ((n == a.len() && n < b.len()) || (n
                < a.len() && n < b.len() && a[n].key() < b[n].key()));
        let m = choose|m: int|
            #![trigger b.take(m), a.take(m)]
            0 <= m <= b.len() && m <= a.len() && b.take(m) == a.take(m) && ((m == b.len() && m < a.len()) || (m
                < b.len() && m < a.len() && b[m].key() < a[m].key()));
        if n < m {
            assert(a.take(m)[n] == b.take(m)[n]);
        } else if m < n {
            assert(a.take(n)[m] == b.take(n)[m]);
        }
    }
}

/// `a` comes before `b` when they agree on their first `n` keys and then `a` ends or holds
/// the smaller key.
proof fn lemma_before_at<K: SortKey>(a: Seq<K>, b: Seq<K>, n: int)
    requires
        0 <= n <= a.len(),
        n <= b.len(),
        a.take(n) == b.take(n),
        (n == a.len() && n < b.len()) || (n < a.len() && n < b.len() && a[n].key() < b[n].key()),
    ensures
        seq_before(a, b),
{
}

/// A key sequence that starts with `p + q` holds the first key of `q` right after `p`.
proof fn lemma_prefix_key<K>(k: Seq<K>, p: Seq<K>, q: Seq<K>)
    requires
        has_prefix(k, p + q),
        q.len() > 0,
    ensures
        has_prefix(k, p),
        k.len() > p.len(),
        k[p.len() as int] == q[0],
{
    lemma_prefix_concat(k, p, q);
    assert(k.take((p + q).len() as int)[p.len() as int] == (p + q)[p.len() as int]);
}

/// A traversal lists the entries of a tree with strictly ascending key sequences, each
/// starting with the path to the tree and the edge of its root.
proof fn lemma_entries_ascend<K: SortKey, V>(t: RadixTree<K, V>, path: Seq<K>)
    requires
        t.wf(),
    ensures
        keys_ascend(entries_of(t, path)),
        forall|n: int| 0 <= n < entries_of(t, path).len() ==> has_prefix(#[trigger] entries_of(t, path)[n].0, path + t.prefix@),
    decreases t, 0int,
{
    let p = path + t.prefix@;
    let own = if t.value is Some {
        seq![(p, t.value->0)]
    } else {
        Seq::<(Seq<K>, V)>::empty()
    };
    assert(decreases_to!(t => t.children));
    lemma_wf_children(t);
    lemma_entries_in_ascend(t.children@, 0, p);
    let rest = entries_in(t.children@, 0, p);
    let es = entries_of(t, path);
    assert(es == own + rest);
    assert forall|n: int| 0 <= n < rest.len() implies has_prefix(#[trigger] rest[n].0, p) && rest[n].0.len() > p.len() by {
        let j = choose|j: int| 0 <= j < t.children@.len() && has_prefix(rest[n].0, p + (#[trigger] t.children@[j]).prefix@);
        lemma_prefix_key(rest[n].0, p, t.children@[j].prefix@);
    }
    assert(p.take(p.len() as int) =~= p);
    assert forall|x: int, y: int| 0 <= x < y < es.len() implies seq_before(#[trigger] es[x].0, #[trigger] es[y].0) by {
        if x < own.len() {
            let k = rest[y - own.len()].0;
            assert(es[y] == rest[y - own.len()]);
            assert(has_prefix(k, p));
            lemma_before_at(p, k, p.len() as int);
        } else {
            assert(es[x] == rest[x - own.len()] && es[y] == rest[y - own.len()]);
        }
    }
    assert forall|n: int| 0 <= n < es.len() implies has_prefix(#[trigger] es[n].0, p) by {
        if n >= own.len() {
            assert(es[n] == rest[n - own.len()]);
        }
    }
}

/// A traversal lists the entries of the trees `cs[i..]` with strictly ascending key
/// sequences, each starting with the path and the edge of one of those trees.
proof fn lemma_entries_in_ascend<K: SortKey, V>(cs: Seq<RadixTree<K, V>>, i: int, path: Seq<K>)
    requires
        children_ok(cs),
        0 <= i,
    ensures
        keys_ascend(entries_in(cs, i, path)),
        forall|n: int| 0 <= n < entries_in(cs, i, path).len() ==> exists|j: int|
            i <= j < cs.len() && has_prefix(#[trigger] entries_in(cs, i, path)[n].0, path + (#[trigger] cs[j]).prefix@),
    decreases cs, cs.len() - i,
{
    if 0 <= i < cs.len() {
        lemma_entries_ascend(cs[i], path);
        lemma_entries_in_ascend(cs, i + 1, path);
        let a = entries_of(cs[i], path);
        let b = entries_in(cs, i + 1, path);
        let es = entries_in(cs, i, path);
        assert(es == a + b);
        assert forall|x: int, y: int| 0 <= x < y < es.len() implies seq_before(#[trigger] es[x].0, #[trigger] es[y].0) by {
            if y < a.len() {
                assert(es[x] == a[x] && es[y] == a[y]);
            } else if x >= a.len() {
                assert(es[x] == b[x - a.len()] && es[y] == b[y - a.len()]);
            } else {
                assert(es[x] == a[x] && es[y] == b[y - a.len()]);
                let ka = a[x].0;
                let kb = b[y - a.len()].0;
                let j = choose|j: int| i + 1 <= j < cs.len() && has_prefix(kb, path + (#[trigger] cs[j]).prefix@);
                lemma_prefix_key(ka, path, cs[i].prefix@);
                lemma_prefix_key(kb, path, cs[j].prefix@);
                assert(first(cs[i]) < first(cs[j]));
                assert(ka.take(path.len() as int) =~= kb.take(path.len() as int));
                lemma_before_at(ka, kb, path.len() as int);
            }
        }
        assert forall|n: int| 0 <= n < es.len() implies exists|j: int|
            i <= j < cs.len() && has_prefix(#[trigger] es[n].0, path + (#[trigger] cs[j]).prefix@) by {
            if n < a.len() {
                assert(es[n] == a[n]);
                assert(has_prefix(es[n].0, path + cs[i].prefix@));
            } else {
                assert(es[n] == b[n - a.len()]);
            }
        }
    }
}

/// What a scan under `prefix` lists (membership in the entries of `m` that start with
/// `prefix`, keys ascending): every entry of `m` whose key sequence starts with `prefix`,
/// each exactly once, and nothing else.
pub proof fn lemma_scan_lists_each_entry_once<K: SortKey, V>(m: Map<Seq<K>, V>, prefix: Seq<K>, es: Seq<(Seq<K>, V)>)
    requires
        forall|k: Seq<K>, v: V| es.contains((k, v)) <==> m.restrict(with_prefix(prefix)).contains_pair(k, v),
        keys_ascend(es),
    ensures
        forall|i: int| 0 <= i < es.len() ==> has_prefix(#[trigger] es[i].0, prefix) && m.dom().contains(es[i].0)
            && m[es[i].0] == es[i].1,
        forall|k: Seq<K>| #[trigger] m.dom().contains(k) && has_prefix(k, prefix) ==> exists|i: int|
            0 <= i < es.len() && es[i] == (k, m[k]),
        forall|i: int, j: int| 0 <= i < es.len() && 0 <= j < es.len() && (#[trigger] es[i]).0 == (#[trigger] es[j]).0 ==> i == j,
{
    assert forall|i: int| 0 <= i < es.len() implies has_prefix(#[trigger] es[i].0, prefix) && m.dom().contains(es[i].0)
        && m[es[i].0] == es[i].1 by {
        let k = es[i].0;
        let v = es[i].1;
        assert(es.contains(es[i]));
        assert(es.contains((k, v)));
        let r = m.restrict(with_prefix(prefix));
        assert(r.contains_pair(k, v));
        assert(r.dom().contains(k) && r[k] == v);
        assert(with_prefix(prefix).contains(k) && m.dom().contains(k));
        assert(r[k] == m[k]);
    }
    assert forall|k: Seq<K>| #[trigger] m.dom().contains(k) && has_prefix(k, prefix) implies exists|i: int|
        0 <= i < es.len() && es[i] == (k, m[k]) by {
        assert(with_prefix(prefix).contains(k));
        assert(m.restrict(with_prefix(prefix)).contains_pair(k, m[k]));
        assert(es.contains((k, m[k])));
    }
    assert forall|i: int, j: int| 0 <= i < es.len() && 0 <= j < es.len() && (#[trigger] es[i]).0 == (#[trigger] es[j]).0 implies i == j by {
        lemma_seq_before_asymmetric(es[i].0, es[i].0);
        if i < j {
            assert(seq_before(es[i].0, es[j].0));
        } else if j < i {
            assert(seq_before(es[j].0, es[i].0));
        }
    }
}

/// A list of entries with strictly ascending key sequences is determined by the entries it
/// holds: two such lists that hold the same entries are equal.
pub proof fn lemma_ascending_listing_unique<K: SortKey, V>(a: Seq<(Seq<K>, V)>, b: Seq<(Seq<K>, V)>)
    requires
        keys_ascend(a),
        keys_ascend(b),
        forall|e: (Seq<K>, V)| a.contains(e) <==> b.contains(e),
    ensures
        a == b,
    decreases a.len(),
{
    if a.len() == 0 {
        if b.len() > 0 {
            assert(b.contains(b[0]));
        }
        assert(a =~= b);
    } else {
        assert(a.contains(a[0]));
        assert(b.len() > 0);
        assert(b.contains(b[0]));
        let m = choose|m: int| 0 <= m < a.len() && a[m] == b[0];
        let n = choose|n: int| 0 <= n < b.len() && b[n] == a[0];
        lemma_seq_before_asymmetric(a[0].0, b[0].0);
        if m > 0 && n > 0 {
            assert(seq_before(a[0].0, a[m].0));
            assert(seq_before(b[0].0, b[n].0));
        }
        assert(a[0] == b[0]);
        let a1 = a.drop_first();
        let b1 = b.drop_first();
        assert forall|e: (Seq<K>, V)| a1.contains(e) <==> b1.contains(e) by {
            if a1.contains(e) {
                let x = choose|x: int| 0 <= x < a1.len() && a1[x] == e;
                assert(a[x + 1] == e);
                assert(b.contains(e));
                let y = choose|y: int| 0 <= y < b.len() && b[y] == e;
                if y == 0 {
                    assert(seq_before(a[0].0, a[x + 1].0));
                    lemma_seq_before_asymmetric(e.0, e.0);
                }
                assert(b1[y - 1] == e);
            }
            if b1.contains(e) {
                let y = choose|y: int| 0 <= y < b1.len() && b1[y] == e;
                assert(b[y + 1] == e);
                assert(a.contains(e));
                let x = choose|x: int| 0 <= x < a.len() && a[x] == e;
                if x == 0 {
                    assert(seq_before(b[0].0, b[y + 1].0));
                    lemma_seq_before_asymmetric(e.0, e.0);
                }
                assert(a1[x - 1] == e);
            }
        }
        assert forall|i: int, j: int| 0 <= i < j < a1.len() implies seq_before(#[trigger] a1[i].0, #[trigger] a1[j].0) by {
            assert(a1[i] == a[i + 1] && a1[j] == a[j + 1]);
        }
        assert forall|i: int, j: int| 0 <= i < j < b1.len() implies seq_before(#[trigger] b1[i].0, #[trigger] b1[j].0) by {
            assert(b1[i] == b[i + 1] && b1[j] == b[j + 1]);
        }
        lemma_ascending_listing_unique(a1, b1);
        assert(a =~= b) by {
            assert forall|i: int| 0 <= i < a.len() implies a[i] == b[i] by {
                if i > 0 {
                    assert(a[i] == a1[i - 1] && b[i] == b1[i - 1]);
                }
            }
        }
    }
}

/// The map that adding the entries `es` one after the other to an empty tree gives: an entry
/// does not replace a value that an earlier one gave the same key sequence.
pub open spec fn entries_map<K, V>(es: Seq<(Seq<K>, V)>) -> Map<Seq<K>, V>
    decreases es.len(),
{
    if es.len() == 0 {
        Map::empty()
    } else {
        map![es.last().0 => es.last().1].union_prefer_right(entries_map(es.drop_last()))
    }
}

impl<K: SortKey, V: Copy> RadixTree<K, V> {
    /// The subtrees below the root.
    pub fn children(&self) -> (r: &[Self])
        ensures
            r@ == self.subtrees(),
    {
        self.children.as_slice()
    }

    /// Appends the entries of the tree below `path` to `out`.
    fn collect(&self, path: &mut IterKey<K>, out: &mut Vec<(Vec<K>, V)>)
        ensures
            final(path).keys() == old(path).keys(),
            out_view(final(out)@) == out_view(old(out)@) + entries_of(*self, old(path).keys()),
        decreases self,
    {
        let ghost path0 = path.keys();
        path.append(self.prefix.as_slice());
        let ghost p = path.keys();
        if let Some(v) = self.value {
            let key = copy_back(path.as_slice(), 0);
            out.push((key, v));
            proof {
                assert(key@ =~= p);
                assert(out_view(out@) =~= out_view(old(out)@) + seq![(p, v)]);
            }
        }
        let ghost out1 = out_view(out@);
        let mut i: usize = 0;
        while i < self.children.len()
            invariant
                i <= self.children@.len(),
                path.keys() == p,
                out_view(out@) == out1 + entries_in(self.children@, 0, p).take(0) + entries_of_prefix(self.children@, i as int, p),
            decreases self.children@.len() - i,
        {
            self.children[i].collect(path, out);
            proof {
                lemma_entries_prefix_step(self.children@, i as int, p);
            }
            i = i + 1;
        }
        proof {
            lemma_entries_prefix_all(self.children@, p);
            assert(entries_in(self.children@, 0, p).take(0) =~= Seq::<(Seq<K>, V)>::empty());
            let own = if self.value is Some { seq![(p, self.value->0)] } else { Seq::<(Seq<K>, V)>::empty() };
            assert(out1 == out_view(old(out)@) + own);
            assert(out_view(out@) =~= out_view(old(out)@) + entries_of(*self, path0));
        }
        path.pop(self.prefix.len());
        proof {
            assert(p.take(p.len() - self.prefix@.len()) =~= path0);
        }
    }

    /// The entries of the tree as a traversal visits them: the value at a node before the
    /// entries of its subtrees, and subtrees in the order of their first key.
    pub fn iter(&self) -> (r: Vec<(Vec<K>, V)>)
        ensures
            out_view(r@) == entries_of(*self, Seq::empty()),
            self.wf() ==> keys_ascend(out_view(r@)),
    {
        let mut path = IterKey::new();
        let mut out: Vec<(Vec<K>, V)> = Vec::new();
        self.collect(&mut path, &mut out);
        assert(out_view(Seq::<(Vec<K>, V)>::empty()) =~= Seq::<(Seq<K>, V)>::empty());
        proof {
            if self.wf() {
                lemma_entries_ascend(*self, Seq::empty());
            }
        }
        out
    }

    /// The values of the tree, in the order in which [RadixTree::iter] gives the entries.
    pub fn values(&self) -> (r: Vec<V>)
        ensures
            r@ == entries_of(*self, Seq::empty()).map_values(|e: (Seq<K>, V)| e.1),
    {
        let es = self.iter();
        let mut r: Vec<V> = Vec::new();
        let mut i: usize = 0;
        while i < es.len()
            invariant
                i <= es@.len(),
                out_view(es@) == entries_of(*self, Seq::empty()),
                r@ == out_view(es@).take(i as int).map_values(|e: (Seq<K>, V)| e.1),
            decreases es@.len() - i,
        {
            r.push(es[i].1);
            i = i + 1;
            assert(r@ =~= out_view(es@).take(i as int).map_values(|e: (Seq<K>, V)| e.1));
        }
        assert(out_view(es@).take(es@.len() as int) =~= out_view(es@));
        r
    }

    /// The tree of the entries `es`, added one after the other: an entry does not replace a
    /// value that an earlier one gave the same key sequence.
    pub fn from_entries(es: &[(Vec<K>, V)]) -> (r: Self)
        ensures
            r.wf(),
            r@ == entries_map(out_view(es@)),
            es@.len() > 0 ==> r.trimmed(),
    {
        let mut r = Self::new();
        let mut i: usize = 0;
        while i < es.len()
            invariant
                i <= es@.len(),
                r.wf(),
                r@ == entries_map(out_view(es@).take(i as int)),
                i == 0 ==> r.bare() && r.edge().len() == 0,
                i > 0 ==> r.trimmed(),
            decreases es@.len() - i,
        {
            let one = Self::single(es[i].0.as_slice(), es[i].1);
            r.union_with(&one);
            proof {
                let t = out_view(es@).take(i + 1);
                assert(t.drop_last() =~= out_view(es@).take(i as int));
            }
            i = i + 1;
        }
        assert(out_view(es@).take(es@.len() as int) =~= out_view(es@));
        r
    }
}

/// Entries with their key sequences as sequences.
pub open spec fn out_view<K, V>(s: Seq<(Vec<K>, V)>) -> Seq<(Seq<K>, V)> {
    s.map_values(|e: (Vec<K>, V)| (e.0@, e.1))
}

/// The entries of the trees `cs[..i]` below `path`, one tree after the other.
spec fn entries_of_prefix<K: SortKey, V>(cs: Seq<RadixTree<K, V>>, i: int, path: Seq<K>) -> Seq<(Seq<K>, V)>
    decreases i,
{
    if 0 < i <= cs.len() {
        entries_of_prefix(cs, i - 1, path) + entries_of(cs[i - 1], path)
    } else {
        Seq::empty()
    }
}

proof fn lemma_entries_prefix_step<K: SortKey, V>(cs: Seq<RadixTree<K, V>>, i: int, path: Seq<K>)
    requires
        0 <= i < cs.len(),
    ensures
        entries_of_prefix(cs, i + 1, path) == entries_of_prefix(cs, i, path) + entries_of(cs[i], path),
{
}

/// Taking the trees in order from the front gives the entries of all of them.
proof fn lemma_entries_prefix_all<K: SortKey, V>(cs: Seq<RadixTree<K, V>>, path: Seq<K>)
    ensures
        entries_of_prefix(cs, cs.len() as int, path) == entries_in(cs, 0, path),
{
    lemma_entries_split(cs, 0, path);
    assert(entries_of_prefix(cs, 0, path) =~= Seq::<(Seq<K>, V)>::empty());
}

/// The entries of `cs[i..]` follow those of `cs[..i]`.
proof fn lemma_entries_split<K: SortKey, V>(cs: Seq<RadixTree<K, V>>, i: int, path: Seq<K>)
    requires
        0 <= i <= cs.len(),
    ensures
        entries_of_prefix(cs, cs.len() as int, path) == entries_of_prefix(cs, i, path) + entries_in(cs, i, path),
    decreases cs.len() - i,
{
    if i < cs.len() {
        lemma_entries_split(cs, i + 1, path);
        assert(entries_of_prefix(cs, i + 1, path) == entries_of_prefix(cs, i, path) + entries_of(cs[i], path));
        assert(entries_of_prefix(cs, i, path) + entries_in(cs, i, path) =~= entries_of_prefix(cs, i, path) + entries_of(cs[i], path) + entries_in(cs, i + 1, path));
    } else {
        assert(entries_of_prefix(cs, i, path) + entries_in(cs, i, path) =~= entries_of_prefix(cs, i, path));
    }
}

impl<K: SortKey, V: Copy> Default for RadixTree<K, V> {
    /// The empty tree.
    fn default() -> (r: Self)
        ensures
            r.wf(),
            r@ == Map::<Seq<K>, V>::empty(),
            r.bare(),
    {
        Self::new()
    }
}

impl<K: SortKey, V: Copy> RadixTree<K, V> {
    /// A copy of the tree, node for node.
    fn copy_all(&self) -> (r: Self)
        ensures
            r.prefix@ == self.prefix@,
            r.value == self.value,
            r.height() == self.height(),
            forall|k: Seq<K>| #[trigger] r.lookup(k) == self.lookup(k),
            self.wf() ==> r.wf(),
        decreases self,
    {
        let mut out: Vec<Self> = Vec::new();
        let mut i: usize = 0;
        while i < self.children.len()
            invariant
                i <= self.children@.len(),
                out@.len() == i,
                forall|j: int| 0 <= j < i ==> (#[trigger] out@[j]).prefix@ == self.children@[j].prefix@,
                forall|j: int| 0 <= j < i ==> self.children@[j].wf() ==> (#[trigger] out@[j]).wf(),
                forall|j: int| 0 <= j < i ==> (#[trigger] out@[j]).height() == self.children@[j].height(),
                forall|j: int, k: Seq<K>| 0 <= j < i ==> #[trigger] out@[j].lookup(k) == self.children@[j].lookup(k),
            decreases self.children@.len() - i,
        {
            let t = self.children[i].copy_all();
            out.push(t);
            i = i + 1;
        }
        let prefix = copy_back(self.prefix.as_slice(), 0);
        let r = RadixTree { prefix, value: self.value, children: out };
        proof {
            let cs = self.children@;
            assert(prefix@ =~= self.prefix@);
            if self.wf() {
                assert forall|i: int, j: int| 0 <= i < j < out@.len() implies (#[trigger] out@[i]).prefix@[0].key() < (
                #[trigger] out@[j]).prefix@[0].key() by {
                    assert(first(cs[i]) < first(cs[j]));
                }
                assert forall|i: int| 0 <= i < out@.len() implies (#[trigger] out@[i]).wf() by {
                    assert(cs[i].wf());
                }
            }
            lemma_max_height_same(out@, cs, 0);
            assert forall|k: Seq<K>| #[trigger] r.lookup(k) == self.lookup(k) by {
                if has_prefix(k, prefix@) {
                    let rest = k.skip(prefix@.len() as int);
                    if rest.len() > 0 {
                        lemma_lookup_in_same(out@, cs, 0, rest);
                    }
                }
            }
        }
        r
    }
}

impl<K: SortKey, V: Copy> Clone for RadixTree<K, V> {
    /// A copy of the tree, node for node.
    fn clone(&self) -> (r: Self)
        ensures
            r@ == self@,
            self.wf() ==> r.wf(),
    {
        let r = self.copy_all();
        assert(r@ =~= self@);
        r
    }
}

proof fn lemma_contains_concat<A>(a: Seq<A>, b: Seq<A>, x: A)
    ensures
        (a + b).contains(x) <==> a.contains(x) || b.contains(x),
{
    if a.contains(x) {
        let i = choose|i: int| 0 <= i < a.len() && a[i] == x;
        assert((a + b)[i] == x);
    }
    if b.contains(x) {
        let i = choose|i: int| 0 <= i < b.len() && b[i] == x;
        assert((a + b)[a.len() + i] == x);
    }
    if (a + b).contains(x) {
        let i = choose|i: int| 0 <= i < (a + b).len() && (a + b)[i] == x;
        if i < a.len() {
            assert(a[i] == x);
        } else {
            assert(b[i - a.len()] == x);
        }
    }
}

/// In a list of subtrees with distinct first keys, some subtree from `i` on holds `v` under
/// `rest` exactly when the list does.
proof fn lemma_lookup_in_exists<K: SortKey, V>(cs: Seq<RadixTree<K, V>>, i: int, rest: Seq<K>, v: V)
    requires
        children_ok(cs),
        0 <= i,
    ensures
        lookup_in(cs, i, rest) == Some(v) <==> exists|j: int| i <= j < cs.len() && (#[trigger] cs[j]).lookup(rest) == Some(v),
    decreases cs.len() - i,
{
    if i < cs.len() {
        lemma_lookup_in_exists(cs, i + 1, rest, v);
        if cs[i].lookup(rest) is Some {
            if rest.len() > 0 {
                assert(cs[i].prefix@[0] == rest[0]) by {
                    assert(rest.take(cs[i].prefix@.len() as int)[0] == rest[0]);
                }
                assert forall|j: int| i < j < cs.len() implies (#[trigger] cs[j]).lookup(rest) is None by {
                    assert(first(cs[i]) < first(cs[j]));
                    lemma_lookup_other_first(cs[j], rest);
                }
            }
        }
    }
}

/// The entries that a traversal lists below `path` are those of the tree below `path`.
proof fn lemma_entries_of<K: SortKey, V>(t: RadixTree<K, V>, path: Seq<K>, k: Seq<K>, v: V)
    requires
        t.wf(),
    ensures
        entries_of(t, path).contains((k, v)) <==> has_prefix(k, path) && t.lookup(k.skip(path.len() as int)) == Some(v),
    decreases t, 0int,
{
    let p = path + t.prefix@;
    let own = if t.value is Some {
        seq![(p, t.value->0)]
    } else {
        Seq::<(Seq<K>, V)>::empty()
    };
    assert(decreases_to!(t => t.children));
    lemma_wf_children(t);
    lemma_entries_in(t.children@, 0, p, k, v);
    lemma_contains_concat(own, entries_in(t.children@, 0, p), (k, v));
    lemma_prefix_concat(k, path, t.prefix@);
    let kk = k.skip(path.len() as int);
    if own.contains((k, v)) {
        assert(own[0] == (k, v));
        assert(k =~= p);
        assert(k.take(path.len() as int) =~= path);
        assert(kk =~= t.prefix@);
        assert(kk.take(t.prefix@.len() as int) =~= t.prefix@);
        assert(kk.skip(t.prefix@.len() as int).len() == 0);
    }
    if has_prefix(k, path) && t.lookup(kk) == Some(v) {
        let rest = kk.skip(t.prefix@.len() as int);
        if rest.len() == 0 {
            assert(k =~= p) by {
                assert(k =~= k.take(p.len() as int));
            }
            assert(own[0] == (k, v));
        } else {
            lemma_lookup_in_exists(t.children@, 0, rest, v);
        }
    }
    if entries_in(t.children@, 0, p).contains((k, v)) {
        let rest = k.skip(p.len() as int);
        lemma_lookup_in_exists(t.children@, 0, rest, v);
        let j = choose|j: int| 0 <= j < t.children@.len() && (#[trigger] t.children@[j]).lookup(rest) == Some(v);
        assert(rest.len() > 0) by {
            assert(t.children@[j].prefix@.len() > 0);
        }
    }
}

/// The entries that a traversal lists below `path` from the trees `cs[i..]`.
proof fn lemma_entries_in<K: SortKey, V>(cs: Seq<RadixTree<K, V>>, i: int, path: Seq<K>, k: Seq<K>, v: V)
    requires
        children_ok(cs),
        0 <= i,
    ensures
        entries_in(cs, i, path).contains((k, v)) <==> has_prefix(k, path) && exists|j: int|
            i <= j < cs.len() && (#[trigger] cs[j]).lookup(k.skip(path.len() as int)) == Some(v),
    decreases cs, cs.len() - i,
{
    if 0 <= i < cs.len() {
        lemma_entries_of(cs[i], path, k, v);
        lemma_entries_in(cs, i + 1, path, k, v);
        lemma_contains_concat(entries_of(cs[i], path), entries_in(cs, i + 1, path), (k, v));
    }
}

/// A traversal lists exactly the entries of the tree: a key sequence and a value appear in
/// [RadixTree::iter] exactly when the tree holds that value under that key sequence.
pub proof fn lemma_iter_lists_entries<K: SortKey, V>(t: RadixTree<K, V>, k: Seq<K>, v: V)
    requires
        t.wf(),
    ensures
        entries_of(t, Seq::empty()).contains((k, v)) <==> t@.contains_pair(k, v),
{
    lemma_entries_of(t, Seq::empty(), k, v);
    assert(k.take(0) =~= Seq::<K>::empty());
    assert(k.skip(0) =~= k);
}

/// `f` can be called on every value, and answers the same for the same value.
pub open spec fn decides<W, F: Fn(&W) -> bool>(f: F) -> bool {
    &&& forall|w: W| #[trigger] f.requires((&w,))
    &&& forall|w: W, b: bool| #[trigger] f.ensures((&w,), b) ==> b == f.ensures((&w,), true)
}

/// `f` answers `true` for `w`.
pub open spec fn accepts<W, F: Fn(&W) -> bool>(f: F, w: W) -> bool {
    f.ensures((&w,), true)
}

/// `t` holds a value under `p` that `f` accepts.
pub open spec fn marks<K: SortKey, W, F: Fn(&W) -> bool>(t: RadixTree<K, W>, f: F, p: Seq<K>) -> bool {
    t.lookup(p) matches Some(w) && accepts(f, w)
}

/// `t` holds a value that `f` accepts under some prefix of `k`, `k` itself included.
pub open spec fn marked<K: SortKey, W, F: Fn(&W) -> bool>(t: RadixTree<K, W>, f: F, k: Seq<K>) -> bool {
    exists|j: int| 0 <= j <= k.len() && #[trigger] marks(t, f, k.take(j))
}

/// The list of subtrees `cs` holds a value that `f` accepts under some nonempty prefix of `rest`.
spec fn marked_in<K: SortKey, W, F: Fn(&W) -> bool>(cs: Seq<RadixTree<K, W>>, f: F, rest: Seq<K>) -> bool {
    exists|j: int| 1 <= j <= rest.len() && #[trigger] marks_in(cs, f, rest.take(j))
}

/// The list of subtrees `cs` holds a value that `f` accepts under `p`.
spec fn marks_in<K: SortKey, W, F: Fn(&W) -> bool>(cs: Seq<RadixTree<K, W>>, f: F, p: Seq<K>) -> bool {
    lookup_in(cs, 0, p) matches Some(w) && accepts(f, w)
}

/// `c` is what merging the subtrees `ga[..ia]` and `gb[..ib]` gives, where `target` is what the
/// merge is to hold under each key sequence.
spec fn merged_gen<K: SortKey, V, W>(
    ga: Seq<RadixTree<K, V>>,
    ia: int,
    gb: Seq<RadixTree<K, W>>,
    ib: int,
    c: Seq<RadixTree<K, V>>,
    target: spec_fn(Seq<K>) -> Option<V>,
) -> bool {
    &&& 0 <= ia <= ga.len()
    &&& 0 <= ib <= gb.len()
    &&& children_ok(c)
    &&& forall|j: int| 0 <= j < c.len() ==> before(ga, ia, #[trigger] first(c[j])) && before(gb, ib, first(c[j]))
    &&& forall|j: int| 0 <= j < ia ==> before(gb, ib, #[trigger] first(ga[j]))
    &&& forall|j: int| 0 <= j < ib ==> before(ga, ia, #[trigger] first(gb[j]))
    &&& forall|rest: Seq<K>|
        rest.len() > 0 && before(ga, ia, rest[0].key()) && before(gb, ib, rest[0].key()) ==> #[trigger] lookup_in(c, 0, rest)
            == target(rest)
}

/// `target` holds nothing under a key sequence whose first key starts no subtree of `ga` or
/// `gb`.
spec fn target_local<K: SortKey, V, W>(
    ga: Seq<RadixTree<K, V>>,
    gb: Seq<RadixTree<K, W>>,
    target: spec_fn(Seq<K>) -> Option<V>,
) -> bool {
    forall|rest: Seq<K>|
        rest.len() > 0 && (forall|j: int| 0 <= j < ga.len() ==> first(#[trigger] ga[j]) != rest[0].key()) && (forall|j: int|
            0 <= j < gb.len() ==> first(#[trigger] gb[j]) != rest[0].key()) ==> (#[trigger] target(rest)) is None
}

proof fn lemma_gen_start<K: SortKey, V, W>(
    ga: Seq<RadixTree<K, V>>,
    gb: Seq<RadixTree<K, W>>,
    target: spec_fn(Seq<K>) -> Option<V>,
)
    requires
        children_ok(ga),
        children_ok(gb),
        target_local(ga, gb, target),
    ensures
        merged_gen(ga, 0, gb, 0, Seq::empty(), target),
{
    assert forall|rest: Seq<K>|
        rest.len() > 0 && before(ga, 0, rest[0].key()) && before(gb, 0, rest[0].key()) implies #[trigger] lookup_in(
        Seq::<RadixTree<K, V>>::empty(),
        0,
        rest,
    ) == target(rest) by {
        assert forall|j: int| 0 <= j < ga.len() implies first(#[trigger] ga[j]) != rest[0].key() by {
            if j > 0 {
                assert(first(ga[0]) < first(ga[j]));
            }
        }
        assert forall|j: int| 0 <= j < gb.len() implies first(#[trigger] gb[j]) != rest[0].key() by {
            if j > 0 {
                assert(first(gb[0]) < first(gb[j]));
            }
        }
    }
}

proof fn lemma_gen_step<K: SortKey, V, W>(
    ga: Seq<RadixTree<K, V>>,
    ia: int,
    gb: Seq<RadixTree<K, W>>,
    ib: int,
    c: Seq<RadixTree<K, V>>,
    target: spec_fn(Seq<K>) -> Option<V>,
    ta: bool,
    tb: bool,
    x: int,
    push: bool,
    t: RadixTree<K, V>,
)
    requires
        children_ok(ga),
        children_ok(gb),
        target_local(ga, gb, target),
        merged_gen(ga, ia, gb, ib, c, target),
        step_ok(ga, ia, gb, ib, ta, tb, x),
        push ==> t.prefix@.len() > 0 && first(t) == x && t.wf(),
        forall|rest: Seq<K>|
            rest.len() > 0 && rest[0].key() == x ==> (if push {
                t.lookup(rest)
            } else {
                None
            }) == #[trigger] target(rest),
    ensures
        merged_gen(
            ga,
            if ta { ia + 1 } else { ia },
            gb,
            if tb { ib + 1 } else { ib },
            if push { c.push(t) } else { c },
            target,
        ),
{
    let ia2 = if ta { ia + 1 } else { ia };
    let ib2 = if tb { ib + 1 } else { ib };
    let c2 = if push { c.push(t) } else { c };
    assert(forall|j: int| 0 <= j < c.len() ==> #[trigger] first(c[j]) < x);
    assert forall|j: int| 0 <= j < ia2 implies #[trigger] first(ga[j]) <= x by {
        if ta {
            if j < ia {
                assert(first(ga[j]) < first(ga[ia]));
            }
        } else {
            assert(before(gb, ib, first(ga[j])));
        }
    }
    assert forall|j: int| 0 <= j < ib2 implies #[trigger] first(gb[j]) <= x by {
        if tb {
            if j < ib {
                assert(first(gb[j]) < first(gb[ib]));
            }
        } else {
            assert(before(ga, ia, first(gb[j])));
        }
    }
    assert forall|j: int| ia2 <= j < ga.len() implies x < #[trigger] first(ga[j]) by {
        if ta {
            assert(first(ga[ia]) < first(ga[j]));
        } else if ia < j {
            assert(first(ga[ia]) < first(ga[j]));
        }
    }
    assert forall|j: int| ib2 <= j < gb.len() implies x < #[trigger] first(gb[j]) by {
        if tb {
            assert(first(gb[ib]) < first(gb[j]));
        } else if ib < j {
            assert(first(gb[ib]) < first(gb[j]));
        }
    }
    assert(children_ok(c2)) by {
        if push {
            assert forall|i: int, j: int| 0 <= i < j < c2.len() implies first(#[trigger] c2[i]) < first(#[trigger] c2[j]) by {
                if j == c.len() {
                    assert(first(c[i]) < x);
                } else {
                    assert(c2[i] == c[i] && c2[j] == c[j]);
                }
            }
            assert forall|i: int| 0 <= i < c2.len() implies #[trigger] c2[i].prefix@.len() > 0 && c2[i].wf() by {
                if i < c.len() {
                    assert(c2[i] == c[i]);
                }
            }
        }
    }
    assert forall|j: int| 0 <= j < c2.len() implies before(ga, ia2, #[trigger] first(c2[j])) && before(gb, ib2, first(c2[j])) by {
        if j < c.len() {
            assert(c2[j] == c[j]);
        }
    }
    assert forall|rest: Seq<K>|
        rest.len() > 0 && before(ga, ia2, rest[0].key()) && before(gb, ib2, rest[0].key()) implies #[trigger] lookup_in(
        c2,
        0,
        rest,
    ) == target(rest) by {
        let y = rest[0].key();
        lemma_lookup_in(c, 0, rest);
        lemma_lookup_in(c2, 0, rest);
        if y < x {
            if push {
                K::lemma_key_injective(rest[0], t.prefix@[0]);
                assert(c2[c.len() as int] == t);
                if exists|j: int| 0 <= j < c.len() && (#[trigger] c[j]).prefix@[0] == rest[0] {
                    let j = choose|j: int| 0 <= j < c.len() && (#[trigger] c[j]).prefix@[0] == rest[0];
                    assert(c2[j] == c[j]);
                } else {
                    assert forall|j: int| 0 <= j < c2.len() implies (#[trigger] c2[j]).prefix@[0] != rest[0] by {
                        if j < c.len() {
                            assert(c2[j] == c[j]);
                        }
                    }
                }
            }
            assert(before(ga, ia, y) && before(gb, ib, y));
        } else if y == x {
            if push {
                K::lemma_key_injective(rest[0], t.prefix@[0]);
                assert(c2[c.len() as int] == t);
                assert forall|j: int| 0 <= j < c.len() implies (#[trigger] c2[j]).prefix@[0] != rest[0] by {
                    assert(c2[j] == c[j]);
                    assert(first(c[j]) < x);
                }
            } else {
                assert forall|j: int| 0 <= j < c2.len() implies (#[trigger] c2[j]).prefix@[0] != rest[0] by {
                    assert(first(c[j]) < x);
                }
            }
        } else {
            assert forall|j: int| 0 <= j < c2.len() implies (#[trigger] c2[j]).prefix@[0] != rest[0] by {
                if push && j == c.len() {
                    assert(c2[j] == t);
                } else {
                    assert(c2[j] == c[j]);
                    assert(first(c[j]) < x);
                }
            }
            assert forall|j: int| 0 <= j < ga.len() implies first(#[trigger] ga[j]) != y by {}
            assert forall|j: int| 0 <= j < gb.len() implies first(#[trigger] gb[j]) != y by {}
        }
    }
}

/// Within a list of subtrees, only the subtree whose edge starts with `rest[0]` can mark `rest`.
proof fn lemma_marked_in_child<K: SortKey, W, F: Fn(&W) -> bool>(cs: Seq<RadixTree<K, W>>, f: F, rest: Seq<K>, i: int)
    requires
        children_ok(cs),
        rest.len() > 0,
        0 <= i < cs.len(),
        cs[i].prefix@[0] == rest[0],
    ensures
        marked_in(cs, f, rest) == marked(cs[i], f, rest),
{
    assert forall|j: int| 1 <= j <= rest.len() implies #[trigger] marks_in(cs, f, rest.take(j)) == marks(cs[i], f, rest.take(j)) by {
        let p = rest.take(j);
        assert(p[0] == rest[0]);
        lemma_lookup_in(cs, 0, p);
    }
    if marked(cs[i], f, rest) {
        let j = choose|j: int| 0 <= j <= rest.len() && #[trigger] marks(cs[i], f, rest.take(j));
        if j == 0 {
            assert(rest.take(0).len() == 0);
            assert(cs[i].lookup(rest.take(0)) is None);
        }
        assert(marks_in(cs, f, rest.take(j)));
    }
    if marked_in(cs, f, rest) {
        let j = choose|j: int| 1 <= j <= rest.len() && #[trigger] marks_in(cs, f, rest.take(j));
        assert(marks(cs[i], f, rest.take(j)));
    }
}

/// Without a subtree whose edge starts with `rest[0]`, a list of subtrees marks nothing under
/// `rest`.
proof fn lemma_marked_in_none<K: SortKey, W, F: Fn(&W) -> bool>(cs: Seq<RadixTree<K, W>>, f: F, rest: Seq<K>)
    requires
        children_ok(cs),
        rest.len() > 0,
        forall|j: int| 0 <= j < cs.len() ==> (#[trigger] cs[j]).prefix@[0] != rest[0],
    ensures
        !marked_in(cs, f, rest),
{
    assert forall|j: int| 1 <= j <= rest.len() implies !#[trigger] marks_in(cs, f, rest.take(j)) by {
        let p = rest.take(j);
        assert(p[0] == rest[0]);
        lemma_lookup_in(cs, 0, p);
    }
}

/// Under a key sequence that has the edge of `t` as a prefix, `t` marks it through the value
/// of its root or through a subtree.
proof fn lemma_marked_node<K: SortKey, W, F: Fn(&W) -> bool>(t: RadixTree<K, W>, f: F, k: Seq<K>)
    requires
        has_prefix(k, t.prefix@),
    ensures
        marked(t, f, k) == ((t.value matches Some(w) && accepts(f, w)) || marked_in(
            t.children@,
            f,
            k.skip(t.prefix@.len() as int),
        )),
{
    let n = t.prefix@.len() as int;
    let rest = k.skip(n);
    assert(k.take(n) =~= t.prefix@);
    assert(t.prefix@.take(n) =~= t.prefix@);
    assert(t.prefix@.skip(n).len() == 0);
    assert(marks(t, f, k.take(n)) == (t.value matches Some(w) && accepts(f, w)));
    assert forall|j: int| n < j <= k.len() implies #[trigger] marks(t, f, k.take(j)) == marks_in(t.children@, f, rest.take(j - n)) by {
        let p = k.take(j);
        assert(p.take(n) =~= t.prefix@);
        assert(p.skip(n) =~= rest.take(j - n));
    }
    if marked(t, f, k) {
        let j = choose|j: int| 0 <= j <= k.len() && #[trigger] marks(t, f, k.take(j));
        if j < n {
            lemma_lookup_short(t, k.take(j));
        } else if j > n {
            assert(marks_in(t.children@, f, rest.take(j - n)));
        }
    }
    if marked_in(t.children@, f, rest) {
        let j = choose|j: int| 1 <= j <= rest.len() && #[trigger] marks_in(t.children@, f, rest.take(j));
        assert(marks(t, f, k.take(j + n)));
    }
}

/// A tree `s` that holds under `x` what `t` holds under `p + x`, with `p` shorter than the edge
/// of `t`, marks `rest` as a single subtree exactly when `t` marks `p + rest`.
proof fn lemma_marked_shifted<K: SortKey, W, F: Fn(&W) -> bool>(t: RadixTree<K, W>, s: RadixTree<K, W>, f: F, p: Seq<K>, rest: Seq<K>)
    requires
        p.len() < t.prefix@.len(),
        forall|x: Seq<K>| #[trigger] s.lookup(x) == t.lookup(p + x),
    ensures
        marked(t, f, p + rest) == marked_in(seq![s], f, rest),
{
    let k = p + rest;
    let n = p.len() as int;
    assert forall|j: int| n < j <= k.len() implies #[trigger] marks(t, f, k.take(j)) == marks_in(seq![s], f, rest.take(j - n)) by {
        assert(k.take(j) =~= p + rest.take(j - n));
        lemma_lookup_in_one(seq![s], rest.take(j - n));
    }
    if marked(t, f, k) {
        let j = choose|j: int| 0 <= j <= k.len() && #[trigger] marks(t, f, k.take(j));
        if j <= n {
            lemma_lookup_short(t, k.take(j));
        } else {
            assert(marks_in(seq![s], f, rest.take(j - n)));
        }
    }
    if marked_in(seq![s], f, rest) {
        let j = choose|j: int| 1 <= j <= rest.len() && #[trigger] marks_in(seq![s], f, rest.take(j));
        assert(marks(t, f, k.take(j + n)));
    }
}

/// A tree whose edge parts from that of `o` within both marks only key sequences that `o`
/// holds nothing under.
proof fn lemma_marked_disjoint<K: SortKey, V, W, F: Fn(&W) -> bool>(o: RadixTree<K, V>, t: RadixTree<K, W>, f: F, k: Seq<K>, n: int)
    requires
        0 <= n < o.prefix@.len(),
        n < t.prefix@.len(),
        o.prefix@[n] != t.prefix@[n],
        marked(t, f, k),
    ensures
        o.lookup(k) is None,
{
    let j = choose|j: int| 0 <= j <= k.len() && #[trigger] marks(t, f, k.take(j));
    let q = k.take(j);
    assert(has_prefix(q, t.prefix@));
    assert(q.take(t.prefix@.len() as int)[n] == q[n]);
    assert(k[n] == t.prefix@[n]);
    lemma_lookup_diverging(o, k, n);
}

impl<K: SortKey, V: Copy> RadixTree<K, V> {
    /// Merges the subtrees `a` and `b` of two nodes with the same key sequence for a prefix
    /// filter: with `retain`, what `a` holds under a prefix that `b` marks is kept, and
    /// otherwise what it holds under no such prefix.
    #[verifier::loop_isolation(false)]
    #[verifier::spinoff_prover]
    #[verifier::rlimit(60)]
    fn merge_prefix<W: Copy, F: Fn(&W) -> bool + Copy>(a: Vec<Self>, b: &[RadixTree<K, W>], f: F, retain: bool) -> (c: Vec<Self>)
        requires
            children_ok(a@),
            children_ok(b@),
            decides(f),
        ensures
            children_ok(c@),
            forall|rest: Seq<K>| rest.len() > 0 ==> #[trigger] lookup_in(c@, 0, rest) == (if marked_in(b@, f, rest)
                == retain {
                lookup_in(a@, 0, rest)
            } else {
                None
            }),
            all_trimmed(a@) ==> all_trimmed(c@),
        decreases max_height(a@, 0) + max_height(b@, 0) + 1, 0int,
    {
        let ghost ga = a@;
        let ghost gb = b@;
        let ghost target = |rest: Seq<K>| if marked_in(gb, f, rest) == retain {
            lookup_in(ga, 0, rest)
        } else {
            None
        };
        let mut a = a;
        let mut ra: Vec<Self> = Vec::new();
        while a.len() > 0
            invariant
                a@ == ga.take(a@.len() as int),
                ra@.len() == ga.len() - a@.len(),
                forall|j: int| 0 <= j < ra@.len() ==> #[trigger] ra@[j] == ga[ga.len() - 1 - j],
            decreases a@.len(),
        {
            let x = a.pop().unwrap();
            ra.push(x);
            assert(a@ =~= ga.take(a@.len() as int));
        }
        let mut c: Vec<Self> = Vec::new();
        let mut ib: usize = 0;
        proof {
            assert(target_local(ga, gb, target)) by {
                assert forall|rest: Seq<K>|
                    rest.len() > 0 && (forall|j: int| 0 <= j < ga.len() ==> first(#[trigger] ga[j]) != rest[0].key()) && (forall|j: int|
                        0 <= j < gb.len() ==> first(#[trigger] gb[j]) != rest[0].key()) implies (#[trigger] target(rest)) is None by {
                    lemma_lookup_in(ga, 0, rest);
                    assert forall|j: int| 0 <= j < ga.len() implies (#[trigger] ga[j]).prefix@[0] != rest[0] by {
                        assert(first(ga[j]) != rest[0].key());
                    }
                }
            }
            lemma_gen_start(ga, gb, target);
        }
        while ra.len() > 0 || ib < b.len()
            invariant
                children_ok(ga),
                children_ok(gb),
                target_local(ga, gb, target),
                b@ == gb,
                ra@.len() <= ga.len(),
                forall|j: int| 0 <= j < ra@.len() ==> #[trigger] ra@[j] == ga[ga.len() - 1 - j],
                ib <= gb.len(),
                merged_gen(ga, ga.len() - ra@.len(), gb, ib as int, c@, target),
                all_trimmed(ga) ==> all_trimmed(c@),
            decreases ra@.len() + gb.len() - ib,
        {
            let ghost ia = ga.len() - ra@.len();
            let ghost c0 = c@;
            let mut take_a = true;
            let mut take_b = true;
            if ra.len() == 0 {
                take_a = false;
            } else if ib == b.len() {
                take_b = false;
            } else {
                assert(ra@[ra@.len() - 1] == ga[ia]);
                let ka = &ra[ra.len() - 1].prefix[0];
                let kb = &b[ib].prefix[0];
                if ka.key_lt(kb) {
                    take_b = false;
                } else if kb.key_lt(ka) {
                    take_a = false;
                }
            }
            if take_a && !take_b {
                assert(ra@[ra@.len() - 1] == ga[ia]);
                let t = ra.pop().unwrap();
                proof {
                    assert forall|rest: Seq<K>| rest.len() > 0 && rest[0].key() == first(t) implies (if !retain {
                        t.lookup(rest)
                    } else {
                        None
                    }) == #[trigger] target(rest) by {
                        K::lemma_key_injective(rest[0], t.prefix@[0]);
                        lemma_lookup_in(ga, 0, rest);
                        assert forall|j: int| 0 <= j < gb.len() implies (#[trigger] gb[j]).prefix@[0] != rest[0] by {
                            if j >= ib as int {
                                if ib < gb.len() && j > ib {
                                    assert(first(gb[ib as int]) < first(gb[j]));
                                }
                            } else {
                                assert(before(ga, ia, first(gb[j])));
                            }
                        }
                        lemma_marked_in_none(gb, f, rest);
                    }
                    lemma_gen_step(ga, ia, gb, ib as int, c0, target, true, false, first(t), !retain, t);
                }
                if !retain {
                    c.push(t);
                }
            } else if !take_a {
                let ghost tb = gb[ib as int];
                proof {
                    let none: RadixTree<K, V> = vstd::pervasive::arbitrary();
                    assert forall|rest: Seq<K>| rest.len() > 0 && rest[0].key() == first(tb) implies (if false {
                        none.lookup(rest)
                    } else {
                        None
                    }) == #[trigger] target(rest) by {
                        lemma_lookup_in(ga, 0, rest);
                        assert forall|j: int| 0 <= j < ga.len() implies (#[trigger] ga[j]).prefix@[0] != rest[0] by {
                            if j >= ia {
                                if ia < ga.len() && j > ia {
                                    assert(first(ga[ia]) < first(ga[j]));
                                }
                            } else {
                                assert(before(gb, ib as int, first(ga[j])));
                            }
                        }
                    }
                    lemma_gen_step(ga, ia, gb, ib as int, c0, target, false, true, first(tb), false, none);
                }
                ib = ib + 1;
            } else {
                assert(ra@[ra@.len() - 1] == ga[ia]);
                let mut t = ra.pop().unwrap();
                let ghost ta = t;
                let ghost tb = gb[ib as int];
                proof {
                    lemma_max_height(ga, 0, ia);
                    lemma_max_height(gb, 0, ib as int);
                    K::lemma_key_injective(ta.prefix@[0], tb.prefix@[0]);
                    assert(ta.height() + b@[ib as int].height() < max_height(ga, 0) + max_height(gb, 0) + 1);
                }
                t.prefix_combine(&b[ib], f, retain);
                let keep = !t.is_empty();
                proof {
                    assert forall|rest: Seq<K>| rest.len() > 0 && rest[0].key() == first(ta) implies (if keep {
                        t.lookup(rest)
                    } else {
                        None
                    }) == #[trigger] target(rest) by {
                        K::lemma_key_injective(rest[0], ta.prefix@[0]);
                        lemma_lookup_in(ga, 0, rest);
                        lemma_marked_in_child(gb, f, rest, ib as int);
                        if !keep {
                            lemma_bare_lookup(t, rest);
                        }
                    }
                    lemma_gen_step(ga, ia, gb, ib as int, c0, target, true, true, first(ta), keep, t);
                }
                if keep {
                    c.push(t);
                }
                ib = ib + 1;
            }
        }
        proof {
            assert forall|rest: Seq<K>| rest.len() > 0 implies #[trigger] lookup_in(c@, 0, rest) == (if marked_in(gb, f, rest)
                == retain {
                lookup_in(ga, 0, rest)
            } else {
                None
            }) by {
                assert(target(rest) == (if marked_in(gb, f, rest) == retain {
                    lookup_in(ga, 0, rest)
                } else {
                    None
                }));
            }
        }
        c
    }

    /// Filters the entries by the prefixes that `that` marks with `f`: with `retain`, keeps the
    /// entries under a marked prefix, and otherwise removes them.
    fn prefix_combine<W: Copy, F: Fn(&W) -> bool + Copy>(&mut self, that: &RadixTree<K, W>, f: F, retain: bool)
        requires
            old(self).wf(),
            that.wf(),
            decides(f),
        ensures
            final(self).wf(),
            forall|k: Seq<K>| #[trigger] final(self).lookup(k) == (if marked(*that, f, k) == retain {
                old(self).lookup(k)
            } else {
                None
            }),
            old(self).trimmed() ==> final(self).trimmed() || final(self).bare(),
            old(self).prefix@.len() > 0 && that.prefix@.len() > 0 && old(self).prefix@[0] == that.prefix@[0]
                ==> final(self).prefix@.len() > 0 && final(self).prefix@[0] == old(self).prefix@[0],
        decreases old(self).height() + that.height(), 1int,
    {
        let ghost o = *self;
        let n = common_prefix(self.prefix.as_slice(), that.prefix.as_slice());
        let sl = self.prefix.len();
        let tl = that.prefix.len();
        let accepted = match &that.value {
            Some(w) => f(w),
            None => false,
        };
        proof {
            lemma_wf_children(o);
            lemma_wf_children(*that);
            assert(accepted == (that.value matches Some(w) && accepts(f, w)));
        }
        if n == tl && (n == sl || accepted) {
            proof {
                assert(that.prefix@ =~= that.prefix@.take(n as int));
            }
            if accepted {
                if !retain {
                    self.value = None;
                    self.children.clear();
                }
                proof {
                    assert forall|k: Seq<K>| #[trigger] self.lookup(k) == (if marked(*that, f, k) == retain {
                        o.lookup(k)
                    } else {
                        None
                    }) by {
                        if has_prefix(k, o.prefix@) {
                            assert(o.prefix@.take(n as int) == that.prefix@);
                            assert(k.take(n as int) =~= that.prefix@);
                            assert(that.prefix@.take(n as int) =~= that.prefix@);
                            assert(that.prefix@.skip(n as int).len() == 0);
                            assert(marks(*that, f, k.take(n as int)));
                        } else if marked(*that, f, k) {
                            if n < sl {
                                let j = choose|j: int| 0 <= j <= k.len() && #[trigger] marks(*that, f, k.take(j));
                                assert(has_prefix(k.take(j), that.prefix@));
                            }
                        }
                    }
                }
            } else {
                proof {
                    assert(o.prefix@ =~= o.prefix@.take(n as int));
                }
                if retain {
                    self.value = None;
                }
                let mut cs: Vec<Self> = Vec::new();
                std::mem::swap(&mut cs, &mut self.children);
                let merged = Self::merge_prefix(cs, that.children.as_slice(), f, retain);
                self.children = merged;
                proof {
                    assert(self.prefix@ == that.prefix@);
                    assert forall|k: Seq<K>| #[trigger] self.lookup(k) == (if marked(*that, f, k) == retain {
                        o.lookup(k)
                    } else {
                        None
                    }) by {
                        if has_prefix(k, that.prefix@) {
                            lemma_marked_node(*that, f, k);
                            let rest = k.skip(n as int);
                            if rest.len() > 0 {
                                assert(self.lookup(k) == lookup_in(self.children@, 0, rest));
                                assert(o.lookup(k) == lookup_in(o.children@, 0, rest));
                            } else {
                                assert(!marked_in(that.children@, f, rest));
                            }
                        } else if marked(*that, f, k) {
                            let j = choose|j: int| 0 <= j <= k.len() && #[trigger] marks(*that, f, k.take(j));
                            assert(has_prefix(k.take(j), that.prefix@));
                            assert(k.take(j).take(n as int) =~= k.take(n as int));
                        }
                    }
                }
            }
        } else if n == tl {
            self.split(n);
            let ghost s1 = *self;
            proof {
                assert(that.prefix@ =~= that.prefix@.take(n as int));
            }
            let mut cs: Vec<Self> = Vec::new();
            std::mem::swap(&mut cs, &mut self.children);
            proof {
                lemma_wf_children(s1);
                assert(max_height(s1.children@, 1) == 0);
            }
            let merged = Self::merge_prefix(cs, that.children.as_slice(), f, retain);
            self.children = merged;
            proof {
                assert(self.prefix@ == that.prefix@);
                assert forall|k: Seq<K>| #[trigger] self.lookup(k) == (if marked(*that, f, k) == retain {
                    o.lookup(k)
                } else {
                    None
                }) by {
                    assert(s1.lookup(k) == o.lookup(k));
                    if has_prefix(k, that.prefix@) {
                        lemma_marked_node(*that, f, k);
                        let rest = k.skip(n as int);
                        if rest.len() == 0 {
                            lemma_lookup_short(o, k);
                        } else {
                            assert(self.lookup(k) == lookup_in(self.children@, 0, rest));
                            assert(s1.lookup(k) == lookup_in(s1.children@, 0, rest));
                        }
                    } else {
                        if marked(*that, f, k) {
                            let j = choose|j: int| 0 <= j <= k.len() && #[trigger] marks(*that, f, k.take(j));
                            assert(has_prefix(k.take(j), that.prefix@));
                            assert(k.take(j).take(n as int) =~= k.take(n as int));
                        }
                    }
                }
            }
        } else if n == sl {
            if retain {
                self.value = None;
            }
            let t = that.copy_shortened(n);
            let ghost gt = t;
            let mut one: Vec<RadixTree<K, W>> = Vec::new();
            one.push(t);
            let mut cs: Vec<Self> = Vec::new();
            std::mem::swap(&mut cs, &mut self.children);
            proof {
                assert(one@ =~= seq![gt]);
                assert(max_height(one@, 1) == 0);
            }
            let merged = Self::merge_prefix(cs, one.as_slice(), f, retain);
            self.children = merged;
            proof {
                assert(self.prefix@ == o.prefix@);
                assert(cs@ == o.children@);
                let p = o.prefix@;
                assert(p =~= o.prefix@.take(n as int));
                assert(that.prefix@ =~= p + gt.prefix@);
                assert(that.prefix@.take(n as int) =~= p);
                assert forall|x: Seq<K>| #[trigger] gt.lookup(x) == that.lookup(p + x) by {}
                assert forall|k: Seq<K>| #[trigger] self.lookup(k) == (if marked(*that, f, k) == retain {
                    o.lookup(k)
                } else {
                    None
                }) by {
                    if has_prefix(k, p) {
                        let rest = k.skip(n as int);
                        assert(k =~= p + rest);
                        lemma_marked_shifted(*that, gt, f, p, rest);
                        if rest.len() == 0 {
                            assert(!marked_in(one@, f, rest));
                        } else {
                            assert(self.lookup(k) == lookup_in(self.children@, 0, rest));
                            assert(o.lookup(k) == lookup_in(o.children@, 0, rest));
                        }
                    } else {
                        if marked(*that, f, k) {
                            let j = choose|j: int| 0 <= j <= k.len() && #[trigger] marks(*that, f, k.take(j));
                            assert(has_prefix(k.take(j), that.prefix@));
                            assert(k.take(j).take(n as int) =~= k.take(n as int));
                        }
                    }
                }
            }
        } else {
            if retain {
                self.value = None;
                self.children.clear();
            }
            proof {
                assert forall|k: Seq<K>| #[trigger] self.lookup(k) == (if marked(*that, f, k) == retain {
                    o.lookup(k)
                } else {
                    None
                }) by {
                    if marked(*that, f, k) {
                        lemma_marked_disjoint(o, *that, f, k, n as int);
                    }
                }
            }
        }
        self.unsplit();
    }
}

/// The key sequences that have `p` as a prefix.
pub open spec fn with_prefix<K>(p: Seq<K>) -> Set<Seq<K>> {
    Set::new(|k: Seq<K>| has_prefix(k, p))
}

impl<K: SortKey, V: Copy> RadixTree<K, V> {
    /// Removes every entry whose key sequence has a prefix, itself included, under which `that`
    /// holds a value that `f` accepts.
    pub fn remove_prefix_with<W: Copy, F: Fn(&W) -> bool + Copy>(&mut self, that: &RadixTree<K, W>, f: F)
        requires
            old(self).wf(),
            that.wf(),
            decides(f),
        ensures
            final(self).wf(),
            final(self)@ == old(self)@.restrict(Set::new(|k: Seq<K>| !marked(*that, f, k))),
            old(self).trimmed() ==> final(self).trimmed() || final(self).bare(),
    {
        self.prefix_combine(that, f, false);
        proof {
            assert(self@ =~= old(self)@.restrict(Set::new(|k: Seq<K>| !marked(*that, f, k))));
        }
    }

    /// Keeps only the entries whose key sequence has a prefix, itself included, under which
    /// `that` holds a value that `f` accepts.
    pub fn retain_prefix_with<W: Copy, F: Fn(&W) -> bool + Copy>(&mut self, that: &RadixTree<K, W>, f: F)
        requires
            old(self).wf(),
            that.wf(),
            decides(f),
        ensures
            final(self).wf(),
            final(self)@ == old(self)@.restrict(Set::new(|k: Seq<K>| marked(*that, f, k))),
            old(self).trimmed() ==> final(self).trimmed() || final(self).bare(),
    {
        self.prefix_combine(that, f, true);
        proof {
            assert(self@ =~= old(self)@.restrict(Set::new(|k: Seq<K>| marked(*that, f, k))));
        }
    }

    /// The entries of `t` whose key sequence has `q[off..]` as a prefix.
    fn filter0(t: &Self, q: &[K], off: usize) -> (r: Self)
        requires
            t.wf(),
            off <= q@.len(),
        ensures
            r.wf(),
            forall|k: Seq<K>| #[trigger] r.lookup(k) == (if has_prefix(k, q@.skip(off as int)) {
                t.lookup(k)
            } else {
                None
            }),
            t.prefix@.len() > 0 && !r.bare() ==> r.prefix@.len() > 0 && r.prefix@[0] == t.prefix@[0],
        decreases t,
    {
        let ghost qs = q@.skip(off as int);
        let n = common_prefix_at(t.prefix.as_slice(), 0, q, off);
        let ghost tp = t.prefix@;
        proof {
            assert(tp.skip(0) =~= tp);
        }
        if n == q.len() - off {
            let r = t.copy_all();
            proof {
                assert(qs =~= qs.take(n as int));
                assert(qs == tp.take(n as int));
                assert forall|k: Seq<K>| #[trigger] r.lookup(k) == (if has_prefix(k, qs) {
                    t.lookup(k)
                } else {
                    None
                }) by {
                    if t.lookup(k) is Some {
                        assert(has_prefix(k, tp));
                        assert(k.take(n as int) =~= tp.take(n as int));
                    }
                }
            }
            r
        } else if n == t.prefix.len() {
            let c = q[off + n];
            let mut i: usize = 0;
            while i < t.children.len()
                invariant
                    i <= t.children@.len(),
                    forall|j: int| 0 <= j < i ==> (#[trigger] t.children@[j]).prefix@[0] != c,
                    t.wf(),
                ensures
                    i <= t.children@.len(),
                    forall|j: int| 0 <= j < i ==> (#[trigger] t.children@[j]).prefix@[0] != c,
                    i < t.children@.len() ==> t.children@[i as int].prefix@[0] == c,
                decreases t.children@.len() - i,
            {
                if t.children[i].prefix[0].key_eq(&c) {
                    proof {
                        K::lemma_key_injective(t.children@[i as int].prefix@[0], c);
                    }
                    break;
                }
                i = i + 1;
            }
            if i == t.children.len() {
                let r = Self::new();
                proof {
                    assert forall|k: Seq<K>| #[trigger] r.lookup(k) == (if has_prefix(k, qs) {
                        t.lookup(k)
                    } else {
                        None
                    }) by {
                        if has_prefix(k, qs) {
                            assert(k.take(n as int) =~= qs.take(n as int));
                            assert(qs.take(n as int) =~= tp);
                            let rest = k.skip(n as int);
                            assert(rest[0] == c) by {
                                assert(k.take(qs.len() as int)[n as int] == qs[n as int]);
                            }
                            lemma_wf_children(*t);
                            lemma_lookup_in(t.children@, 0, rest);
                        }
                    }
                }
                r
            } else {
                let ghost ch = t.children@[i as int];
                proof {
                    lemma_wf_children(*t);
                    assert(tp == qs.take(n as int));
                    assert(qs =~= tp + q@.skip(off + n));
                    assert(q@.skip(off + n).len() > 0);
                    assert(c == q@.skip(off + n)[0]);
                }
                let sub = Self::filter0(&t.children[i], q, off + n);
                if sub.is_empty() {
                    let r = Self::new();
                    proof {
                        assert forall|k: Seq<K>| #[trigger] r.lookup(k) == (if has_prefix(k, qs) {
                            t.lookup(k)
                        } else {
                            None
                        }) by {
                            if has_prefix(k, qs) {
                                assert(k.take(n as int) =~= qs.take(n as int));
                                assert(qs.take(n as int) =~= tp);
                                let rest = k.skip(n as int);
                                assert(qs =~= tp + q@.skip(off + n));
                                lemma_prefix_concat(k, tp, q@.skip(off + n));
                                assert(rest[0] == c) by {
                                    assert(rest.take(q@.skip(off + n).len() as int)[0] == rest[0]);
                                }
                                lemma_lookup_in(t.children@, 0, rest);
                                lemma_bare_lookup(sub, rest);
                            }
                        }
                    }
                    r
                } else {
                    let prefix = copy_back(t.prefix.as_slice(), 0);
                    let mut children: Vec<Self> = Vec::new();
                    children.push(sub);
                    let mut r = RadixTree { prefix, value: None, children };
                    proof {
                        assert(prefix@ =~= tp);
                        assert(r.children@ =~= seq![sub]);
                        assert(r.wf());
                        assert forall|k: Seq<K>| #[trigger] r.lookup(k) == (if has_prefix(k, qs) {
                            t.lookup(k)
                        } else {
                            None
                        }) by {
                            assert(qs =~= tp + q@.skip(off + n));
                            lemma_prefix_concat(k, tp, q@.skip(off + n));
                            if has_prefix(k, tp) {
                                let rest = k.skip(n as int);
                                if rest.len() > 0 {
                                    lemma_lookup_in_one(r.children@, rest);
                                    if has_prefix(rest, q@.skip(off + n)) {
                                        assert(rest[0] == c) by {
                                            assert(rest.take(q@.skip(off + n).len() as int)[0] == rest[0]);
                                        }
                                        lemma_lookup_in(t.children@, 0, rest);
                                    }
                                }
                            }
                        }
                    }
                    r.unsplit();
                    r
                }
            }
        } else {
            let r = Self::new();
            proof {
                assert forall|k: Seq<K>| #[trigger] r.lookup(k) == (if has_prefix(k, qs) {
                    t.lookup(k)
                } else {
                    None
                }) by {
                    if has_prefix(k, qs) && t.lookup(k) is Some {
                        assert(k.take(qs.len() as int)[n as int] == qs[n as int]);
                        assert(k.take(tp.len() as int)[n as int] == tp[n as int]);
                    }
                }
            }
            r
        }
    }
}

impl<K: SortKey, V: Copy> RadixTree<K, V> {
    /// The entries whose key sequence starts with `prefix`.
    pub fn filter_prefix(&self, prefix: &[K]) -> (r: Self)
        requires
            self.wf(),
        ensures
            r.wf(),
            r@ == self@.restrict(with_prefix(prefix@)),
    {
        let r = Self::filter0(self, prefix, 0);
        proof {
            assert(prefix@.skip(0) =~= prefix@);
            assert(r@ =~= self@.restrict(with_prefix(prefix@)));
        }
        r
    }
}

impl<K: SortKey, V: Copy> RadixTree<K, V> {
    /// Stores `value` under `key`, replacing the value there if there is one.
    pub fn insert(&mut self, key: &[K], value: V)
        requires
            old(self).wf(),
        ensures
            final(self).wf(),
            final(self)@ == old(self)@.insert(key@, value),
    {
        let one: RadixTree<K, ()> = RadixTree::single(key, ());
        self.difference_with(&one);
        self.union_with(&Self::single(key, value));
        proof {
            assert(self@ =~= old(self)@.insert(key@, value));
        }
    }

    /// The entries of `self` whose key sequence has no value in `that`.
    pub fn difference<W: Copy>(&self, that: &RadixTree<K, W>) -> (r: Self)
        requires
            self.wf(),
            that.wf(),
        ensures
            r.wf(),
            r@ == self@.remove_keys(that@.dom()),
    {
        let mut r = self.clone();
        r.difference_with(that);
        r
    }

    /// The entries whose key sequence starts with `prefix`, as [RadixTree::iter] lists them.
    pub fn scan_prefix(&self, prefix: &[K]) -> (r: Vec<(Vec<K>, V)>)
        requires
            self.wf(),
        ensures
            forall|k: Seq<K>, v: V| out_view(r@).contains((k, v)) <==> self@.restrict(with_prefix(prefix@)).contains_pair(k, v),
            keys_ascend(out_view(r@)),
            forall|i: int, j: int| 0 <= i < j < r@.len() ==> (#[trigger] r@[i]).0@ != (#[trigger] r@[j]).0@,
    {
        let t = self.filter_prefix(prefix);
        let r = t.iter();
        proof {
            assert forall|i: int, j: int| 0 <= i < j < r@.len() implies (#[trigger] r@[i]).0@ != (#[trigger] r@[j]).0@ by {
                assert(out_view(r@)[i].0 == r@[i].0@ && out_view(r@)[j].0 == r@[j].0@);
                lemma_seq_before_asymmetric(r@[i].0@, r@[i].0@);
            }
        }
        proof {
            assert forall|k: Seq<K>, v: V| out_view(r@).contains((k, v)) <==> self@.restrict(with_prefix(prefix@)).contains_pair(k, v) by {
                lemma_iter_lists_entries(t, k, v);
            }
        }
        r
    }
}

/// Pushing an entry adds it, unless its key sequence is listed already.
proof fn lemma_entries_map_push<K, V>(s: Seq<(Seq<K>, V)>, e: (Seq<K>, V), k: Seq<K>)
    ensures
        entries_map(s.push(e)).get(k) == if k == e.0 && !entries_map(s).dom().contains(k) {
            Some(e.1)
        } else {
            entries_map(s).get(k)
        },
{
    assert(s.push(e).drop_last() =~= s);
    assert(s.push(e).last() == e);
}

/// The entries after a push are those before, then the pushed one.
proof fn lemma_out_view_push<K, V>(s: Seq<(Vec<K>, V)>, e: (Vec<K>, V))
    ensures
        out_view(s.push(e)) == out_view(s).push((e.0@, e.1)),
{
    assert(out_view(s.push(e)) =~= out_view(s).push((e.0@, e.1)));
}

/// Every entry of the tree is listed by a traversal.
proof fn lemma_listed<K: SortKey, V>(t: RadixTree<K, V>, es: Seq<(Seq<K>, V)>, k: Seq<K>)
    requires
        t.wf(),
        es == entries_of(t, Seq::empty()),
        t@.dom().contains(k),
    ensures
        exists|j: int| 0 <= j < es.len() && (#[trigger] es[j]).0 == k,
{
    lemma_iter_lists_entries(t, k, t@[k]);
    let j = choose|j: int| 0 <= j < es.len() && es[j] == (k, t@[k]);
    assert(es[j].0 == k);
}

/// A listed entry is an entry of the tree.
proof fn lemma_listed_entry<K: SortKey, V>(t: RadixTree<K, V>, es: Seq<(Seq<K>, V)>, j: int)
    requires
        t.wf(),
        es == entries_of(t, Seq::empty()),
        0 <= j < es.len(),
    ensures
        t@.dom().contains(es[j].0),
        t@[es[j].0] == es[j].1,
{
    assert(es.contains(es[j]));
    lemma_iter_lists_entries(t, es[j].0, es[j].1);
}

/// What an outer combine under `f` may hold where `self` holds `a` and `that` holds `b`: an
/// answer of `f` where both hold a value, else the one value there is.
pub open spec fn outer_entry<V, F: Fn(&V, &V) -> Option<V>>(f: F, a: Option<V>, b: Option<V>, r: Option<V>) -> bool {
    match (a, b) {
        (Some(x), Some(y)) => f.ensures((&x, &y), r),
        (Some(x), None) => r == Some(x),
        (None, y) => r == y,
    }
}

/// What an inner combine under `f` may hold: an answer of `f` where both hold a value, else
/// nothing.
pub open spec fn inner_entry<V, W, F: Fn(&V, &W) -> Option<V>>(f: F, a: Option<V>, b: Option<W>, r: Option<V>) -> bool {
    match (a, b) {
        (Some(x), Some(y)) => f.ensures((&x, &y), r),
        _ => r is None,
    }
}

/// What a left combine under `f` may hold: an answer of `f` for the value of `self` and what
/// `that` holds, where `self` holds a value; else nothing.
pub open spec fn left_entry<V, W, F: Fn(&V, Option<&W>) -> Option<V>>(f: F, a: Option<V>, b: Option<W>, r: Option<V>) -> bool {
    match (a, b) {
        (Some(x), Some(y)) => f.ensures((&x, Some(&y)), r),
        (Some(x), None) => f.ensures((&x, None::<&W>), r),
        (None, _) => r is None,
    }
}

impl<K: SortKey, V: Copy> RadixTree<K, V> {
    /// The outer combine of `self` and `that` under `f`: the entries of only one of them, and
    /// where both hold a value under a key sequence, the answer of `f` for the two values (no
    /// entry where it answers `None`).
    pub fn outer_combine<F: Fn(&V, &V) -> Option<V>>(&self, that: &Self, f: F) -> (r: Self)
        requires
            self.wf(),
            that.wf(),
            forall|a: V, b: V| #[trigger] f.requires((&a, &b)),
        ensures
            r.wf(),
            forall|k: Seq<K>| #[trigger] outer_entry(f, self@.get(k), that@.get(k), r@.get(k)),
    {
        let ea = self.iter();
        let ghost sa = out_view(ea@);
        let mut es: Vec<(Vec<K>, V)> = Vec::new();
        let mut i: usize = 0;
        while i < ea.len()
            invariant
                self.wf(),
                that.wf(),
                forall|a: V, b: V| #[trigger] f.requires((&a, &b)),
                sa == out_view(ea@),
                sa == entries_of(*self, Seq::empty()),
                i <= ea@.len(),
                forall|k: Seq<K>| (exists|j: int| 0 <= j < i && (#[trigger] sa[j]).0 == k) ==> #[trigger] outer_entry(
                    f,
                    self@.get(k),
                    that@.get(k),
                    entries_map(out_view(es@)).get(k),
                ),
                forall|k: Seq<K>| !(exists|j: int| 0 <= j < i && (#[trigger] sa[j]).0 == k) ==> #[trigger] entries_map(out_view(es@)).get(k) is None,
            decreases ea@.len() - i,
        {
            let key = copy_back(ea[i].0.as_slice(), 0);
            let x = ea[i].1;
            let ghost k0 = sa[i as int].0;
            proof {
                assert(sa[i as int] == (ea@[i as int].0@, ea@[i as int].1));
                assert(key@ =~= k0);
                lemma_listed_entry(*self, sa, i as int);
            }
            let ghost es0 = es@;
            let ghost m0 = entries_map(out_view(es0));
            let ghost kv = key;
            let pushed: Option<V> = match that.get(key.as_slice()) {
                Some(y) => f(&x, y),
                None => Some(x),
            };
            match pushed {
                Some(v) => {
                    es.push((key, v));
                    proof {
                        lemma_out_view_push(es0, (kv, v));
                    }
                },
                None => {},
            }
            proof {
                assert forall|k: Seq<K>| (exists|j: int| 0 <= j < i + 1 && (#[trigger] sa[j]).0 == k) implies #[trigger] outer_entry(
                    f,
                    self@.get(k),
                    that@.get(k),
                    entries_map(out_view(es@)).get(k),
                ) by {
                    if pushed is Some {
                        lemma_entries_map_push(out_view(es0), (k0, pushed->0), k);
                    }
                    if k != k0 {
                        let j = choose|j: int| 0 <= j < i + 1 && (#[trigger] sa[j]).0 == k;
                        assert(j < i);
                    } else if m0.dom().contains(k) {
                        assert(m0.get(k) is Some);
                    }
                }
                assert forall|k: Seq<K>| !(exists|j: int| 0 <= j < i + 1 && (#[trigger] sa[j]).0 == k) implies #[trigger] entries_map(out_view(es@)).get(k) is None by {
                    if pushed is Some {
                        lemma_entries_map_push(out_view(es0), (k0, pushed->0), k);
                    }
                    assert(sa[i as int].0 == k0);
                    assert(forall|j: int| 0 <= j < i ==> (#[trigger] sa[j]).0 != k);
                }
            }
            i = i + 1;
        }
        proof {
            assert forall|k: Seq<K>| self@.dom().contains(k) implies #[trigger] outer_entry(f, self@.get(k), that@.get(k), entries_map(out_view(es@)).get(k)) by {
                lemma_listed(*self, sa, k);
            }
            assert forall|k: Seq<K>| !self@.dom().contains(k) implies #[trigger] entries_map(out_view(es@)).get(k) is None by {
                if exists|j: int| 0 <= j < ea@.len() && (#[trigger] sa[j]).0 == k {
                    let j = choose|j: int| 0 <= j < ea@.len() && (#[trigger] sa[j]).0 == k;
                    lemma_listed_entry(*self, sa, j);
                }
            }
        }
        let eb = that.iter();
        let ghost sb = out_view(eb@);
        let mut i2: usize = 0;
        while i2 < eb.len()
            invariant
                self.wf(),
                that.wf(),
                sb == out_view(eb@),
                sb == entries_of(*that, Seq::empty()),
                i2 <= eb@.len(),
                forall|k: Seq<K>| self@.dom().contains(k) ==> #[trigger] outer_entry(f, self@.get(k), that@.get(k), entries_map(out_view(es@)).get(k)),
                forall|k: Seq<K>| !self@.dom().contains(k) && (exists|j: int| 0 <= j < i2 && (#[trigger] sb[j]).0 == k) ==> #[trigger] entries_map(out_view(es@)).get(k) == that@.get(k),
                forall|k: Seq<K>| !self@.dom().contains(k) && !(exists|j: int| 0 <= j < i2 && (#[trigger] sb[j]).0 == k) ==> #[trigger] entries_map(out_view(es@)).get(k) is None,
            decreases eb@.len() - i2,
        {
            let ghost k0 = sb[i2 as int].0;
            proof {
                assert(sb[i2 as int] == (eb@[i2 as int].0@, eb@[i2 as int].1));
                lemma_listed_entry(*that, sb, i2 as int);
            }
            if !self.contains_key(eb[i2].0.as_slice()) {
                let key = copy_back(eb[i2].0.as_slice(), 0);
                let y = eb[i2].1;
                let ghost es0 = es@;
                let ghost kv = key;
                proof {
                    assert(key@ =~= k0);
                }
                es.push((key, y));
                proof {
                    lemma_out_view_push(es0, (kv, y));
                    assert forall|k: Seq<K>| #[trigger] entries_map(out_view(es@)).get(k) == if k == k0 && !entries_map(out_view(es0)).dom().contains(k) {
                        Some(y)
                    } else {
                        entries_map(out_view(es0)).get(k)
                    } by {
                        lemma_entries_map_push(out_view(es0), (k0, y), k);
                    }
                }
            }
            proof {
                assert forall|k: Seq<K>| !self@.dom().contains(k) && (exists|j: int| 0 <= j < i2 + 1 && (#[trigger] sb[j]).0 == k) implies #[trigger] entries_map(out_view(es@)).get(k) == that@.get(k) by {
                    if k != k0 {
                        let j = choose|j: int| 0 <= j < i2 + 1 && (#[trigger] sb[j]).0 == k;
                        assert(j < i2);
                    }
                }
                assert forall|k: Seq<K>| !self@.dom().contains(k) && !(exists|j: int| 0 <= j < i2 + 1 && (#[trigger] sb[j]).0 == k) implies #[trigger] entries_map(out_view(es@)).get(k) is None by {
                    assert(sb[i2 as int].0 == k0);
                    assert(forall|j: int| 0 <= j < i2 ==> (#[trigger] sb[j]).0 != k);
                }
            }
            i2 = i2 + 1;
        }
        proof {
            assert forall|k: Seq<K>| #[trigger] outer_entry(f, self@.get(k), that@.get(k), entries_map(out_view(es@)).get(k)) by {
                if !self@.dom().contains(k) {
                    if that@.dom().contains(k) {
                        lemma_listed(*that, sb, k);
                    } else if exists|j: int| 0 <= j < eb@.len() && (#[trigger] sb[j]).0 == k {
                        let j = choose|j: int| 0 <= j < eb@.len() && (#[trigger] sb[j]).0 == k;
                        lemma_listed_entry(*that, sb, j);
                    }
                }
            }
        }
        let r = Self::from_entries(es.as_slice());
        r
    }

    /// The inner combine of `self` and `that` under `f`: where both hold a value under a key
    /// sequence, the answer of `f` for the two values (no entry where it answers `None`);
    /// nothing else.
    pub fn inner_combine<W: Copy, F: Fn(&V, &W) -> Option<V>>(&self, that: &RadixTree<K, W>, f: F) -> (r: Self)
        requires
            self.wf(),
            that.wf(),
            forall|a: V, b: W| #[trigger] f.requires((&a, &b)),
        ensures
            r.wf(),
            forall|k: Seq<K>| #[trigger] inner_entry(f, self@.get(k), that@.get(k), r@.get(k)),
    {
        let ea = self.iter();
        let ghost sa = out_view(ea@);
        let mut es: Vec<(Vec<K>, V)> = Vec::new();
        let mut i: usize = 0;
        while i < ea.len()
            invariant
                self.wf(),
                that.wf(),
                forall|a: V, b: W| #[trigger] f.requires((&a, &b)),
                sa == out_view(ea@),
                sa == entries_of(*self, Seq::empty()),
                i <= ea@.len(),
                forall|k: Seq<K>| (exists|j: int| 0 <= j < i && (#[trigger] sa[j]).0 == k) ==> #[trigger] inner_entry(
                    f,
                    self@.get(k),
                    that@.get(k),
                    entries_map(out_view(es@)).get(k),
                ),
                forall|k: Seq<K>| !(exists|j: int| 0 <= j < i && (#[trigger] sa[j]).0 == k) ==> #[trigger] entries_map(out_view(es@)).get(k) is None,
            decreases ea@.len() - i,
        {
            let key = copy_back(ea[i].0.as_slice(), 0);
            let x = ea[i].1;
            let ghost k0 = sa[i as int].0;
            proof {
                assert(sa[i as int] == (ea@[i as int].0@, ea@[i as int].1));
                assert(key@ =~= k0);
                lemma_listed_entry(*self, sa, i as int);
            }
            let ghost es0 = es@;
            let ghost m0 = entries_map(out_view(es0));
            let ghost kv = key;
            let pushed: Option<V> = match that.get(key.as_slice()) {
                Some(y) => f(&x, y),
                None => None,
            };
            match pushed {
                Some(v) => {
                    es.push((key, v));
                    proof {
                        lemma_out_view_push(es0, (kv, v));
                    }
                },
                None => {},
            }
            proof {
                assert forall|k: Seq<K>| (exists|j: int| 0 <= j < i + 1 && (#[trigger] sa[j]).0 == k) implies #[trigger] inner_entry(
                    f,
                    self@.get(k),
                    that@.get(k),
                    entries_map(out_view(es@)).get(k),
                ) by {
                    if pushed is Some {
                        lemma_entries_map_push(out_view(es0), (k0, pushed->0), k);
                    }
                    if k != k0 {
                        let j = choose|j: int| 0 <= j < i + 1 && (#[trigger] sa[j]).0 == k;
                        assert(j < i);
                    } else if m0.dom().contains(k) {
                        assert(m0.get(k) is Some);
                    }
                }
                assert forall|k: Seq<K>| !(exists|j: int| 0 <= j < i + 1 && (#[trigger] sa[j]).0 == k) implies #[trigger] entries_map(out_view(es@)).get(k) is None by {
                    if pushed is Some {
                        lemma_entries_map_push(out_view(es0), (k0, pushed->0), k);
                    }
                    assert(sa[i as int].0 == k0);
                    assert(forall|j: int| 0 <= j < i ==> (#[trigger] sa[j]).0 != k);
                }
            }
            i = i + 1;
        }
        proof {
            assert forall|k: Seq<K>| #[trigger] inner_entry(f, self@.get(k), that@.get(k), entries_map(out_view(es@)).get(k)) by {
                if self@.dom().contains(k) {
                    lemma_listed(*self, sa, k);
                } else {
                    if exists|j: int| 0 <= j < ea@.len() && (#[trigger] sa[j]).0 == k {
                        let j = choose|j: int| 0 <= j < ea@.len() && (#[trigger] sa[j]).0 == k;
                        lemma_listed_entry(*self, sa, j);
                    }
                }
            }
        }
        let r = Self::from_entries(es.as_slice());
        r
    }

    /// The left combine of `self` and `that` under `f`: for every entry of `self`, the answer
    /// of `f` for its value and the value of `that` under the same key sequence, if any (no
    /// entry where it answers `None`); nothing of `that` alone.
    pub fn left_combine<W: Copy, F: Fn(&V, Option<&W>) -> Option<V>>(&self, that: &RadixTree<K, W>, f: F) -> (r: Self)
        requires
            self.wf(),
            that.wf(),
            forall|a: V, b: Option<&W>| #[trigger] f.requires((&a, b)),
        ensures
            r.wf(),
            forall|k: Seq<K>| #[trigger] left_entry(f, self@.get(k), that@.get(k), r@.get(k)),
    {
        let ea = self.iter();
        let ghost sa = out_view(ea@);
        let mut es: Vec<(Vec<K>, V)> = Vec::new();
        let mut i: usize = 0;
        while i < ea.len()
            invariant
                self.wf(),
                that.wf(),
                forall|a: V, b: Option<&W>| #[trigger] f.requires((&a, b)),
                sa == out_view(ea@),
                sa == entries_of(*self, Seq::empty()),
                i <= ea@.len(),
                forall|k: Seq<K>| (exists|j: int| 0 <= j < i && (#[trigger] sa[j]).0 == k) ==> #[trigger] left_entry(
                    f,
                    self@.get(k),
                    that@.get(k),
                    entries_map(out_view(es@)).get(k),
                ),
                forall|k: Seq<K>| !(exists|j: int| 0 <= j < i && (#[trigger] sa[j]).0 == k) ==> #[trigger] entries_map(out_view(es@)).get(k) is None,
            decreases ea@.len() - i,
        {
            let key = copy_back(ea[i].0.as_slice(), 0);
            let x = ea[i].1;
            let ghost k0 = sa[i as int].0;
            proof {
                assert(sa[i as int] == (ea@[i as int].0@, ea@[i as int].1));
                assert(key@ =~= k0);
                lemma_listed_entry(*self, sa, i as int);
            }
            let ghost es0 = es@;
            let ghost m0 = entries_map(out_view(es0));
            let ghost kv = key;
            let pushed: Option<V> = f(&x, that.get(key.as_slice()));
            match pushed {
                Some(v) => {
                    es.push((key, v));
                    proof {
                        lemma_out_view_push(es0, (kv, v));
                    }
                },
                None => {},
            }
            proof {
                assert forall|k: Seq<K>| (exists|j: int| 0 <= j < i + 1 && (#[trigger] sa[j]).0 == k) implies #[trigger] left_entry(
                    f,
                    self@.get(k),
                    that@.get(k),
                    entries_map(out_view(es@)).get(k),
                ) by {
                    if pushed is Some {
                        lemma_entries_map_push(out_view(es0), (k0, pushed->0), k);
                    }
                    if k != k0 {
                        let j = choose|j: int| 0 <= j < i + 1 && (#[trigger] sa[j]).0 == k;
                        assert(j < i);
                    } else if m0.dom().contains(k) {
                        assert(m0.get(k) is Some);
                    }
                }
                assert forall|k: Seq<K>| !(exists|j: int| 0 <= j < i + 1 && (#[trigger] sa[j]).0 == k) implies #[trigger] entries_map(out_view(es@)).get(k) is None by {
                    if pushed is Some {
                        lemma_entries_map_push(out_view(es0), (k0, pushed->0), k);
                    }
                    assert(sa[i as int].0 == k0);
                    assert(forall|j: int| 0 <= j < i ==> (#[trigger] sa[j]).0 != k);
                }
            }
            i = i + 1;
        }
        proof {
            assert forall|k: Seq<K>| #[trigger] left_entry(f, self@.get(k), that@.get(k), entries_map(out_view(es@)).get(k)) by {
                if self@.dom().contains(k) {
                    lemma_listed(*self, sa, k);
                } else {
                    if exists|j: int| 0 <= j < ea@.len() && (#[trigger] sa[j]).0 == k {
                        let j = choose|j: int| 0 <= j < ea@.len() && (#[trigger] sa[j]).0 == k;
                        lemma_listed_entry(*self, sa, j);
                    }
                }
            }
        }
        let r = Self::from_entries(es.as_slice());
        r
    }
}

} // verus!

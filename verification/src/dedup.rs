//! Sorting and deduplicating entries by key, keeping the first or the last entry of each key.
//!
//! The entries are pairs of a key and a value. Sorting is stable, so that among the entries of
//! one key the first and the last one stay what they were in the input.
use vstd::prelude::*;
use crate::key::SortKey;

verus! {

/// Which entry to keep when several have the same key.
#[derive(Debug, PartialEq, Eq, Clone, Copy, Structural)]
pub enum Keep {
    /// keep the first one
    First,
    /// keep the last one
    Last,
}

/// The keys of the entries do not go down.
pub open spec fn keys_nondecreasing<K: SortKey, V>(s: Seq<(K, V)>) -> bool {
    forall|i: int, j: int| 0 <= i <= j < s.len() ==> #[trigger] s[i].0.key() <= #[trigger] s[j].0.key()
}

/// The keys of the entries go up.
pub open spec fn keys_ascending<K: SortKey, V>(s: Seq<(K, V)>) -> bool {
    forall|i: int, j: int| 0 <= i < j < s.len() ==> #[trigger] s[i].0.key() < #[trigger] s[j].0.key()
}

/// Each key with the value of its last entry.
pub open spec fn last_map<K, V>(s: Seq<(K, V)>) -> Map<K, V>
    decreases s.len(),
{
    if s.len() == 0 {
        Map::empty()
    } else {
        last_map(s.drop_last()).insert(s.last().0, s.last().1)
    }
}

/// Each key with the value of its first entry.
pub open spec fn first_map<K, V>(s: Seq<(K, V)>) -> Map<K, V>
    decreases s.len(),
{
    if s.len() == 0 {
        Map::empty()
    } else {
        let m = first_map(s.drop_last());
        if m.dom().contains(s.last().0) {
            m
        } else {
            m.insert(s.last().0, s.last().1)
        }
    }
}

/// Each key with the value of the entry that `keep` keeps.
pub open spec fn kept_map<K, V>(s: Seq<(K, V)>, keep: Keep) -> Map<K, V> {
    match keep {
        Keep::First => first_map(s),
        Keep::Last => last_map(s),
    }
}

/// The keys of the entries.
pub open spec fn key_dom<K, V>(s: Seq<(K, V)>) -> Set<K> {
    Set::new(|k: K| exists|i: int| 0 <= i < s.len() && #[trigger] s[i].0 == k)
}

/// Both maps have the keys of the entries.
pub proof fn lemma_map_doms<K, V>(s: Seq<(K, V)>)
    ensures
        first_map(s).dom() == key_dom(s),
        last_map(s).dom() == key_dom(s),
    decreases s.len(),
{
    if s.len() > 0 {
        let t = s.drop_last();
        lemma_map_doms(t);
        assert forall|k: K| #[trigger] key_dom(s).contains(k) == (key_dom(t).contains(k) || k == s.last().0) by {
            if key_dom(t).contains(k) {
                let i = choose|i: int| 0 <= i < t.len() && #[trigger] t[i].0 == k;
                assert(s[i].0 == k);
            }
            if key_dom(s).contains(k) {
                let i = choose|i: int| 0 <= i < s.len() && #[trigger] s[i].0 == k;
                if i < s.len() - 1 {
                    assert(t[i].0 == k);
                }
            }
            if k == s.last().0 {
                assert(s[s.len() - 1].0 == k);
            }
        }
        assert(first_map(s).dom() =~= key_dom(s));
        assert(last_map(s).dom() =~= key_dom(s));
    }
}

/// With ascending keys every key has one entry, so both maps agree.
pub proof fn lemma_maps_agree<K: SortKey, V>(s: Seq<(K, V)>)
    requires
        keys_ascending(s),
    ensures
        first_map(s) == last_map(s),
    decreases s.len(),
{
    if s.len() > 0 {
        let t = s.drop_last();
        assert(keys_ascending(t)) by {
            assert forall|i: int, j: int| 0 <= i < j < t.len() implies #[trigger] t[i].0.key() < #[trigger] t[j].0.key() by {
                assert(t[i] == s[i] && t[j] == s[j]);
            }
        }
        lemma_maps_agree(t);
        lemma_map_doms(t);
        if key_dom(t).contains(s.last().0) {
            let i = choose|i: int| 0 <= i < t.len() && #[trigger] t[i].0 == s.last().0;
            assert(s[i].0.key() < s[s.len() - 1].0.key());
        }
    }
}

/// The maps of a concatenation: the first entries of `a` come before those of `b`, and the last
/// entries of `b` after those of `a`.
pub proof fn lemma_maps_concat<K, V>(a: Seq<(K, V)>, b: Seq<(K, V)>)
    ensures
        first_map(a + b) == first_map(b).union_prefer_right(first_map(a)),
        last_map(a + b) == last_map(a).union_prefer_right(last_map(b)),
    decreases b.len(),
{
    if b.len() == 0 {
        assert(a + b =~= a);
        assert(first_map(a + b) =~= first_map(b).union_prefer_right(first_map(a)));
        assert(last_map(a + b) =~= last_map(a).union_prefer_right(last_map(b)));
    } else {
        let bt = b.drop_last();
        lemma_maps_concat(a, bt);
        assert((a + b).drop_last() =~= a + bt);
        assert((a + b).last() == b.last());
        lemma_map_doms(a + bt);
        lemma_map_doms(a);
        lemma_map_doms(bt);
        assert(first_map(a + b) =~= first_map(b).union_prefer_right(first_map(a)));
        assert(last_map(a + b) =~= last_map(a).union_prefer_right(last_map(b)));
    }
}

/// Appending the same entry to two sequences that keep the same entries keeps them the same.
proof fn lemma_kept_push<K, V>(s: Seq<(K, V)>, t: Seq<(K, V)>, e: (K, V), keep: Keep)
    requires
        kept_map(s, keep) == kept_map(t, keep),
    ensures
        kept_map(s.push(e), keep) == kept_map(t.push(e), keep),
{
    assert(s.push(e).drop_last() =~= s);
    assert(t.push(e).drop_last() =~= t);
}

/// The subrange `s[lo..hi]` is the subrange `s[lo..mid]` followed by `s[mid..hi]`.
proof fn lemma_split_range<T>(s: Seq<T>, lo: int, mid: int, hi: int)
    requires
        0 <= lo <= mid <= hi <= s.len(),
    ensures
        s.subrange(lo, hi) == s.subrange(lo, mid) + s.subrange(mid, hi),
{
    assert(s.subrange(lo, hi) =~= s.subrange(lo, mid) + s.subrange(mid, hi));
}

/// Merges two runs with nondecreasing keys; among entries with the same key, those of `a` come
/// first.
fn merge_runs<K: SortKey, V: Copy>(a: &[(K, V)], b: &[(K, V)]) -> (r: Vec<(K, V)>)
    requires
        keys_nondecreasing(a@),
        keys_nondecreasing(b@),
    ensures
        keys_nondecreasing(r@),
        first_map(r@) == first_map(b@).union_prefer_right(first_map(a@)),
        last_map(r@) == last_map(a@).union_prefer_right(last_map(b@)),
{
    let mut r: Vec<(K, V)> = Vec::new();
    let mut i: usize = 0;
    let mut j: usize = 0;
    while i < a.len() || j < b.len()
        invariant
            i <= a@.len(),
            j <= b@.len(),
            keys_nondecreasing(a@),
            keys_nondecreasing(b@),
            keys_nondecreasing(r@),
            r@.len() > 0 && i < a@.len() ==> r@.last().0.key() <= a@[i as int].0.key(),
            r@.len() > 0 && j < b@.len() ==> r@.last().0.key() <= b@[j as int].0.key(),
            i < a@.len() ==> forall|t: int| 0 <= t < j ==> #[trigger] b@[t].0.key() < a@[i as int].0.key(),
            first_map(r@) == first_map(b@.take(j as int)).union_prefer_right(first_map(a@.take(i as int))),
            last_map(r@) == last_map(a@.take(i as int)).union_prefer_right(last_map(b@.take(j as int))),
        decreases a@.len() + b@.len() - i - j,
    {
        let ghost r0 = r@;
        let ghost ai = a@.take(i as int);
        let ghost bj = b@.take(j as int);
        proof {
            lemma_map_doms(r0);
            lemma_map_doms(ai);
            lemma_map_doms(bj);
        }
        if j >= b.len() || (i < a.len() && !b[j].0.key_lt(&a[i].0)) {
            let x = a[i];
            r.push(x);
            proof {
                assert(a@.take(i + 1).drop_last() =~= ai);
                assert(r@.drop_last() =~= r0);
                if j < b@.len() {
                    assert(key_dom(bj).contains(x.0) ==> false) by {
                        if key_dom(bj).contains(x.0) {
                            let t = choose|t: int| 0 <= t < bj.len() && #[trigger] bj[t].0 == x.0;
                            assert(b@[t].0.key() < a@[i as int].0.key());
                        }
                    }
                } else {
                    assert(bj =~= b@);
                    assert(key_dom(bj).contains(x.0) ==> false) by {
                        if key_dom(bj).contains(x.0) {
                            let t = choose|t: int| 0 <= t < bj.len() && #[trigger] bj[t].0 == x.0;
                            assert(b@[t].0.key() < a@[i as int].0.key());
                        }
                    }
                }
                assert(first_map(r@) =~= first_map(bj).union_prefer_right(first_map(a@.take(i + 1))));
                assert(last_map(r@) =~= last_map(a@.take(i + 1)).union_prefer_right(last_map(bj)));
                assert forall|t: int, u: int| 0 <= t <= u < r@.len() implies #[trigger] r@[t].0.key() <= #[trigger] r@[u].0.key() by {
                    if u == r@.len() - 1 && t < u {
                        assert(r@[t] == r0[t]);
                        assert(r0[t].0.key() <= r0.last().0.key());
                    }
                }
                if i + 1 < a@.len() {
                    assert(a@[i as int].0.key() <= a@[i + 1].0.key());
                }
            }
            i = i + 1;
        } else {
            let y = b[j];
            r.push(y);
            proof {
                assert(b@.take(j + 1).drop_last() =~= bj);
                assert(r@.drop_last() =~= r0);
                assert(first_map(r@) =~= first_map(b@.take(j + 1)).union_prefer_right(first_map(ai)));
                assert(last_map(r@) =~= last_map(ai).union_prefer_right(last_map(b@.take(j + 1))));
                assert forall|t: int, u: int| 0 <= t <= u < r@.len() implies #[trigger] r@[t].0.key() <= #[trigger] r@[u].0.key() by {
                    if u == r@.len() - 1 && t < u {
                        assert(r@[t] == r0[t]);
                        assert(r0[t].0.key() <= r0.last().0.key());
                    }
                }
                if j + 1 < b@.len() {
                    assert(b@[j as int].0.key() <= b@[j + 1].0.key());
                }
            }
            j = j + 1;
        }
    }
    proof {
        assert(a@.take(i as int) =~= a@);
        assert(b@.take(j as int) =~= b@);
    }
    r
}

/// The entries `v[lo..hi]` sorted by key; entries with the same key keep their order.
pub fn sort_pairs<K: SortKey, V: Copy>(v: &[(K, V)], lo: usize, hi: usize) -> (r: Vec<(K, V)>)
    requires
        lo <= hi <= v@.len(),
    ensures
        keys_nondecreasing(r@),
        first_map(r@) == first_map(v@.subrange(lo as int, hi as int)),
        last_map(r@) == last_map(v@.subrange(lo as int, hi as int)),
    decreases hi - lo,
{
    if hi - lo <= 1 {
        let mut r: Vec<(K, V)> = Vec::new();
        if hi > lo {
            r.push(v[lo]);
        }
        assert(r@ =~= v@.subrange(lo as int, hi as int));
        r
    } else {
        let mid = lo + (hi - lo) / 2;
        let left = sort_pairs(v, lo, mid);
        let right = sort_pairs(v, mid, hi);
        let r = merge_runs(left.as_slice(), right.as_slice());
        proof {
            lemma_split_range(v@, lo as int, mid as int, hi as int);
            lemma_maps_concat(v@.subrange(lo as int, mid as int), v@.subrange(mid as int, hi as int));
        }
        r
    }
}

/// Deduplicates entries with nondecreasing keys, keeping the first or the last entry of each
/// key.
fn dedup_by<K: SortKey, V: Copy>(d: &[(K, V)], keep: Keep) -> (r: Vec<(K, V)>)
    requires
        keys_nondecreasing(d@),
    ensures
        keys_ascending(r@),
        last_map(r@) == kept_map(d@, keep),
{
    let mut r: Vec<(K, V)> = Vec::new();
    let mut i: usize = 0;
    while i < d.len()
        invariant
            i <= d@.len(),
            keys_nondecreasing(d@),
            keys_ascending(r@),
            i > 0 ==> r@.len() > 0 && r@.last().0 == d@[i - 1].0,
            i == 0 ==> r@.len() == 0,
            last_map(r@) == kept_map(d@.take(i as int), keep),
        decreases d@.len() - i,
    {
        let x = d[i];
        let ghost r0 = r@;
        let ghost di = d@.take(i as int);
        proof {
            assert(d@.take(i + 1).drop_last() =~= di);
            assert(d@.take(i + 1).last() == x);
            lemma_map_doms(di);
            lemma_map_doms(r0);
        }
        if r.len() > 0 && r[r.len() - 1].0.key_eq(&x.0) {
            proof {
                K::lemma_key_injective(r0.last().0, x.0);
                assert(key_dom(di).contains(x.0)) by {
                    assert(di[i - 1].0 == x.0);
                }
            }
            if keep == Keep::Last {
                let n = r.len();
                r.set(n - 1, x);
                proof {
                    assert(r@.drop_last() =~= r0.drop_last());
                    assert(last_map(r@) =~= last_map(r0).insert(x.0, x.1));
                }
            }
        } else {
            r.push(x);
            proof {
                assert(r@.drop_last() =~= r0);
                assert(!key_dom(di).contains(x.0)) by {
                    if key_dom(di).contains(x.0) {
                        let t = choose|t: int| 0 <= t < di.len() && #[trigger] di[t].0 == x.0;
                        assert(d@[t].0.key() <= d@[i - 1].0.key());
                        if i > 0 {
                            K::lemma_key_injective(d@[i - 1].0, x.0);
                        }
                    }
                }
                assert forall|t: int, u: int| 0 <= t < u < r@.len() implies #[trigger] r@[t].0.key() < #[trigger] r@[u].0.key() by {
                    if u == r@.len() - 1 {
                        assert(r@[t] == r0[t]);
                        if t < r0.len() - 1 {
                            assert(r0[t].0.key() < r0.last().0.key());
                        }
                        assert(d@[i - 1].0.key() <= d@[i as int].0.key());
                    }
                }
            }
        }
        i = i + 1;
    }
    proof {
        assert(d@.take(i as int) =~= d@);
    }
    r
}

/// Sorts the entries by key and keeps one entry of each key, as `keep` says.
pub fn sort_and_dedup<K: SortKey, V: Copy>(v: &[(K, V)], keep: Keep) -> (r: Vec<(K, V)>)
    ensures
        keys_ascending(r@),
        last_map(r@) == kept_map(v@, keep),
{
    let s = sort_pairs(v, 0, v.len());
    proof {
        assert(v@.subrange(0, v@.len() as int) =~= v@);
    }
    dedup_by(s.as_slice(), keep)
}


/// A collection that a sorted and deduplicated result can be collected into.
pub trait Sequence<T>: Sized {
    /// The elements, in order.
    spec fn items(&self) -> Seq<T>;

    /// An empty collection with room for `capacity` elements.
    fn with_capacity(capacity: usize) -> (r: Self)
        ensures
            r.items() == Seq::<T>::empty(),
    ;

    /// Appends `value`.
    fn push(&mut self, value: T)
        ensures
            final(self).items() == old(self).items().push(value),
    ;

    /// Keeps the first `len` elements.
    fn truncate(&mut self, len: usize)
        ensures
            final(self).items() == if len < old(self).items().len() {
                old(self).items().take(len as int)
            } else {
                old(self).items()
            },
    ;
}

impl<T> Sequence<T> for Vec<T> {
    open spec fn items(&self) -> Seq<T> {
        self@
    }

    fn with_capacity(capacity: usize) -> (r: Self) {
        Vec::with_capacity(capacity)
    }

    fn push(&mut self, value: T) {
        Vec::push(self, value)
    }

    fn truncate(&mut self, len: usize) {
        Vec::truncate(self, len);
        proof {
            if len < old(self)@.len() {
                assert(self@ =~= old(self)@.take(len as int));
            }
        }
    }
}

/// Sorts and deduplicates entries as they come: a sorted and deduplicated prefix of the data
/// grows while the entries come in order, and the whole is sorted again when the unsorted
/// part has grown larger than the sorted one.
struct SortAndDedup<K: SortKey, V: Copy> {
    /// the entries so far; those before `sorted` have ascending keys
    data: Vec<(K, V)>,
    /// the length of the sorted prefix
    sorted: usize,
    /// which entry of a key to keep
    keep: Keep,
}

impl<K: SortKey, V: Copy> SortAndDedup<K, V> {
    /// The aggregator holds the entries of `input`: its sorted prefix has ascending keys, and
    /// the entry that `keep` keeps for each key is the one of `input`.
    spec fn holds(&self, input: Seq<(K, V)>) -> bool {
        &&& self.ok()
        &&& kept_map(self.data@, self.keep) == kept_map(input, self.keep)
    }

    /// The sorted prefix lies within the data and has ascending keys.
    spec fn ok(&self) -> bool {
        &&& self.sorted <= self.data@.len()
        &&& keys_ascending(self.data@.take(self.sorted as int))
    }

    /// Sorts and deduplicates all data.
    fn sort_and_dedup(&mut self)
        requires
            old(self).ok(),
        ensures
            final(self).keep == old(self).keep,
            final(self).sorted == final(self).data@.len(),
            keys_ascending(final(self).data@),
            last_map(final(self).data@) == kept_map(old(self).data@, old(self).keep),
            kept_map(final(self).data@, final(self).keep) == kept_map(old(self).data@, old(self).keep),
    {
        if self.sorted < self.data.len() {
            let d = sort_and_dedup(self.data.as_slice(), self.keep);
            self.data = d;
            self.sorted = self.data.len();
            proof {
                lemma_maps_agree(self.data@);
            }
        } else {
            proof {
                assert(self.data@.take(self.sorted as int) =~= self.data@);
                lemma_maps_agree(self.data@);
            }
        }
    }

    /// The sorted and deduplicated entries.
    fn into_inner(self) -> (r: Vec<(K, V)>)
        requires
            self.ok(),
        ensures
            keys_ascending(r@),
            last_map(r@) == kept_map(self.data@, self.keep),
    {
        let mut res = self;
        res.sort_and_dedup();
        res.data
    }

    /// Adds an entry.
    fn push(&mut self, elem: (K, V))
        requires
            old(self).ok(),
        ensures
            final(self).keep == old(self).keep,
            final(self).holds(old(self).data@.push(elem)),
    {
        let ghost d0 = self.data@;
        let ghost keep = self.keep;
        proof {
            assert(d0.push(elem).drop_last() =~= d0);
            lemma_map_doms(d0);
        }
        if self.sorted == self.data.len() {
            let n = self.data.len();
            if n > 0 {
                let last = self.data[n - 1];
                if last.0.key_lt(&elem.0) {
                    self.data.push(elem);
                    self.sorted = self.data.len();
                    proof {
                        assert(self.data@ =~= d0.push(elem));
                        assert(d0.take(n as int) =~= d0);
                        assert(self.data@.take(self.sorted as int) =~= d0.push(elem));
                        assert forall|i: int, j: int| 0 <= i < j < self.data@.len() implies #[trigger] self.data@[i].0.key()
                            < #[trigger] self.data@[j].0.key() by {
                            if j == n {
                                if i < n - 1 {
                                    assert(d0.take(n as int)[i].0.key() < d0.take(n as int)[n - 1].0.key());
                                }
                            } else {
                                assert(d0.take(n as int)[i].0.key() < d0.take(n as int)[j].0.key());
                            }
                        }
                    }
                } else if elem.0.key_lt(&last.0) {
                    self.data.push(elem);
                    proof {
                        assert(self.data@.take(self.sorted as int) =~= d0.take(self.sorted as int));
                    }
                } else {
                    proof {
                        K::lemma_key_injective(last.0, elem.0);
                        assert(key_dom(d0).contains(elem.0)) by {
                            assert(d0[n - 1].0 == elem.0);
                        }
                    }
                    if self.keep == Keep::Last {
                        self.data.set(n - 1, elem);
                        proof {
                            assert(self.data@.drop_last() =~= d0.drop_last());
                            assert(last_map(self.data@) =~= last_map(d0).insert(elem.0, elem.1));
                            assert(self.data@.take(self.sorted as int) =~= self.data@);
                            assert(d0.take(self.sorted as int) =~= d0);
                            assert forall|i: int, j: int| 0 <= i < j < self.data@.len() implies #[trigger] self.data@[i].0.key()
                                < #[trigger] self.data@[j].0.key() by {
                                assert(d0[i].0.key() < d0[j].0.key());
                            }
                        }
                    }
                }
            } else {
                self.data.push(elem);
                self.sorted = self.data.len();
                proof {
                    assert(self.data@.take(1) =~= seq![elem]);
                }
            }
        } else {
            self.data.push(elem);
            proof {
                assert(self.data@.take(self.sorted as int) =~= d0.take(self.sorted as int));
            }
        }
        proof {
            assert(self.holds(d0.push(elem)));
        }
        if self.data.len() >= 16 {
            let sorted = self.sorted;
            let unsorted = self.data.len() - sorted;
            if unsorted > sorted {
                self.sort_and_dedup();
                proof {
                    assert(self.data@.take(self.sorted as int) =~= self.data@);
                }
            }
        }
    }
}

/// The entries sorted by key, with one entry of each key: the first or the last one, as
/// `keep` says.
pub fn sort_dedup_by<K: SortKey, V: Copy, R: Sequence<(K, V)>>(iter: Vec<(K, V)>, keep: Keep) -> (r: R)
    ensures
        keys_ascending(r.items()),
        last_map(r.items()) == kept_map(iter@, keep),
{
    let cap = if iter.len() < 16 { iter.len() } else { 16 };
    let mut agg: SortAndDedup<K, V> = SortAndDedup { data: Vec::with_capacity(cap), sorted: 0, keep };
    let mut i: usize = 0;
    proof {
        assert(agg.data@ =~= iter@.take(0));
    }
    while i < iter.len()
        invariant
            i <= iter@.len(),
            agg.keep == keep,
            agg.holds(iter@.take(i as int)),
        decreases iter@.len() - i,
    {
        let x = iter[i];
        let ghost before = agg;
        agg.push(x);
        proof {
            assert(iter@.take(i + 1) =~= iter@.take(i as int).push(x));
            lemma_kept_push(before.data@, iter@.take(i as int), x, keep);
        }
        i = i + 1;
    }
    proof {
        assert(iter@.take(i as int) =~= iter@);
    }
    let v = agg.into_inner();
    let mut r = R::with_capacity(v.len());
    let mut j: usize = 0;
    while j < v.len()
        invariant
            j <= v@.len(),
            r.items() == v@.take(j as int),
        decreases v@.len() - j,
    {
        r.push(v[j]);
        assert(v@.take(j + 1) =~= v@.take(j as int).push(v@[j as int]));
        j = j + 1;
    }
    assert(v@.take(j as int) =~= v@);
    r
}

/// The entries sorted by their key, the first part of each, with one entry of each key: the
/// first or the last one, as `keep` says.
pub fn sort_dedup_by_key<K: SortKey, V: Copy, R: Sequence<(K, V)>>(iter: Vec<(K, V)>, keep: Keep) -> (r: R)
    ensures
        keys_ascending(r.items()),
        last_map(r.items()) == kept_map(iter@, keep),
{
    sort_dedup_by(iter, keep)
}

/// The values sorted, each once.
pub fn sort_dedup<K: SortKey, R: Sequence<K>>(iter: Vec<K>, keep: Keep) -> (r: R)
    ensures
        forall|i: int, j: int| 0 <= i < j < r.items().len() ==> #[trigger] r.items()[i].key() < #[trigger] r.items()[j].key(),
        r.items().to_set() == iter@.to_set(),
{
    let mut entries: Vec<(K, ())> = Vec::with_capacity(iter.len());
    let mut i: usize = 0;
    while i < iter.len()
        invariant
            i <= iter@.len(),
            entries@.len() == i,
            forall|t: int| 0 <= t < i ==> #[trigger] entries@[t] == (iter@[t], ()),
        decreases iter@.len() - i,
    {
        entries.push((iter[i], ()));
        i = i + 1;
    }
    let d: Vec<(K, ())> = sort_dedup_by(entries, keep);
    let mut r = R::with_capacity(d.len());
    let mut j: usize = 0;
    while j < d.len()
        invariant
            j <= d@.len(),
            r.items().len() == j,
            forall|t: int| 0 <= t < j ==> #[trigger] r.items()[t] == d@[t].0,
        decreases d@.len() - j,
    {
        r.push(d[j].0);
        j = j + 1;
    }
    proof {
        lemma_map_doms(d@);
        lemma_map_doms(entries@);
        assert(last_map(d@).dom() == kept_map(entries@, keep).dom());
        assert forall|k: K| #[trigger] r.items().to_set().contains(k) == iter@.to_set().contains(k) by {
            if r.items().to_set().contains(k) {
                let t = choose|t: int| 0 <= t < r.items().len() && r.items()[t] == k;
                assert(key_dom(d@).contains(k)) by {
                    assert(d@[t].0 == k);
                }
                let u = choose|u: int| 0 <= u < entries@.len() && #[trigger] entries@[u].0 == k;
                assert(iter@[u] == k);
            }
            if iter@.to_set().contains(k) {
                let u = choose|u: int| 0 <= u < iter@.len() && iter@[u] == k;
                assert(key_dom(entries@).contains(k)) by {
                    assert(entries@[u].0 == k);
                }
                let t = choose|t: int| 0 <= t < d@.len() && #[trigger] d@[t].0 == k;
                assert(r.items()[t] == k);
            }
        }
        assert(r.items().to_set() =~= iter@.to_set());
        assert forall|i: int, j: int| 0 <= i < j < r.items().len() implies #[trigger] r.items()[i].key()
            < #[trigger] r.items()[j].key() by {
            assert(d@[i].0.key() < d@[j].0.key());
        }
    }
    r
}
} // verus!

//! A map backed by a vector of entries in ascending key order.
use vstd::prelude::*;
use crate::key::SortKey;
use crate::dedup::{key_dom, keys_ascending, kept_map, last_map, lemma_map_doms, sort_and_dedup, Keep};

verus! {

/// A map stored as a vector of key-value entries with strictly ascending keys.
///
/// Its view maps each key to its value.
#[derive(Debug)]
pub struct ArrayMap<K: SortKey, V>(Vec<(K, V)>);

/// The argument of the function of a left join: a key of the left map only, or of both.
pub enum LeftJoinArg<A, B> {
    /// only in the left map
    Left(A),
    /// in both maps
    Both(A, B),
}

/// The argument of the function of a right join: a key of both maps, or of the right map only.
pub enum RightJoinArg<A, B> {
    /// in both maps
    Both(A, B),
    /// only in the right map
    Right(B),
}

/// The argument of the function of an outer join: a key of one map or of both.
pub enum OuterJoinArg<A, B> {
    /// only in the left map
    Left(A),
    /// only in the right map
    Right(B),
    /// in both maps
    Both(A, B),
}

/// With ascending keys, the map of the entries gives each entry's value for its key.
pub proof fn lemma_lookup<K: SortKey, V>(s: Seq<(K, V)>)
    requires
        keys_ascending(s),
    ensures
        last_map(s).dom() == key_dom(s),
        forall|i: int| 0 <= i < s.len() ==> #[trigger] last_map(s)[s[i].0] == s[i].1,
    decreases s.len(),
{
    lemma_map_doms(s);
    if s.len() > 0 {
        let t = s.drop_last();
        assert(keys_ascending(t)) by {
            assert forall|i: int, j: int| 0 <= i < j < t.len() implies #[trigger] t[i].0.key() < #[trigger] t[j].0.key() by {
                assert(t[i] == s[i] && t[j] == s[j]);
            }
        }
        lemma_lookup(t);
        assert forall|i: int| 0 <= i < s.len() implies #[trigger] last_map(s)[s[i].0] == s[i].1 by {
            if i < s.len() - 1 {
                assert(t[i] == s[i]);
                assert(s[i].0.key() < s[s.len() - 1].0.key());
            }
        }
    }
}

/// The keys of the entries as a set.
proof fn lemma_key_dom_set<K, V>(s: Seq<(K, V)>)
    ensures
        key_dom(s) == s.map_values(|e: (K, V)| e.0).to_set(),
{
    let ks = s.map_values(|e: (K, V)| e.0);
    assert forall|k: K| #[trigger] key_dom(s).contains(k) == ks.to_set().contains(k) by {
        if key_dom(s).contains(k) {
            let i = choose|i: int| 0 <= i < s.len() && #[trigger] s[i].0 == k;
            assert(ks[i] == k);
        }
        if ks.to_set().contains(k) {
            let i = choose|i: int| 0 <= i < ks.len() && ks[i] == k;
            assert(s[i].0 == k);
        }
    }
    assert(key_dom(s) =~= ks.to_set());
}

/// Appending an entry with a key above all others keeps the keys ascending.
proof fn lemma_push_ascending<K: SortKey, V>(s: Seq<(K, V)>, e: (K, V))
    requires
        keys_ascending(s),
        s.len() > 0 ==> s.last().0.key() < e.0.key(),
    ensures
        keys_ascending(s.push(e)),
        last_map(s.push(e)) == last_map(s).insert(e.0, e.1),
{
    assert(s.push(e).drop_last() =~= s);
    assert forall|i: int, j: int| 0 <= i < j < s.push(e).len() implies #[trigger] s.push(e)[i].0.key()
        < #[trigger] s.push(e)[j].0.key() by {
        if j == s.len() && i < s.len() - 1 {
            assert(s[i].0.key() < s[s.len() - 1].0.key());
        }
    }
}

/// The key of entry `i` of `s` is not among the entries of `t` when it lies strictly between
/// the entries of `t` before `j` and those from `j` on.
proof fn lemma_absent<K: SortKey, V, W>(s: Seq<(K, V)>, i: int, t: Seq<(K, W)>, j: int)
    requires
        keys_ascending(t),
        0 <= i < s.len(),
        0 <= j <= t.len(),
        forall|u: int| 0 <= u < j ==> #[trigger] t[u].0.key() < s[i].0.key(),
        j < t.len() ==> s[i].0.key() < t[j].0.key(),
    ensures
        !key_dom(t).contains(s[i].0),
{
    if key_dom(t).contains(s[i].0) {
        let u = choose|u: int| 0 <= u < t.len() && #[trigger] t[u].0 == s[i].0;
        assert(t[u].0.key() == s[i].0.key());
        if u > j {
            assert(t[j].0.key() < t[u].0.key());
        }
    }
}

/// Replacing the value of entry `i` keeps the keys ascending and sets the value of its key.
proof fn lemma_overwrite<K: SortKey, V>(s: Seq<(K, V)>, i: int, value: V)
    requires
        keys_ascending(s),
        0 <= i < s.len(),
    ensures
        keys_ascending(s.update(i, (s[i].0, value))),
        last_map(s.update(i, (s[i].0, value))) == last_map(s).insert(s[i].0, value),
{
    let key = s[i].0;
    let v = s.update(i, (key, value));
    assert(keys_ascending(v)) by {
        assert forall|p: int, q: int| 0 <= p < q < v.len() implies #[trigger] v[p].0.key() < #[trigger] v[q].0.key() by {
            assert(s[p].0.key() < s[q].0.key());
        }
    }
    lemma_lookup(v);
    lemma_map_doms(v);
    lemma_lookup(s);
    lemma_map_doms(s);
    assert forall|k: K| #[trigger] key_dom(v).contains(k) == (key_dom(s).contains(k) || k == key) by {
        if key_dom(s).contains(k) {
            let p = choose|p: int| 0 <= p < s.len() && #[trigger] s[p].0 == k;
            assert(v[p].0 == k);
        }
        if key_dom(v).contains(k) {
            let p = choose|p: int| 0 <= p < v.len() && #[trigger] v[p].0 == k;
            assert(s[p].0 == k);
        }
        if k == key {
            assert(s[i].0 == k);
        }
    }
    assert forall|k: K| #[trigger] last_map(v).dom().contains(k) implies last_map(v)[k] == last_map(s).insert(key, value)[k] by {
        let p = choose|p: int| 0 <= p < v.len() && #[trigger] v[p].0 == k;
        assert(last_map(v)[v[p].0] == v[p].1);
        if p != i {
            assert(v[p] == s[p]);
            if p < i {
                assert(s[p].0.key() < s[i].0.key());
            } else {
                assert(s[i].0.key() < s[p].0.key());
            }
            assert(last_map(s)[s[p].0] == s[p].1);
        }
    }
    assert(last_map(v) =~= last_map(s).insert(key, value));
}

/// Searches the entries for `key`: `Ok(i)` is the entry that holds it, `Err(i)` the position
/// where it would be inserted.
fn search_entries<K: SortKey, V>(s: &[(K, V)], key: &K) -> (r: Result<usize, usize>)
    requires
        keys_ascending(s@),
    ensures
        match r {
            Ok(i) => i < s@.len() && s@[i as int].0 == *key,
            Err(i) => {
                &&& i <= s@.len()
                &&& !key_dom(s@).contains(*key)
                &&& forall|j: int| 0 <= j < i ==> #[trigger] s@[j].0.key() < key.key()
                &&& forall|j: int| i <= j < s@.len() ==> key.key() < #[trigger] s@[j].0.key()
            },
        },
{
    let mut l: usize = 0;
    let mut h: usize = s.len();
    while l < h
        invariant
            keys_ascending(s@),
            l <= h <= s@.len(),
            forall|j: int| 0 <= j < l ==> #[trigger] s@[j].0.key() < key.key(),
            forall|j: int| h <= j < s@.len() ==> key.key() < #[trigger] s@[j].0.key(),
        decreases h - l,
    {
        let m = l + (h - l) / 2;
        if s[m].0.key_lt(key) {
            l = m + 1;
        } else if key.key_lt(&s[m].0) {
            h = m;
        } else {
            proof {
                K::lemma_key_injective(s@[m as int].0, *key);
            }
            return Ok(m);
        }
    }
    proof {
        if key_dom(s@).contains(*key) {
            let u = choose|u: int| 0 <= u < s@.len() && #[trigger] s@[u].0 == *key;
            assert(s@[u].0.key() == key.key());
        }
    }
    Err(l)
}

impl<K: SortKey, V> View for ArrayMap<K, V> {
    type V = Map<K, V>;

    closed spec fn view(&self) -> Map<K, V> {
        last_map(self.0@)
    }
}

impl<K: SortKey, V> ArrayMap<K, V> {
    /// The keys of the entries ascend strictly. Every map that the library builds satisfies
    /// this, and its operations keep it.
    pub closed spec fn ascending(self) -> bool {
        keys_ascending(self.0@)
    }

    /// An array map is determined by its map: two with the same map hold the same entries in
    /// the same order.
    pub proof fn lemma_canonical(a: Self, b: Self)
        requires
            a.ascending(),
            b.ascending(),
            a@ == b@,
        ensures
            a.entries() == b.entries(),
    {
        let s = a.0@;
        let t = b.0@;
        lemma_lookup(s);
        lemma_lookup(t);
        let ks = s.map_values(|e: (K, V)| e.0);
        let kt = t.map_values(|e: (K, V)| e.0);
        assert(crate::sorted::key_set(ks) == crate::sorted::key_set(kt)) by {
            assert forall|k: int| crate::sorted::key_set(ks).contains(k) implies crate::sorted::key_set(kt).contains(k) by {
                let i = choose|i: int| 0 <= i < ks.len() && #[trigger] ks[i].key() == k;
                assert(last_map(s).dom().contains(s[i].0));
                assert(key_dom(t).contains(s[i].0));
                let j = choose|j: int| 0 <= j < t.len() && #[trigger] t[j].0 == s[i].0;
                assert(kt[j].key() == k);
            }
            assert forall|k: int| crate::sorted::key_set(kt).contains(k) implies crate::sorted::key_set(ks).contains(k) by {
                let j = choose|j: int| 0 <= j < kt.len() && #[trigger] kt[j].key() == k;
                assert(last_map(t).dom().contains(t[j].0));
                assert(key_dom(s).contains(t[j].0));
                let i = choose|i: int| 0 <= i < s.len() && #[trigger] s[i].0 == t[j].0;
                assert(ks[i].key() == k);
            }
            assert(crate::sorted::key_set(ks) =~= crate::sorted::key_set(kt));
        }
        assert(crate::sorted::sorted(ks)) by {
            assert forall|i: int, j: int| 0 <= i < j < ks.len() implies #[trigger] ks[i].key() < #[trigger] ks[j].key() by {
                assert(s[i].0.key() < s[j].0.key());
            }
        }
        assert(crate::sorted::sorted(kt)) by {
            assert forall|i: int, j: int| 0 <= i < j < kt.len() implies #[trigger] kt[i].key() < #[trigger] kt[j].key() by {
                assert(t[i].0.key() < t[j].0.key());
            }
        }
        crate::sorted::lemma_sorted_unique(ks, kt);
        assert(s =~= t) by {
            assert forall|i: int| 0 <= i < s.len() implies s[i] == t[i] by {
                assert(ks[i] == kt[i]);
                assert(last_map(s)[s[i].0] == s[i].1);
                assert(last_map(t)[t[i].0] == t[i].1);
            }
        }
    }

    /// The entries in ascending key order.
    pub closed spec fn entries(&self) -> Seq<(K, V)> {
        self.0@
    }

    /// The entries make up the map, which is finite.
    pub proof fn lemma_entries(&self)
        ensures
            self@ == last_map(self.entries()),
            self@.dom() == key_dom(self.entries()),
            self@.dom().finite(),
    {
        lemma_map_doms(self.0@);
        lemma_key_dom_set(self.0@);
    }

    /// The empty map.
    pub fn empty() -> (r: Self)
        ensures
            r.ascending(),
            r@ == Map::<K, V>::empty(),
    {
        let r = ArrayMap(Vec::new());
        assert(r@ =~= Map::<K, V>::empty());
        r
    }

    /// Whether the map is empty.
    pub fn is_empty(&self) -> (r: bool)
        requires
            self.ascending(),
        ensures
            r == (self@.dom() == Set::<K>::empty()),
    {
        proof {
            lemma_map_doms(self.0@);
            if self.0@.len() > 0 {
                assert(key_dom(self.0@).contains(self.0@[0].0));
            } else {
                assert(key_dom(self.0@) =~= Set::<K>::empty());
            }
        }
        self.0.len() == 0
    }

    /// The number of entries.
    pub fn len(&self) -> (r: usize)
        requires
            self.ascending(),
        ensures
            r == self@.dom().len(),
    {
        proof {
            lemma_lookup(self.0@);
            let ks = self.0@.map_values(|e: (K, V)| e.0);
            lemma_key_dom_set(self.0@);
            assert forall|i: int, j: int| 0 <= i < j < ks.len() implies #[trigger] ks[i] != #[trigger] ks[j] by {
                assert(self.0@[i].0.key() < self.0@[j].0.key());
            }
            assert(ks.no_duplicates());
            ks.unique_seq_to_set();
        }
        self.0.len()
    }

    /// The map of entries whose keys already ascend strictly.
    pub fn from_sorted_vec(v: Vec<(K, V)>) -> (r: Self)
        requires
            keys_ascending(v@),
        ensures
            r.ascending(),
            r.entries() == v@,
            r@ == last_map(v@),
    {
        ArrayMap(v)
    }

    /// The entries in ascending key order.
    pub fn as_slice(&self) -> (r: &[(K, V)])
        requires
            self.ascending(),
        ensures
            r@ == self.entries(),
            keys_ascending(r@),
    {
        proof {
        }
        self.0.as_slice()
    }

    /// An iterator over the entries in ascending key order.
    pub fn iter(&self) -> (r: SliceIterator<'_, (K, V)>)
        ensures
            r@ == self.entries(),
    {
        SliceIterator(self.0.as_slice())
    }

    /// The map with one entry.
    pub fn single(k: K, v: V) -> (r: Self)
        ensures
            r.ascending(),
            r@ == Map::<K, V>::empty().insert(k, v),
    {
        let mut e = Vec::new();
        e.push((k, v));
        let r = ArrayMap(e);
        assert(r.0@.drop_last() =~= Seq::<(K, V)>::empty());
        assert(r.0@.last() == (k, v));
        assert(last_map(r.0@) == last_map(Seq::<(K, V)>::empty()).insert(k, v));
        assert(r@ =~= Map::<K, V>::empty().insert(k, v));
        r
    }

    /// The value of `key`, if the map has it.
    pub fn get(&self, key: &K) -> (r: Option<&V>)
        requires
            self.ascending(),
        ensures
            r == if self@.dom().contains(*key) {
                Some(&self@[*key])
            } else {
                None::<&V>
            },
    {
        proof {
            lemma_lookup(self.0@);
        }
        match search_entries(self.0.as_slice(), key) {
            Ok(i) => Some(&self.0[i].1),
            Err(_) => None,
        }
    }

    /// The value of `key`, if the map has it, to be changed in place.
    pub fn get_mut(&mut self, key: &K) -> (r: Option<&mut V>)
        requires
            old(self).ascending(),
        ensures
            final(self).ascending(),
            r is Some <==> old(self)@.dom().contains(*key),
            r is None ==> final(self)@ == old(self)@,
            r matches Some(p) ==> *p == old(self)@[*key] && final(self)@ == old(self)@.insert(*key, *final(p)),
    {
        proof {
            lemma_lookup(self.0@);
        }
        let ghost s = self.0@;
        match search_entries(self.0.as_slice(), key) {
            Ok(i) => {
                let p = &mut self.0[i].1;
                proof {
                    lemma_overwrite(s, i as int, *final(p));
                }
                Some(p)
            },
            Err(_) => None,
        }
    }
}

/// The keys of the first `i + 1` entries are those of the first `i` and that of entry `i`.
proof fn lemma_key_dom_take<K, V>(s: Seq<(K, V)>, i: int)
    requires
        0 <= i < s.len(),
    ensures
        key_dom(s.take(i + 1)) == key_dom(s.take(i)).insert(s[i].0),
{
    let a = s.take(i + 1);
    let b = s.take(i);
    assert forall|k: K| #[trigger] key_dom(a).contains(k) == key_dom(b).insert(s[i].0).contains(k) by {
        if key_dom(a).contains(k) {
            let t = choose|t: int| 0 <= t < a.len() && #[trigger] a[t].0 == k;
            if t < i {
                assert(b[t].0 == k);
            }
        }
        if key_dom(b).contains(k) {
            let t = choose|t: int| 0 <= t < b.len() && #[trigger] b[t].0 == k;
            assert(a[t].0 == k);
        }
        if k == s[i].0 {
            assert(a[i].0 == k);
        }
    }
    assert(key_dom(a) =~= key_dom(b).insert(s[i].0));
}

/// Every key among the first `i` entries lies below the key of entry `i`.
proof fn lemma_take_below<K: SortKey, V>(s: Seq<(K, V)>, i: int, k: K)
    requires
        keys_ascending(s),
        0 <= i <= s.len(),
        key_dom(s.take(i)).contains(k),
    ensures
        i < s.len() ==> k.key() < s[i].0.key(),
        exists|t: int| 0 <= t < i && #[trigger] s[t].0 == k,
{
    let t = choose|t: int| 0 <= t < s.take(i).len() && #[trigger] s.take(i)[t].0 == k;
    assert(s[t].0 == k);
    if i < s.len() {
        assert(s[t].0.key() < s[i].0.key());
    }
}

impl<K: SortKey, V> ArrayMap<K, V> {
    /// The map of the keys of either map, each with what `f` gives for its values.
    pub fn outer_join<W, R, F: Fn(OuterJoinArg<&V, &W>) -> R>(&self, that: &ArrayMap<K, W>, f: F) -> (r: ArrayMap<K, R>)
        requires
            self.ascending(),
            that.ascending(),
            forall|x: OuterJoinArg<&V, &W>| #[trigger] f.requires((x,)),
        ensures
            r.ascending(),
            r@.dom() == self@.dom().union(that@.dom()),
            forall|k: K| #[trigger] r@.dom().contains(k) ==> {
                if self@.dom().contains(k) && that@.dom().contains(k) {
                    f.ensures((OuterJoinArg::Both(&self@[k], &that@[k]),), r@[k])
                } else if self@.dom().contains(k) {
                    f.ensures((OuterJoinArg::Left(&self@[k]),), r@[k])
                } else {
                    f.ensures((OuterJoinArg::Right(&that@[k]),), r@[k])
                }
            },
    {
        proof {
            lemma_lookup(self.0@);
            lemma_lookup(that.0@);
        }
        let a = self.0.as_slice();
        let b = that.0.as_slice();
        let ghost am = self@;
        let ghost bm = that@;
        let mut out: Vec<(K, R)> = Vec::new();
        let mut i: usize = 0;
        let mut j: usize = 0;
        proof {
            assert(key_dom(a@.take(0)) =~= Set::<K>::empty());
            assert(key_dom(b@.take(0)) =~= Set::<K>::empty());
            assert(last_map(out@) =~= Map::<K, R>::empty());
        }
        while i < a.len() || j < b.len()
            invariant
                keys_ascending(a@),
                keys_ascending(b@),
                am == last_map(a@),
                bm == last_map(b@),
                am.dom() == key_dom(a@),
                bm.dom() == key_dom(b@),
                forall|t: int| 0 <= t < a@.len() ==> #[trigger] am[a@[t].0] == a@[t].1,
                forall|t: int| 0 <= t < b@.len() ==> #[trigger] bm[b@[t].0] == b@[t].1,
                forall|x: OuterJoinArg<&V, &W>| #[trigger] f.requires((x,)),
                i <= a@.len(),
                j <= b@.len(),
                keys_ascending(out@),
                i < a@.len() ==> forall|t: int| 0 <= t < j ==> #[trigger] b@[t].0.key() < a@[i as int].0.key(),
                j < b@.len() ==> forall|t: int| 0 <= t < i ==> #[trigger] a@[t].0.key() < b@[j as int].0.key(),
                out@.len() > 0 && i < a@.len() ==> out@.last().0.key() < a@[i as int].0.key(),
                out@.len() > 0 && j < b@.len() ==> out@.last().0.key() < b@[j as int].0.key(),
                last_map(out@).dom() == key_dom(a@.take(i as int)).union(key_dom(b@.take(j as int))),
                forall|k: K| #[trigger] last_map(out@).dom().contains(k) ==> {
                    if am.dom().contains(k) && bm.dom().contains(k) {
                        f.ensures((OuterJoinArg::Both(&am[k], &bm[k]),), last_map(out@)[k])
                    } else if am.dom().contains(k) {
                        f.ensures((OuterJoinArg::Left(&am[k]),), last_map(out@)[k])
                    } else {
                        f.ensures((OuterJoinArg::Right(&bm[k]),), last_map(out@)[k])
                    }
                },
            decreases a@.len() + b@.len() - i - j,
        {
            let ghost out0 = out@;
            if j >= b.len() || (i < a.len() && a[i].0.key_lt(&b[j].0)) {
                let k = a[i].0;
                let v = f(OuterJoinArg::Left(&a[i].1));
                out.push((k, v));
                proof {
                    lemma_absent(a@, i as int, b@, j as int);
                    lemma_push_ascending(out0, (k, v));
                    lemma_key_dom_take(a@, i as int);
                    assert(!last_map(out0).dom().contains(k)) by {
                        if key_dom(a@.take(i as int)).contains(k) {
                            lemma_take_below(a@, i as int, k);
                        }
                        if key_dom(b@.take(j as int)).contains(k) {
                            let t = choose|t: int| 0 <= t < b@.take(j as int).len() && #[trigger] b@.take(j as int)[t].0 == k;
                            assert(b@[t].0 == k);
                        }
                    }
                    assert(last_map(out@).dom() =~= key_dom(a@.take(i + 1)).union(key_dom(b@.take(j as int))));
                    if i + 1 < a@.len() {
                        assert(a@[i as int].0.key() < a@[i + 1].0.key());
                    }
                }
                i = i + 1;
            } else if i >= a.len() || b[j].0.key_lt(&a[i].0) {
                let k = b[j].0;
                let v = f(OuterJoinArg::Right(&b[j].1));
                out.push((k, v));
                proof {
                    lemma_absent(b@, j as int, a@, i as int);
                    lemma_push_ascending(out0, (k, v));
                    lemma_key_dom_take(b@, j as int);
                    assert(!last_map(out0).dom().contains(k)) by {
                        if key_dom(b@.take(j as int)).contains(k) {
                            lemma_take_below(b@, j as int, k);
                        }
                        if key_dom(a@.take(i as int)).contains(k) {
                            let t = choose|t: int| 0 <= t < a@.take(i as int).len() && #[trigger] a@.take(i as int)[t].0 == k;
                            assert(a@[t].0 == k);
                        }
                    }
                    assert(last_map(out@).dom() =~= key_dom(a@.take(i as int)).union(key_dom(b@.take(j + 1))));
                    if j + 1 < b@.len() {
                        assert(b@[j as int].0.key() < b@[j + 1].0.key());
                    }
                }
                j = j + 1;
            } else {
                let k = a[i].0;
                let v = f(OuterJoinArg::Both(&a[i].1, &b[j].1));
                out.push((k, v));
                proof {
                    K::lemma_key_injective(a@[i as int].0, b@[j as int].0);
                    assert(key_dom(b@).contains(k)) by {
                        assert(b@[j as int].0 == k);
                    }
                    lemma_push_ascending(out0, (k, v));
                    lemma_key_dom_take(a@, i as int);
                    lemma_key_dom_take(b@, j as int);
                    assert(!last_map(out0).dom().contains(k)) by {
                        if key_dom(a@.take(i as int)).contains(k) {
                            lemma_take_below(a@, i as int, k);
                        }
                        if key_dom(b@.take(j as int)).contains(k) {
                            lemma_take_below(b@, j as int, k);
                        }
                    }
                    assert(last_map(out@).dom() =~= key_dom(a@.take(i + 1)).union(key_dom(b@.take(j + 1))));
                    if i + 1 < a@.len() {
                        assert(a@[i as int].0.key() < a@[i + 1].0.key());
                    }
                    if j + 1 < b@.len() {
                        assert(b@[j as int].0.key() < b@[j + 1].0.key());
                    }
                }
                i = i + 1;
                j = j + 1;
            }
        }
        proof {
            assert(a@.take(i as int) =~= a@);
            assert(b@.take(j as int) =~= b@);
        }
        ArrayMap(out)
    }

    /// The map of the keys of this map, each with what `f` gives for its values.
    pub fn left_join<W, R, F: Fn(LeftJoinArg<&V, &W>) -> R>(&self, that: &ArrayMap<K, W>, f: F) -> (r: ArrayMap<K, R>)
        requires
            self.ascending(),
            that.ascending(),
            forall|x: LeftJoinArg<&V, &W>| #[trigger] f.requires((x,)),
        ensures
            r.ascending(),
            r@.dom() == self@.dom(),
            forall|k: K| #[trigger] r@.dom().contains(k) ==> {
                if that@.dom().contains(k) {
                    f.ensures((LeftJoinArg::Both(&self@[k], &that@[k]),), r@[k])
                } else {
                    f.ensures((LeftJoinArg::Left(&self@[k]),), r@[k])
                }
            },
    {
        proof {
            lemma_lookup(self.0@);
            lemma_lookup(that.0@);
        }
        let a = self.0.as_slice();
        let b = that.0.as_slice();
        let ghost am = self@;
        let ghost bm = that@;
        let mut out: Vec<(K, R)> = Vec::new();
        let mut i: usize = 0;
        let mut j: usize = 0;
        proof {
            assert(key_dom(a@.take(0)) =~= Set::<K>::empty());
            assert(last_map(out@) =~= Map::<K, R>::empty());
        }
        while i < a.len() || j < b.len()
            invariant
                keys_ascending(a@),
                keys_ascending(b@),
                am == last_map(a@),
                bm == last_map(b@),
                am.dom() == key_dom(a@),
                bm.dom() == key_dom(b@),
                forall|t: int| 0 <= t < a@.len() ==> #[trigger] am[a@[t].0] == a@[t].1,
                forall|t: int| 0 <= t < b@.len() ==> #[trigger] bm[b@[t].0] == b@[t].1,
                forall|x: LeftJoinArg<&V, &W>| #[trigger] f.requires((x,)),
                i <= a@.len(),
                j <= b@.len(),
                keys_ascending(out@),
                i < a@.len() ==> forall|t: int| 0 <= t < j ==> #[trigger] b@[t].0.key() < a@[i as int].0.key(),
                j < b@.len() ==> forall|t: int| 0 <= t < i ==> #[trigger] a@[t].0.key() < b@[j as int].0.key(),
                out@.len() > 0 && i < a@.len() ==> out@.last().0.key() < a@[i as int].0.key(),
                out@.len() > 0 && j < b@.len() ==> out@.last().0.key() < b@[j as int].0.key(),
                last_map(out@).dom() == key_dom(a@.take(i as int)),
                forall|k: K| #[trigger] last_map(out@).dom().contains(k) ==> {
                    if bm.dom().contains(k) {
                        f.ensures((LeftJoinArg::Both(&am[k], &bm[k]),), last_map(out@)[k])
                    } else {
                        f.ensures((LeftJoinArg::Left(&am[k]),), last_map(out@)[k])
                    }
                },
            decreases a@.len() + b@.len() - i - j,
        {
            let ghost out0 = out@;
            if j >= b.len() || (i < a.len() && a[i].0.key_lt(&b[j].0)) {
                let k = a[i].0;
                let v = f(LeftJoinArg::Left(&a[i].1));
                out.push((k, v));
                proof {
                    lemma_absent(a@, i as int, b@, j as int);
                    lemma_push_ascending(out0, (k, v));
                    lemma_key_dom_take(a@, i as int);
                    assert(!last_map(out0).dom().contains(k)) by {
                        if key_dom(a@.take(i as int)).contains(k) {
                            lemma_take_below(a@, i as int, k);
                        }
                    }
                    assert(last_map(out@).dom() =~= key_dom(a@.take(i + 1)));
                    if i + 1 < a@.len() {
                        assert(a@[i as int].0.key() < a@[i + 1].0.key());
                    }
                }
                i = i + 1;
            } else if i >= a.len() || b[j].0.key_lt(&a[i].0) {
                proof {
                    if j + 1 < b@.len() {
                        assert(b@[j as int].0.key() < b@[j + 1].0.key());
                    }
                }
                j = j + 1;
            } else {
                let k = a[i].0;
                let v = f(LeftJoinArg::Both(&a[i].1, &b[j].1));
                out.push((k, v));
                proof {
                    K::lemma_key_injective(a@[i as int].0, b@[j as int].0);
                    assert(key_dom(b@).contains(k)) by {
                        assert(b@[j as int].0 == k);
                    }
                    lemma_push_ascending(out0, (k, v));
                    lemma_key_dom_take(a@, i as int);
                    lemma_key_dom_take(b@, j as int);
                    assert(!last_map(out0).dom().contains(k)) by {
                        if key_dom(a@.take(i as int)).contains(k) {
                            lemma_take_below(a@, i as int, k);
                        }
                    }
                    assert(last_map(out@).dom() =~= key_dom(a@.take(i + 1)));
                    if i + 1 < a@.len() {
                        assert(a@[i as int].0.key() < a@[i + 1].0.key());
                    }
                    if j + 1 < b@.len() {
                        assert(b@[j as int].0.key() < b@[j + 1].0.key());
                    }
                }
                i = i + 1;
                j = j + 1;
            }
        }
        proof {
            assert(a@.take(i as int) =~= a@);
            assert(b@.take(j as int) =~= b@);
        }
        ArrayMap(out)
    }

    /// The map of the keys of the other map, each with what `f` gives for its values.
    pub fn right_join<W, R, F: Fn(RightJoinArg<&V, &W>) -> R>(&self, that: &ArrayMap<K, W>, f: F) -> (r: ArrayMap<K, R>)
        requires
            self.ascending(),
            that.ascending(),
            forall|x: RightJoinArg<&V, &W>| #[trigger] f.requires((x,)),
        ensures
            r.ascending(),
            r@.dom() == that@.dom(),
            forall|k: K| #[trigger] r@.dom().contains(k) ==> {
                if self@.dom().contains(k) {
                    f.ensures((RightJoinArg::Both(&self@[k], &that@[k]),), r@[k])
                } else {
                    f.ensures((RightJoinArg::Right(&that@[k]),), r@[k])
                }
            },
    {
        proof {
            lemma_lookup(self.0@);
            lemma_lookup(that.0@);
        }
        let a = self.0.as_slice();
        let b = that.0.as_slice();
        let ghost am = self@;
        let ghost bm = that@;
        let mut out: Vec<(K, R)> = Vec::new();
        let mut i: usize = 0;
        let mut j: usize = 0;
        proof {
            assert(key_dom(b@.take(0)) =~= Set::<K>::empty());
            assert(last_map(out@) =~= Map::<K, R>::empty());
        }
        while i < a.len() || j < b.len()
            invariant
                keys_ascending(a@),
                keys_ascending(b@),
                am == last_map(a@),
                bm == last_map(b@),
                am.dom() == key_dom(a@),
                bm.dom() == key_dom(b@),
                forall|t: int| 0 <= t < a@.len() ==> #[trigger] am[a@[t].0] == a@[t].1,
                forall|t: int| 0 <= t < b@.len() ==> #[trigger] bm[b@[t].0] == b@[t].1,
                forall|x: RightJoinArg<&V, &W>| #[trigger] f.requires((x,)),
                i <= a@.len(),
                j <= b@.len(),
                keys_ascending(out@),
                i < a@.len() ==> forall|t: int| 0 <= t < j ==> #[trigger] b@[t].0.key() < a@[i as int].0.key(),
                j < b@.len() ==> forall|t: int| 0 <= t < i ==> #[trigger] a@[t].0.key() < b@[j as int].0.key(),
                out@.len() > 0 && i < a@.len() ==> out@.last().0.key() < a@[i as int].0.key(),
                out@.len() > 0 && j < b@.len() ==> out@.last().0.key() < b@[j as int].0.key(),
                last_map(out@).dom() == key_dom(b@.take(j as int)),
                forall|k: K| #[trigger] last_map(out@).dom().contains(k) ==> {
                    if am.dom().contains(k) {
                        f.ensures((RightJoinArg::Both(&am[k], &bm[k]),), last_map(out@)[k])
                    } else {
                        f.ensures((RightJoinArg::Right(&bm[k]),), last_map(out@)[k])
                    }
                },
            decreases a@.len() + b@.len() - i - j,
        {
            let ghost out0 = out@;
            if j >= b.len() || (i < a.len() && a[i].0.key_lt(&b[j].0)) {
                proof {
                    if i + 1 < a@.len() {
                        assert(a@[i as int].0.key() < a@[i + 1].0.key());
                    }
                }
                i = i + 1;
            } else if i >= a.len() || b[j].0.key_lt(&a[i].0) {
                let k = b[j].0;
                let v = f(RightJoinArg::Right(&b[j].1));
                out.push((k, v));
                proof {
                    lemma_absent(b@, j as int, a@, i as int);
                    lemma_push_ascending(out0, (k, v));
                    lemma_key_dom_take(b@, j as int);
                    assert(!last_map(out0).dom().contains(k)) by {
                        if key_dom(b@.take(j as int)).contains(k) {
                            lemma_take_below(b@, j as int, k);
                        }
                    }
                    assert(last_map(out@).dom() =~= key_dom(b@.take(j + 1)));
                    if j + 1 < b@.len() {
                        assert(b@[j as int].0.key() < b@[j + 1].0.key());
                    }
                }
                j = j + 1;
            } else {
                let k = a[i].0;
                let v = f(RightJoinArg::Both(&a[i].1, &b[j].1));
                out.push((k, v));
                proof {
                    K::lemma_key_injective(a@[i as int].0, b@[j as int].0);
                    assert(key_dom(b@).contains(k)) by {
                        assert(b@[j as int].0 == k);
                    }
                    lemma_push_ascending(out0, (k, v));
                    lemma_key_dom_take(a@, i as int);
                    lemma_key_dom_take(b@, j as int);
                    assert(!last_map(out0).dom().contains(k)) by {
                        if key_dom(b@.take(j as int)).contains(k) {
                            lemma_take_below(b@, j as int, k);
                        }
                    }
                    assert(last_map(out@).dom() =~= key_dom(b@.take(j + 1)));
                    if i + 1 < a@.len() {
                        assert(a@[i as int].0.key() < a@[i + 1].0.key());
                    }
                    if j + 1 < b@.len() {
                        assert(b@[j as int].0.key() < b@[j + 1].0.key());
                    }
                }
                i = i + 1;
                j = j + 1;
            }
        }
        proof {
            assert(a@.take(i as int) =~= a@);
            assert(b@.take(j as int) =~= b@);
        }
        ArrayMap(out)
    }

    /// The map of the keys of both maps, each with what `f` gives for its two values.
    pub fn inner_join<W, R, F: Fn(&V, &W) -> R>(&self, that: &ArrayMap<K, W>, f: F) -> (r: ArrayMap<K, R>)
        requires
            self.ascending(),
            that.ascending(),
            forall|x: &V, y: &W| #[trigger] f.requires((x, y)),
        ensures
            r.ascending(),
            r@.dom() == self@.dom().intersect(that@.dom()),
            forall|k: K| #[trigger] r@.dom().contains(k) ==> f.ensures((&self@[k], &that@[k]), r@[k]),
    {
        proof {
            lemma_lookup(self.0@);
            lemma_lookup(that.0@);
        }
        let a = self.0.as_slice();
        let b = that.0.as_slice();
        let ghost am = self@;
        let ghost bm = that@;
        let mut out: Vec<(K, R)> = Vec::new();
        let mut i: usize = 0;
        let mut j: usize = 0;
        proof {
            assert(key_dom(a@.take(0)) =~= Set::<K>::empty());
            assert(last_map(out@) =~= Map::<K, R>::empty());
        }
        while i < a.len() || j < b.len()
            invariant
                keys_ascending(a@),
                keys_ascending(b@),
                am == last_map(a@),
                bm == last_map(b@),
                am.dom() == key_dom(a@),
                bm.dom() == key_dom(b@),
                forall|t: int| 0 <= t < a@.len() ==> #[trigger] am[a@[t].0] == a@[t].1,
                forall|t: int| 0 <= t < b@.len() ==> #[trigger] bm[b@[t].0] == b@[t].1,
                forall|x: &V, y: &W| #[trigger] f.requires((x, y)),
                i <= a@.len(),
                j <= b@.len(),
                keys_ascending(out@),
                i < a@.len() ==> forall|t: int| 0 <= t < j ==> #[trigger] b@[t].0.key() < a@[i as int].0.key(),
                j < b@.len() ==> forall|t: int| 0 <= t < i ==> #[trigger] a@[t].0.key() < b@[j as int].0.key(),
                out@.len() > 0 && i < a@.len() ==> out@.last().0.key() < a@[i as int].0.key(),
                out@.len() > 0 && j < b@.len() ==> out@.last().0.key() < b@[j as int].0.key(),
                last_map(out@).dom() == key_dom(a@.take(i as int)).intersect(bm.dom()),
                forall|k: K| #[trigger] last_map(out@).dom().contains(k) ==> f.ensures((&am[k], &bm[k]), last_map(out@)[k]),
            decreases a@.len() + b@.len() - i - j,
        {
            let ghost out0 = out@;
            if j >= b.len() || (i < a.len() && a[i].0.key_lt(&b[j].0)) {
                proof {
                    lemma_absent(a@, i as int, b@, j as int);
                    lemma_key_dom_take(a@, i as int);
                    assert(key_dom(a@.take(i + 1)).intersect(bm.dom()) =~= key_dom(a@.take(i as int)).intersect(bm.dom()));
                    if i + 1 < a@.len() {
                        assert(a@[i as int].0.key() < a@[i + 1].0.key());
                    }
                }
                i = i + 1;
            } else if i >= a.len() || b[j].0.key_lt(&a[i].0) {
                proof {
                    if j + 1 < b@.len() {
                        assert(b@[j as int].0.key() < b@[j + 1].0.key());
                    }
                }
                j = j + 1;
            } else {
                let k = a[i].0;
                let v = f(&a[i].1, &b[j].1);
                out.push((k, v));
                proof {
                    K::lemma_key_injective(a@[i as int].0, b@[j as int].0);
                    assert(key_dom(b@).contains(k)) by {
                        assert(b@[j as int].0 == k);
                    }
                    lemma_push_ascending(out0, (k, v));
                    lemma_key_dom_take(a@, i as int);
                    lemma_key_dom_take(b@, j as int);
                    assert(!last_map(out0).dom().contains(k)) by {
                        if key_dom(a@.take(i as int)).contains(k) {
                            lemma_take_below(a@, i as int, k);
                        }
                    }
                    assert(last_map(out@).dom() =~= key_dom(a@.take(i + 1)).intersect(bm.dom()));
                    if i + 1 < a@.len() {
                        assert(a@[i as int].0.key() < a@[i + 1].0.key());
                    }
                    if j + 1 < b@.len() {
                        assert(b@[j as int].0.key() < b@[j + 1].0.key());
                    }
                }
                i = i + 1;
                j = j + 1;
            }
        }
        proof {
            assert(a@.take(i as int) =~= a@);
            assert(b@.take(j as int) =~= b@);
        }
        ArrayMap(out)
    }

    /// The entries of this map for which `f` holds; the others are removed.
    pub fn retain<F: Fn((&K, &V)) -> bool>(&mut self, f: F)
        where
            V: Copy,
        requires
            old(self).ascending(),
            forall|k: &K, v: &V| #[trigger] f.requires(((k, v),)),
        ensures
            final(self).ascending(),
            final(self)@.dom().subset_of(old(self)@.dom()),
            forall|k: K| #[trigger] final(self)@.dom().contains(k) ==> final(self)@[k] == old(self)@[k]
                && f.ensures(((&k, &old(self)@[k]),), true),
            forall|k: K| #[trigger] old(self)@.dom().contains(k) && !final(self)@.dom().contains(k) ==> f.ensures(
                ((&k, &old(self)@[k]),),
                false,
            ),
    {
        proof {
            lemma_lookup(self.0@);
        }
        let ghost am = self@;
        let mut out: Vec<(K, V)> = Vec::new();
        let mut i: usize = 0;
        proof {
            assert(key_dom(self.0@.take(0)) =~= Set::<K>::empty());
            assert(last_map(out@) =~= Map::<K, V>::empty());
        }
        while i < self.0.len()
            invariant
                keys_ascending(self.0@),
                am == last_map(self.0@),
                am.dom() == key_dom(self.0@),
                forall|t: int| 0 <= t < self.0@.len() ==> #[trigger] am[self.0@[t].0] == self.0@[t].1,
                forall|k: &K, v: &V| #[trigger] f.requires(((k, v),)),
                i <= self.0@.len(),
                keys_ascending(out@),
                out@.len() > 0 && i < self.0@.len() ==> out@.last().0.key() < self.0@[i as int].0.key(),
                last_map(out@).dom().subset_of(key_dom(self.0@.take(i as int))),
                forall|k: K| #[trigger] last_map(out@).dom().contains(k) ==> last_map(out@)[k] == am[k]
                    && f.ensures(((&k, &am[k]),), true),
                forall|k: K| #[trigger] key_dom(self.0@.take(i as int)).contains(k) && !last_map(out@).dom().contains(k)
                    ==> f.ensures(((&k, &am[k]),), false),
            decreases self.0@.len() - i,
        {
            let ghost out0 = out@;
            let e = self.0[i];
            let keep = f((&e.0, &e.1));
            proof {
                lemma_key_dom_take(self.0@, i as int);
                assert(!last_map(out0).dom().contains(e.0)) by {
                    if last_map(out0).dom().contains(e.0) {
                        lemma_take_below(self.0@, i as int, e.0);
                    }
                }
                if i + 1 < self.0@.len() {
                    assert(self.0@[i as int].0.key() < self.0@[i + 1].0.key());
                }
            }
            if keep {
                out.push(e);
                proof {
                    lemma_push_ascending(out0, e);
                }
            }
            i = i + 1;
        }
        proof {
            assert(self.0@.take(i as int) =~= self.0@);
        }
        self.0 = out;
    }

    /// The map with the same keys, each with what `f` gives for its value.
    pub fn map_values<R, F: Fn(V) -> R>(self, f: F) -> (r: ArrayMap<K, R>)
        where
            V: Copy,
        requires
            self.ascending(),
            forall|v: V| #[trigger] f.requires((v,)),
        ensures
            r.ascending(),
            r@.dom() == self@.dom(),
            forall|k: K| #[trigger] r@.dom().contains(k) ==> f.ensures((self@[k],), r@[k]),
    {
        proof {
            lemma_lookup(self.0@);
        }
        let mut out: Vec<(K, R)> = Vec::new();
        let mut i: usize = 0;
        while i < self.0.len()
            invariant
                i <= self.0@.len(),
                out@.len() == i,
                forall|v: V| #[trigger] f.requires((v,)),
                forall|t: int| 0 <= t < i ==> (#[trigger] out@[t]).0 == self.0@[t].0 && f.ensures(
                    (self.0@[t].1,),
                    out@[t].1,
                ),
            decreases self.0@.len() - i,
        {
            let e = self.0[i];
            let v = f(e.1);
            out.push((e.0, v));
            i = i + 1;
        }
        proof {
            assert(keys_ascending(out@)) by {
                assert forall|x: int, y: int| 0 <= x < y < out@.len() implies #[trigger] out@[x].0.key()
                    < #[trigger] out@[y].0.key() by {
                    assert(out@[x].0 == self.0@[x].0 && out@[y].0 == self.0@[y].0);
                }
            }
            lemma_lookup(out@);
            assert(key_dom(out@) =~= key_dom(self.0@)) by {
                assert forall|k: K| #[trigger] key_dom(out@).contains(k) == key_dom(self.0@).contains(k) by {
                    if key_dom(out@).contains(k) {
                        let t = choose|t: int| 0 <= t < out@.len() && #[trigger] out@[t].0 == k;
                        assert(self.0@[t].0 == k);
                    }
                    if key_dom(self.0@).contains(k) {
                        let t = choose|t: int| 0 <= t < self.0@.len() && #[trigger] self.0@[t].0 == k;
                        assert(out@[t].0 == k);
                    }
                }
            }
            assert forall|k: K| #[trigger] last_map(out@).dom().contains(k) implies f.ensures((self@[k],), last_map(out@)[k]) by {
                let t = choose|t: int| 0 <= t < out@.len() && #[trigger] out@[t].0 == k;
                assert(out@[t].0 == self.0@[t].0);
            }
        }
        ArrayMap(out)
    }

    /// The union of the two maps; where both have a key, the value of this map wins.
    pub fn merge(&self, that: &ArrayMap<K, V>) -> (r: ArrayMap<K, V>)
        where
            V: Copy,
        requires
            self.ascending(),
            that.ascending(),
        ensures
            r.ascending(),
            r@ == that@.union_prefer_right(self@),
    {
        proof {
            lemma_lookup(self.0@);
            lemma_lookup(that.0@);
        }
        let a = self.0.as_slice();
        let b = that.0.as_slice();
        let ghost am = self@;
        let ghost bm = that@;
        let mut out: Vec<(K, V)> = Vec::new();
        let mut i: usize = 0;
        let mut j: usize = 0;
        proof {
            assert(key_dom(a@.take(0)) =~= Set::<K>::empty());
            assert(key_dom(b@.take(0)) =~= Set::<K>::empty());
            assert(last_map(out@) =~= Map::<K, V>::empty());
        }
        while i < a.len() || j < b.len()
            invariant
                keys_ascending(a@),
                keys_ascending(b@),
                am == last_map(a@),
                bm == last_map(b@),
                am.dom() == key_dom(a@),
                bm.dom() == key_dom(b@),
                forall|t: int| 0 <= t < a@.len() ==> #[trigger] am[a@[t].0] == a@[t].1,
                forall|t: int| 0 <= t < b@.len() ==> #[trigger] bm[b@[t].0] == b@[t].1,
                i <= a@.len(),
                j <= b@.len(),
                keys_ascending(out@),
                i < a@.len() ==> forall|t: int| 0 <= t < j ==> #[trigger] b@[t].0.key() < a@[i as int].0.key(),
                j < b@.len() ==> forall|t: int| 0 <= t < i ==> #[trigger] a@[t].0.key() < b@[j as int].0.key(),
                out@.len() > 0 && i < a@.len() ==> out@.last().0.key() < a@[i as int].0.key(),
                out@.len() > 0 && j < b@.len() ==> out@.last().0.key() < b@[j as int].0.key(),
                last_map(out@).dom() == key_dom(a@.take(i as int)).union(key_dom(b@.take(j as int))),
                forall|k: K| #[trigger] last_map(out@).dom().contains(k) ==> last_map(out@)[k] == if am.dom().contains(k) {
                    am[k]
                } else {
                    bm[k]
                },
            decreases a@.len() + b@.len() - i - j,
        {
            let ghost out0 = out@;
            if j >= b.len() || (i < a.len() && a[i].0.key_lt(&b[j].0)) {
                let e = a[i];
                out.push(e);
                proof {
                    let k = e.0;
                    lemma_absent(a@, i as int, b@, j as int);
                    lemma_push_ascending(out0, e);
                    lemma_key_dom_take(a@, i as int);
                    assert(!last_map(out0).dom().contains(k)) by {
                        if key_dom(a@.take(i as int)).contains(k) {
                            lemma_take_below(a@, i as int, k);
                        }
                        if key_dom(b@.take(j as int)).contains(k) {
                            let t = choose|t: int| 0 <= t < b@.take(j as int).len() && #[trigger] b@.take(j as int)[t].0 == k;
                            assert(b@[t].0 == k);
                        }
                    }
                    assert(last_map(out@).dom() =~= key_dom(a@.take(i + 1)).union(key_dom(b@.take(j as int))));
                    if i + 1 < a@.len() {
                        assert(a@[i as int].0.key() < a@[i + 1].0.key());
                    }
                }
                i = i + 1;
            } else if i >= a.len() || b[j].0.key_lt(&a[i].0) {
                let e = b[j];
                out.push(e);
                proof {
                    let k = e.0;
                    lemma_absent(b@, j as int, a@, i as int);
                    lemma_push_ascending(out0, e);
                    lemma_key_dom_take(b@, j as int);
                    assert(!last_map(out0).dom().contains(k)) by {
                        if key_dom(b@.take(j as int)).contains(k) {
                            lemma_take_below(b@, j as int, k);
                        }
                        if key_dom(a@.take(i as int)).contains(k) {
                            let t = choose|t: int| 0 <= t < a@.take(i as int).len() && #[trigger] a@.take(i as int)[t].0 == k;
                            assert(a@[t].0 == k);
                        }
                    }
                    assert(last_map(out@).dom() =~= key_dom(a@.take(i as int)).union(key_dom(b@.take(j + 1))));
                    if j + 1 < b@.len() {
                        assert(b@[j as int].0.key() < b@[j + 1].0.key());
                    }
                }
                j = j + 1;
            } else {
                let e = a[i];
                out.push(e);
                proof {
                    let k = e.0;
                    K::lemma_key_injective(a@[i as int].0, b@[j as int].0);
                    assert(key_dom(b@).contains(k)) by {
                        assert(b@[j as int].0 == k);
                    }
                    lemma_push_ascending(out0, e);
                    lemma_key_dom_take(a@, i as int);
                    lemma_key_dom_take(b@, j as int);
                    assert(!last_map(out0).dom().contains(k)) by {
                        if key_dom(a@.take(i as int)).contains(k) {
                            lemma_take_below(a@, i as int, k);
                        }
                        if key_dom(b@.take(j as int)).contains(k) {
                            lemma_take_below(b@, j as int, k);
                        }
                    }
                    assert(last_map(out@).dom() =~= key_dom(a@.take(i + 1)).union(key_dom(b@.take(j + 1))));
                    if i + 1 < a@.len() {
                        assert(a@[i as int].0.key() < a@[i + 1].0.key());
                    }
                    if j + 1 < b@.len() {
                        assert(b@[j as int].0.key() < b@[j + 1].0.key());
                    }
                }
                i = i + 1;
                j = j + 1;
            }
        }
        proof {
            assert(a@.take(i as int) =~= a@);
            assert(b@.take(j as int) =~= b@);
            assert(last_map(out@) =~= bm.union_prefer_right(am));
        }
        ArrayMap(out)
    }

    /// The map of the entries; where several have the same key, the last one wins.
    pub fn from_vec(v: Vec<(K, V)>) -> (r: ArrayMap<K, V>)
        where
            V: Copy,
        ensures
            r.ascending(),
            r@ == last_map(v@),
    {
        let d = sort_and_dedup(v.as_slice(), Keep::Last);
        ArrayMap(d)
    }
}


/// A sequence of key-value pairs in ascending key order, handed out from the front.
pub struct SPI<K: SortKey, V> {
    entries: Vec<(K, V)>,
    pos: usize,
}

impl<K: SortKey, V> View for SPI<K, V> {
    type V = Seq<(K, V)>;

    closed spec fn view(&self) -> Seq<(K, V)> {
        self.entries@.skip(self.pos as int)
    }
}

/// The entries from `pos` on.
fn copy_rest<K: SortKey, V: Copy>(v: &Vec<(K, V)>, pos: usize) -> (r: Vec<(K, V)>)
    requires
        pos <= v@.len(),
    ensures
        r@ == v@.skip(pos as int),
{
    let mut r: Vec<(K, V)> = Vec::new();
    let mut i = pos;
    while i < v.len()
        invariant
            pos <= i <= v@.len(),
            r@ == v@.subrange(pos as int, i as int),
        decreases v@.len() - i,
    {
        r.push(v[i]);
        assert(v@.subrange(pos as int, i + 1) =~= v@.subrange(pos as int, i as int).push(v@[i as int]));
        i = i + 1;
    }
    assert(v@.subrange(pos as int, i as int) =~= v@.skip(pos as int));
    r
}

impl<K: SortKey, V> SPI<K, V> {
    #[verifier::type_invariant]
    spec fn wf(self) -> bool {
        &&& keys_ascending(self.entries@)
        &&& self.pos <= self.entries@.len()
    }

    /// The pairs of `v`, whose keys ascend.
    pub fn new(v: Vec<(K, V)>) -> (r: Self)
        requires
            keys_ascending(v@),
        ensures
            r@ == v@,
    {
        let r = SPI { entries: v, pos: 0 };
        assert(r@ =~= v@);
        r
    }

    /// The remaining pairs have ascending keys.
    pub fn ascending(&self) -> (r: bool)
        ensures
            r,
            keys_ascending(self@),
    {
        proof {
            use_type_invariant(self);
            assert forall|i: int, j: int| 0 <= i < j < self@.len() implies #[trigger] self@[i].0.key()
                < #[trigger] self@[j].0.key() by {
                assert(self@[i] == self.entries@[self.pos + i] && self@[j] == self.entries@[self.pos + j]);
            }
        }
        true
    }

    /// The next pair, if any.
    pub fn next(&mut self) -> (r: Option<(K, V)>)
        where
            V: Copy,
        ensures
            old(self)@.len() == 0 ==> r is None && final(self)@ == old(self)@,
            old(self)@.len() > 0 ==> r == Some(old(self)@[0]) && final(self)@ == old(self)@.drop_first(),
    {
        proof {
            use_type_invariant(&*self);
        }
        if self.pos < self.entries.len() {
            let e = self.entries[self.pos];
            assert(old(self)@[0] == e);
            self.pos = self.pos + 1;
            assert(self@ =~= old(self)@.drop_first());
            Some(e)
        } else {
            None
        }
    }

    /// The remaining pairs as a vector.
    pub fn into_vec(self) -> (r: Vec<(K, V)>)
        where
            V: Copy,
        ensures
            r@ == self@,
    {
        proof {
            use_type_invariant(&self);
        }
        copy_rest(&self.entries, self.pos)
    }

    /// The pairs of the keys of either sequence, each with what `f` gives for the values of
    /// the key in this sequence and in `rhs`, if there.
    pub fn outer_join<W: Copy, R, F: Fn(Option<V>, Option<W>) -> R>(self, rhs: SPI<K, W>, f: F) -> (r: SPI<K, R>)
        where
            V: Copy,
        requires
            forall|x: Option<V>, y: Option<W>| #[trigger] f.requires((x, y)),
        ensures
            last_map(r@).dom() == last_map(self@).dom().union(last_map(rhs@).dom()),
            forall|k: K| #[trigger] last_map(r@).dom().contains(k) ==> {
                let a = last_map(self@);
                let b = last_map(rhs@);
                if a.dom().contains(k) && b.dom().contains(k) {
                    f.ensures((Some(a[k]), Some(b[k])), last_map(r@)[k])
                } else if a.dom().contains(k) {
                    f.ensures((Some(a[k]), None::<W>), last_map(r@)[k])
                } else {
                    f.ensures((None::<V>, Some(b[k])), last_map(r@)[k])
                }
            },
    {
        self.ascending();
        rhs.ascending();
        let av = self.into_vec();
        let bv = rhs.into_vec();
        proof {
            lemma_lookup(av@);
            lemma_lookup(bv@);
        }
        let a = av.as_slice();
        let b = bv.as_slice();
        let ghost am = last_map(a@);
        let ghost bm = last_map(b@);
        let mut out: Vec<(K, R)> = Vec::new();
        let mut i: usize = 0;
        let mut j: usize = 0;
        proof {
            assert(key_dom(a@.take(0)) =~= Set::<K>::empty());
            assert(key_dom(b@.take(0)) =~= Set::<K>::empty());
            assert(last_map(out@) =~= Map::<K, R>::empty());
        }
        while i < a.len() || j < b.len()
            invariant
                keys_ascending(a@),
                keys_ascending(b@),
                am == last_map(a@),
                bm == last_map(b@),
                am.dom() == key_dom(a@),
                bm.dom() == key_dom(b@),
                forall|t: int| 0 <= t < a@.len() ==> #[trigger] am[a@[t].0] == a@[t].1,
                forall|t: int| 0 <= t < b@.len() ==> #[trigger] bm[b@[t].0] == b@[t].1,
                forall|x: Option<V>, y: Option<W>| #[trigger] f.requires((x, y)),
                i <= a@.len(),
                j <= b@.len(),
                keys_ascending(out@),
                i < a@.len() ==> forall|t: int| 0 <= t < j ==> #[trigger] b@[t].0.key() < a@[i as int].0.key(),
                j < b@.len() ==> forall|t: int| 0 <= t < i ==> #[trigger] a@[t].0.key() < b@[j as int].0.key(),
                out@.len() > 0 && i < a@.len() ==> out@.last().0.key() < a@[i as int].0.key(),
                out@.len() > 0 && j < b@.len() ==> out@.last().0.key() < b@[j as int].0.key(),
                last_map(out@).dom() == key_dom(a@.take(i as int)).union(key_dom(b@.take(j as int))),
                forall|k: K| #[trigger] last_map(out@).dom().contains(k) ==> {
                    if am.dom().contains(k) && bm.dom().contains(k) {
                        f.ensures((Some(am[k]), Some(bm[k])), last_map(out@)[k])
                    } else if am.dom().contains(k) {
                        f.ensures((Some(am[k]), None::<W>), last_map(out@)[k])
                    } else {
                        f.ensures((None::<V>, Some(bm[k])), last_map(out@)[k])
                    }
                },
            decreases a@.len() + b@.len() - i - j,
        {
            let ghost out0 = out@;
            if j >= b.len() || (i < a.len() && a[i].0.key_lt(&b[j].0)) {
                let k = a[i].0;
                let v = f(Some(a[i].1), None);
                out.push((k, v));
                proof {
                    lemma_absent(a@, i as int, b@, j as int);
                    lemma_push_ascending(out0, (k, v));
                    lemma_key_dom_take(a@, i as int);
                    assert(!last_map(out0).dom().contains(k)) by {
                        if key_dom(a@.take(i as int)).contains(k) {
                            lemma_take_below(a@, i as int, k);
                        }
                        if key_dom(b@.take(j as int)).contains(k) {
                            let t = choose|t: int| 0 <= t < b@.take(j as int).len() && #[trigger] b@.take(j as int)[t].0 == k;
                            assert(b@[t].0 == k);
                        }
                    }
                    assert(last_map(out@).dom() =~= key_dom(a@.take(i + 1)).union(key_dom(b@.take(j as int))));
                    if i + 1 < a@.len() {
                        assert(a@[i as int].0.key() < a@[i + 1].0.key());
                    }
                }
                i = i + 1;
            } else if i >= a.len() || b[j].0.key_lt(&a[i].0) {
                let k = b[j].0;
                let v = f(None, Some(b[j].1));
                out.push((k, v));
                proof {
                    lemma_absent(b@, j as int, a@, i as int);
                    lemma_push_ascending(out0, (k, v));
                    lemma_key_dom_take(b@, j as int);
                    assert(!last_map(out0).dom().contains(k)) by {
                        if key_dom(b@.take(j as int)).contains(k) {
                            lemma_take_below(b@, j as int, k);
                        }
                        if key_dom(a@.take(i as int)).contains(k) {
                            let t = choose|t: int| 0 <= t < a@.take(i as int).len() && #[trigger] a@.take(i as int)[t].0 == k;
                            assert(a@[t].0 == k);
                        }
                    }
                    assert(last_map(out@).dom() =~= key_dom(a@.take(i as int)).union(key_dom(b@.take(j + 1))));
                    if j + 1 < b@.len() {
                        assert(b@[j as int].0.key() < b@[j + 1].0.key());
                    }
                }
                j = j + 1;
            } else {
                let k = a[i].0;
                let v = f(Some(a[i].1), Some(b[j].1));
                out.push((k, v));
                proof {
                    K::lemma_key_injective(a@[i as int].0, b@[j as int].0);
                    assert(key_dom(b@).contains(k)) by {
                        assert(b@[j as int].0 == k);
                    }
                    lemma_push_ascending(out0, (k, v));
                    lemma_key_dom_take(a@, i as int);
                    lemma_key_dom_take(b@, j as int);
                    assert(!last_map(out0).dom().contains(k)) by {
                        if key_dom(a@.take(i as int)).contains(k) {
                            lemma_take_below(a@, i as int, k);
                        }
                        if key_dom(b@.take(j as int)).contains(k) {
                            lemma_take_below(b@, j as int, k);
                        }
                    }
                    assert(last_map(out@).dom() =~= key_dom(a@.take(i + 1)).union(key_dom(b@.take(j + 1))));
                    if i + 1 < a@.len() {
                        assert(a@[i as int].0.key() < a@[i + 1].0.key());
                    }
                    if j + 1 < b@.len() {
                        assert(b@[j as int].0.key() < b@[j + 1].0.key());
                    }
                }
                i = i + 1;
                j = j + 1;
            }
        }
        proof {
            assert(a@.take(i as int) =~= a@);
            assert(b@.take(j as int) =~= b@);
        }
        let ghost o = out@;
        let r = SPI { entries: out, pos: 0 };
        assert(r@ =~= o);
        r
    }
}

/// An iterator over a slice that yields its elements from the front.
pub struct SliceIterator<'a, T>(pub &'a [T]);

impl<'a, T> View for SliceIterator<'a, T> {
    type V = Seq<T>;

    open spec fn view(&self) -> Seq<T> {
        self.0@
    }
}

impl<'a, T> SliceIterator<'a, T> {
    /// The elements not yet handed out.
    pub fn as_slice(&self) -> (r: &[T])
        ensures
            r@ == self@,
    {
        self.0
    }

    /// The next element, if any.
    pub fn next(&mut self) -> (r: Option<&'a T>)
        ensures
            old(self)@.len() == 0 ==> r is None && final(self)@ == old(self)@,
            old(self)@.len() > 0 ==> (r matches Some(x) && *x == old(self)@[0]) && final(self)@
                == old(self)@.drop_first(),
    {
        if self.0.len() == 0 {
            None
        } else {
            let s: &'a [T] = self.0;
            let res: &'a T = &s[0];
            self.0 = slice_from(s, 1);
            Some(res)
        }
    }
}

/// The elements of `s` from `start` on.
fn slice_from<'a, T>(s: &'a [T], start: usize) -> (r: &'a [T])
    requires
        start <= s@.len(),
    ensures
        r@ == s@.skip(start as int),
{
    let r = vstd::slice::slice_subrange(s, start, s.len());
    assert(r@ =~= s@.skip(start as int));
    r
}

/// The second of two values.
fn second<V>(a: V, b: V) -> (r: V)
    ensures
        r == b,
{
    b
}

/// The state of merging the entries `sa` and `sb` of two maps into `out`: every key before the
/// entries that remain is in `out` exactly when it is in one of the maps, with the value of the
/// map that has it, and an outcome of `f` on both values where both have it.
spec fn combined<K: SortKey, V, F: Fn(V, V) -> V>(
    sa: Seq<(K, V)>,
    i: int,
    sb: Seq<(K, V)>,
    j: int,
    out: Seq<(K, V)>,
    f: F,
) -> bool {
    &&& 0 <= i <= sa.len()
    &&& 0 <= j <= sb.len()
    &&& keys_ascending(sa)
    &&& keys_ascending(sb)
    &&& keys_ascending(out)
    &&& forall|p: int| 0 <= p < out.len() ==> before_entry(sa, i, #[trigger] out[p].0.key()) && before_entry(sb, j, out[p].0.key())
    &&& forall|p: int| 0 <= p < i ==> before_entry(sb, j, #[trigger] sa[p].0.key())
    &&& forall|p: int| 0 <= p < j ==> before_entry(sa, i, #[trigger] sb[p].0.key())
    &&& forall|k: K|
        before_entry(sa, i, #[trigger] k.key()) && before_entry(sb, j, k.key()) ==> combined_at(
            last_map(sa),
            last_map(sb),
            last_map(out),
            f,
            k,
        )
}

/// A key `x` comes before the entry `s[i]`, if there is one.
spec fn before_entry<K: SortKey, V>(s: Seq<(K, V)>, i: int, x: int) -> bool {
    0 <= i < s.len() ==> x < s[i].0.key()
}

/// `r` has `k` exactly when `a` or `b` has it, with the value of the one that has it, and an
/// outcome of `f` on both values where both have it.
pub open spec fn combined_at<K, V, F: Fn(V, V) -> V>(a: Map<K, V>, b: Map<K, V>, r: Map<K, V>, f: F, k: K) -> bool {
    &&& r.dom().contains(k) == (a.dom().contains(k) || b.dom().contains(k))
    &&& a.dom().contains(k) && !b.dom().contains(k) ==> r[k] == a[k]
    &&& !a.dom().contains(k) && b.dom().contains(k) ==> r[k] == b[k]
    &&& a.dom().contains(k) && b.dom().contains(k) ==> f.ensures((a[k], b[k]), r[k])
}

/// With ascending keys, the map of the entries has `k` exactly when some entry has.
proof fn lemma_has<K: SortKey, V>(s: Seq<(K, V)>, k: K)
    requires
        keys_ascending(s),
    ensures
        last_map(s).dom().contains(k) <==> exists|p: int| 0 <= p < s.len() && #[trigger] s[p].0 == k,
{
    lemma_lookup(s);
    lemma_map_doms(s);
    assert(key_dom(s).contains(k) == exists|p: int| 0 <= p < s.len() && #[trigger] s[p].0 == k);
}

/// One step of the merge: the entries with the smallest next key `x` are taken from `sa`, from
/// `sb` or from both, and `v` is the value to keep for `x`.
proof fn lemma_combined_step<K: SortKey, V, F: Fn(V, V) -> V>(
    sa: Seq<(K, V)>,
    i: int,
    sb: Seq<(K, V)>,
    j: int,
    out: Seq<(K, V)>,
    f: F,
    ta: bool,
    tb: bool,
    x: K,
    v: V,
)
    requires
        combined(sa, i, sb, j, out, f),
        ta || tb,
        ta ==> i < sa.len() && sa[i].0 == x,
        tb ==> j < sb.len() && sb[j].0 == x,
        !ta ==> before_entry(sa, i, x.key()),
        !tb ==> before_entry(sb, j, x.key()),
        ta && !tb ==> v == sa[i].1,
        !ta && tb ==> v == sb[j].1,
        ta && tb ==> f.ensures((sa[i].1, sb[j].1), v),
    ensures
        combined(sa, if ta { i + 1 } else { i }, sb, if tb { j + 1 } else { j }, out.push((x, v)), f),
{
    let i2 = if ta { i + 1 } else { i };
    let j2 = if tb { j + 1 } else { j };
    let out2 = out.push((x, v));
    lemma_lookup(sa);
    lemma_lookup(sb);
    lemma_lookup(out);
    lemma_lookup(out2);
    assert(out2.drop_last() =~= out);
    assert(last_map(out2) == last_map(out).insert(x, v));
    assert(forall|p: int| 0 <= p < out.len() ==> #[trigger] out[p].0.key() < x.key());
    assert forall|p: int| 0 <= p < i2 implies #[trigger] sa[p].0.key() <= x.key() by {
        if ta {
            if p < i {
                assert(sa[p].0.key() < sa[i].0.key());
            }
        } else {
            assert(before_entry(sb, j, sa[p].0.key()));
        }
    }
    assert forall|p: int| 0 <= p < j2 implies #[trigger] sb[p].0.key() <= x.key() by {
        if tb {
            if p < j {
                assert(sb[p].0.key() < sb[j].0.key());
            }
        } else {
            assert(before_entry(sa, i, sb[p].0.key()));
        }
    }
    assert forall|p: int| i2 <= p < sa.len() implies x.key() < #[trigger] sa[p].0.key() by {
        if ta {
            assert(sa[i].0.key() < sa[p].0.key());
        } else if i < p {
            assert(sa[i].0.key() < sa[p].0.key());
        }
    }
    assert forall|p: int| j2 <= p < sb.len() implies x.key() < #[trigger] sb[p].0.key() by {
        if tb {
            assert(sb[j].0.key() < sb[p].0.key());
        } else if j < p {
            assert(sb[j].0.key() < sb[p].0.key());
        }
    }
    assert(keys_ascending(out2)) by {
        assert forall|p: int, q: int| 0 <= p < q < out2.len() implies #[trigger] out2[p].0.key() < #[trigger] out2[q].0.key() by {
            if q == out.len() {
                assert(out2[p] == out[p]);
            } else {
                assert(out2[p] == out[p] && out2[q] == out[q]);
            }
        }
    }
    assert forall|p: int| 0 <= p < out2.len() implies before_entry(sa, i2, #[trigger] out2[p].0.key()) && before_entry(sb, j2, out2[p].0.key()) by {
        if p < out.len() {
            assert(out2[p] == out[p]);
        }
    }
    assert forall|k: K| before_entry(sa, i2, #[trigger] k.key()) && before_entry(sb, j2, k.key()) implies combined_at(
        last_map(sa),
        last_map(sb),
        last_map(out2),
        f,
        k,
    ) by {
        lemma_has(sa, k);
        lemma_has(sb, k);
        lemma_has(out, k);
        if k.key() < x.key() {
            assert(before_entry(sa, i, k.key()) && before_entry(sb, j, k.key()));
            assert(k != x);
        } else {
            assert forall|p: int| 0 <= p < out.len() implies #[trigger] out[p].0 != k by {}
            assert forall|p: int| 0 <= p < sa.len() && #[trigger] sa[p].0 == k implies ta && p == i && k == x by {
                if p >= i2 {
                } else if !(ta && p == i) {
                    if ta {
                        assert(sa[p].0.key() < sa[i].0.key());
                    } else {
                        assert(before_entry(sb, j, sa[p].0.key()));
                        if tb {
                            assert(sb[j].0 == x);
                        }
                    }
                }
            }
            assert forall|p: int| 0 <= p < sb.len() && #[trigger] sb[p].0 == k implies tb && p == j && k == x by {
                if p >= j2 {
                } else if !(tb && p == j) {
                    if tb {
                        assert(sb[p].0.key() < sb[j].0.key());
                    } else {
                        assert(before_entry(sa, i, sb[p].0.key()));
                        if ta {
                            assert(sa[i].0 == x);
                        }
                    }
                }
            }
            if k.key() == x.key() {
                K::lemma_key_injective(k, x);
                if ta {
                    assert(last_map(sa)[sa[i].0] == sa[i].1);
                    assert(last_map(sa).dom().contains(k));
                }
                if tb {
                    assert(last_map(sb)[sb[j].0] == sb[j].1);
                    assert(last_map(sb).dom().contains(k));
                }
            } else {
                assert(k != x);
                assert(!last_map(sa).dom().contains(k));
                assert(!last_map(sb).dom().contains(k));
            }
        }
    }
}

impl<K: SortKey, V: Copy> ArrayMap<K, V> {
    /// Stores `value` under `key`, and gives back the value that was stored there, if any.
    pub fn insert(&mut self, key: K, value: V) -> (r: Option<V>)
        requires
            old(self).ascending(),
        ensures
            final(self).ascending(),
            final(self)@ == old(self)@.insert(key, value),
            r == (if old(self)@.dom().contains(key) {
                Some(old(self)@[key])
            } else {
                None
            }),
    {
        proof {
            lemma_lookup(self.0@);
            lemma_map_doms(self.0@);
        }
        let ghost s = self.0@;
        match search_entries(self.0.as_slice(), &key) {
            Ok(i) => {
                let old_value = self.0[i].1;
                let mut v: Vec<(K, V)> = Vec::new();
                std::mem::swap(&mut v, &mut self.0);
                v.set(i, (key, value));
                proof {
                    lemma_overwrite(s, i as int, value);
                    assert(v@ == s.update(i as int, (key, value)));
                }
                self.0 = v;
                Some(old_value)
            },
            Err(i) => {
                let mut v: Vec<(K, V)> = Vec::new();
                std::mem::swap(&mut v, &mut self.0);
                v.insert(i, (key, value));
                proof {
                    assert(keys_ascending(v@)) by {
                        assert forall|p: int, q: int| 0 <= p < q < v@.len() implies #[trigger] v@[p].0.key() < #[trigger] v@[q].0.key() by {
                            if p < i && q < i {
                                assert(s[p].0.key() < s[q].0.key());
                            } else if p < i && q > i {
                                assert(s[p].0.key() < s[q - 1].0.key());
                            } else if p > i {
                                assert(s[p - 1].0.key() < s[q - 1].0.key());
                            }
                        }
                    }
                    lemma_lookup(v@);
                    lemma_map_doms(v@);
                    assert forall|k: K| #[trigger] key_dom(v@).contains(k) == (key_dom(s).contains(k) || k == key) by {
                        if key_dom(s).contains(k) {
                            let p = choose|p: int| 0 <= p < s.len() && #[trigger] s[p].0 == k;
                            if p < i {
                                assert(v@[p].0 == k);
                            } else {
                                assert(v@[p + 1].0 == k);
                            }
                        }
                        if key_dom(v@).contains(k) {
                            let p = choose|p: int| 0 <= p < v@.len() && #[trigger] v@[p].0 == k;
                            if p < i {
                                assert(s[p].0 == k);
                            } else if p > i {
                                assert(s[p - 1].0 == k);
                            }
                        }
                        if k == key {
                            assert(v@[i as int].0 == k);
                        }
                    }
                    assert forall|k: K| #[trigger] last_map(v@).dom().contains(k) implies last_map(v@)[k] == last_map(s).insert(key, value)[k] by {
                        let p = choose|p: int| 0 <= p < v@.len() && #[trigger] v@[p].0 == k;
                        assert(last_map(v@)[v@[p].0] == v@[p].1);
                        if p < i {
                            assert(last_map(s)[s[p].0] == s[p].1);
                        } else if p > i {
                            assert(last_map(s)[s[p - 1].0] == s[p - 1].1);
                        }
                    }
                    assert(last_map(v@) =~= last_map(s).insert(key, value));
                }
                self.0 = v;
                None
            },
        }
    }

    /// Adds the entries of `that`; where both maps have a key, the value becomes what `f` gives
    /// for the value of `self` and that of `that`.
    pub fn combine_with<F: Fn(V, V) -> V>(&mut self, that: ArrayMap<K, V>, f: F)
        requires
            old(self).ascending(),
            that.ascending(),
            forall|a: V, b: V| #[trigger] f.requires((a, b)),
        ensures
            final(self).ascending(),
            forall|k: K| #[trigger] combined_at(old(self)@, that@, final(self)@, f, k),
    {
        proof {
        }
        let ghost sa = self.0@;
        let ghost sb = that.0@;
        let a = self.0.as_slice();
        let b = that.0.as_slice();
        proof {
            assert forall|k: K| before_entry(sa, 0, #[trigger] k.key()) && before_entry(sb, 0, k.key()) implies combined_at(
                last_map(sa),
                last_map(sb),
                last_map(Seq::<(K, V)>::empty()),
                f,
                k,
            ) by {
                lemma_has(sa, k);
                lemma_has(sb, k);
                assert forall|p: int| 0 <= p < sa.len() implies #[trigger] sa[p].0 != k by {
                    if p > 0 {
                        assert(sa[0].0.key() < sa[p].0.key());
                    }
                }
                assert forall|p: int| 0 <= p < sb.len() implies #[trigger] sb[p].0 != k by {
                    if p > 0 {
                        assert(sb[0].0.key() < sb[p].0.key());
                    }
                }
            }
        }
        let mut out: Vec<(K, V)> = Vec::new();
        let mut i: usize = 0;
        let mut j: usize = 0;
        while i < a.len() || j < b.len()
            invariant
                a@ == sa,
                b@ == sb,
                combined(sa, i as int, sb, j as int, out@, f),
                forall|x: V, y: V| #[trigger] f.requires((x, y)),
            decreases sa.len() + sb.len() - i - j,
        {
            let ghost o = out@;
            let mut ta = true;
            let mut tb = true;
            if i == a.len() {
                ta = false;
            } else if j == b.len() {
                tb = false;
            } else if a[i].0.key_lt(&b[j].0) {
                tb = false;
            } else if b[j].0.key_lt(&a[i].0) {
                ta = false;
            }
            let x = if ta { a[i].0 } else { b[j].0 };
            let v = if ta && tb {
                f(a[i].1, b[j].1)
            } else if ta {
                a[i].1
            } else {
                b[j].1
            };
            proof {
                if ta && tb {
                    K::lemma_key_injective(sa[i as int].0, sb[j as int].0);
                }
                lemma_combined_step(sa, i as int, sb, j as int, o, f, ta, tb, x, v);
            }
            out.push((x, v));
            if ta {
                i = i + 1;
            }
            if tb {
                j = j + 1;
            }
        }
        proof {
            assert forall|k: K| #[trigger] combined_at(last_map(sa), last_map(sb), last_map(out@), f, k) by {
                assert(before_entry(sa, sa.len() as int, k.key()) && before_entry(sb, sb.len() as int, k.key()));
            }
        }
        self.0 = out;
    }
}

impl<K: SortKey, V: Copy> ArrayMap<K, V> {
    /// Adds the entries of `that`; where both maps have a key, the value of `that` wins.
    pub fn merge_with(&mut self, that: ArrayMap<K, V>)
        requires
            old(self).ascending(),
            that.ascending(),
        ensures
            final(self).ascending(),
            final(self)@ == old(self)@.union_prefer_right(that@),
    {
        let ghost tv = that@;
        self.combine_with(that, second::<V>);
        proof {
            assert forall|k: K| #[trigger] self@.dom().contains(k) implies self@[k] == old(self)@.union_prefer_right(tv)[k] by {
                assert(combined_at(old(self)@, tv, self@, second::<V>, k));
                if old(self)@.dom().contains(k) && tv.dom().contains(k) {
                    assert(second::<V>.ensures((old(self)@[k], tv[k]), self@[k]));
                }
            }
            assert forall|k: K| #[trigger] self@.dom().contains(k) == old(self)@.union_prefer_right(tv).dom().contains(k) by {
                assert(combined_at(old(self)@, tv, self@, second::<V>, k));
            }
            assert(self@ =~= old(self)@.union_prefer_right(tv));
        }
    }
}

} // verus!

//! A total map: an array map together with a default value, so that every key has a value.
//!
//! Only the keys whose value differs from the default are stored, so a total map has exactly
//! one representation.
use vstd::prelude::*;
use crate::key::SortKey;
use crate::array_map::{ArrayMap, lemma_lookup};
use crate::dedup::{keys_ascending, last_map, key_dom, lemma_map_doms};

verus! {

/// The value of `k` in `m`, and `d` where `m` has none.
pub open spec fn lookup_or<K, V>(m: Map<K, V>, k: K, d: V) -> V {
    if m.dom().contains(k) {
        m[k]
    } else {
        d
    }
}

/// A key `x` comes before the entry `s[i]`, if there is one.
spec fn below<K: SortKey, V>(s: Seq<(K, V)>, i: int, x: int) -> bool {
    0 <= i < s.len() ==> x < s[i].0.key()
}

/// With ascending keys, the map of the entries has `k` exactly when some entry has.
proof fn lemma_has<K: SortKey, V>(s: Seq<(K, V)>, k: K)
    requires
        keys_ascending(s),
    ensures
        last_map(s).dom().contains(k) <==> exists|p: int| 0 <= p < s.len() && #[trigger] s[p].0 == k,
{
    lemma_lookup(s);
    lemma_map_doms(s);
    assert(key_dom(s).contains(k) == exists|p: int| 0 <= p < s.len() && #[trigger] s[p].0 == k);
}

/// A map from keys to values in which every key has a value: the stored mappings, and the
/// default for every other key.
#[derive(Debug)]
pub struct TotalArrayMap<K: SortKey, V: SortKey> {
    map: ArrayMap<K, V>,
    default: V,
}

impl<K: SortKey, V: SortKey> TotalArrayMap<K, V> {
    /// No stored mapping has the default value.
    #[verifier::type_invariant]
    pub closed spec fn canonical(self) -> bool {
        &&& self.map.ascending()
        &&& forall|k: K| #[trigger] self.map@.dom().contains(k) ==> self.map@[k] != self.default
    }

    /// The value of `k`.
    pub closed spec fn at(&self, k: K) -> V {
        lookup_or(self.map@, k, self.default)
    }

    /// The value of every key without a stored mapping.
    pub closed spec fn default_value(&self) -> V {
        self.default
    }

    /// The stored mappings: those whose value differs from the default.
    pub closed spec fn mappings(&self) -> Map<K, V> {
        self.map@
    }

    /// The total map of `map`, with `default` for every key that `map` lacks. Mappings of
    /// `map` to the default are not stored.
    pub fn new(map: ArrayMap<K, V>, default: V) -> (r: Self)
        requires
            map.ascending(),
        ensures
            r.default_value() == default,
            forall|k: K| #[trigger] r.at(k) == lookup_or(map@, k, default),
    {
        let s = map.as_slice();
        let ghost gs = s@;
        proof {
            map.lemma_entries();
        }
        let mut out: Vec<(K, V)> = Vec::new();
        let mut i: usize = 0;
        while i < s.len()
            invariant
                gs == s@,
                keys_ascending(gs),
                map@ == last_map(gs),
                i <= gs.len(),
                keys_ascending(out@),
                forall|p: int| 0 <= p < out@.len() ==> below(gs, i as int, #[trigger] out@[p].0.key()),
                forall|p: int| 0 <= p < out@.len() ==> #[trigger] out@[p].1 != default,
                forall|k: K| below(gs, i as int, #[trigger] k.key()) ==> lookup_or(last_map(out@), k, default)
                    == lookup_or(map@, k, default),
            decreases gs.len() - i,
        {
            let e = s[i];
            let ghost o = out@;
            if !e.1.key_eq(&default) {
                out.push(e);
            }
            proof {
                V::lemma_key_injective(e.1, default);
                lemma_lookup(gs);
                lemma_lookup(o);
                lemma_lookup(out@);
                assert forall|k: K| below(gs, i + 1, #[trigger] k.key()) implies lookup_or(last_map(out@), k, default)
                    == lookup_or(map@, k, default) by {
                    lemma_has(gs, k);
                    lemma_has(o, k);
                    lemma_has(out@, k);
                    if k.key() < gs[i as int].0.key() {
                        assert(below(gs, i as int, k.key()));
                        if out@.len() > o.len() {
                            assert(out@ == o.push(e));
                            assert(last_map(out@) == last_map(o).insert(e.0, e.1)) by {
                                assert(out@.drop_last() =~= o);
                            }
                        }
                    } else {
                        if k.key() == gs[i as int].0.key() {
                            K::lemma_key_injective(k, gs[i as int].0);
                        }
                        assert forall|p: int| 0 <= p < gs.len() && #[trigger] gs[p].0 == k implies p == i by {
                            if p < i {
                                assert(gs[p].0.key() < gs[i as int].0.key());
                            } else if p > i {
                                assert(gs[i as int].0.key() < gs[p].0.key());
                            }
                        }
                        assert forall|p: int| 0 <= p < o.len() implies #[trigger] o[p].0 != k by {
                            assert(below(gs, i as int, o[p].0.key()));
                        }
                        if out@.len() > o.len() {
                            assert(out@.drop_last() =~= o);
                            assert(last_map(out@) == last_map(o).insert(e.0, e.1));
                        }
                    }
                }
                assert(keys_ascending(out@)) by {
                    assert forall|p: int, q: int| 0 <= p < q < out@.len() implies #[trigger] out@[p].0.key() < #[trigger] out@[q].0.key() by {
                        if q == o.len() {
                            assert(below(gs, i as int, o[p].0.key()));
                        } else {
                            assert(out@[p] == o[p] && out@[q] == o[q]);
                        }
                    }
                }
                assert forall|p: int| 0 <= p < out@.len() implies below(gs, i + 1, #[trigger] out@[p].0.key()) by {
                    if p < o.len() {
                        assert(out@[p] == o[p]);
                        assert(below(gs, i as int, o[p].0.key()));
                        if i + 1 < gs.len() {
                            assert(gs[i as int].0.key() < gs[i + 1].0.key());
                        }
                    } else if i + 1 < gs.len() {
                        assert(gs[i as int].0.key() < gs[i + 1].0.key());
                    }
                }
                assert forall|p: int| 0 <= p < out@.len() implies #[trigger] out@[p].1 != default by {
                    if p < o.len() {
                        assert(out@[p] == o[p]);
                    }
                }
            }
            i = i + 1;
        }
        let ghost om = out@;
        let m = ArrayMap::from_sorted_vec(out);
        proof {
            lemma_lookup(om);
            assert forall|k: K| #[trigger] m@.dom().contains(k) implies m@[k] != default by {
                lemma_has(om, k);
                let p = choose|p: int| 0 <= p < om.len() && #[trigger] om[p].0 == k;
                assert(m@[om[p].0] == om[p].1);
            }
        }
        let r = TotalArrayMap { map: m, default };
        proof {
            assert forall|k: K| #[trigger] r.at(k) == lookup_or(map@, k, default) by {
                assert(below(gs, gs.len() as int, k.key()));
            }
        }
        r
    }
}

/// The state of a merge of the entries `sa` and `sb` of two total maps with defaults `d1` and
/// `d2` into `out`, with `rd` the combination of the defaults: every key before the entries
/// that remain has in `out` (or, missing there, as `rd`) an outcome of `f` on its two values.
spec fn combined<K: SortKey, V: SortKey, F: Fn(&V, &V) -> V>(
    sa: Seq<(K, V)>,
    i: int,
    sb: Seq<(K, V)>,
    j: int,
    out: Seq<(K, V)>,
    d1: V,
    d2: V,
    rd: V,
    f: F,
) -> bool {
    &&& 0 <= i <= sa.len()
    &&& 0 <= j <= sb.len()
    &&& keys_ascending(sa)
    &&& keys_ascending(sb)
    &&& keys_ascending(out)
    &&& f.ensures((&d1, &d2), rd)
    &&& forall|p: int| 0 <= p < out.len() ==> below(sa, i, #[trigger] out[p].0.key()) && below(sb, j, out[p].0.key())
    &&& forall|p: int| 0 <= p < out.len() ==> #[trigger] out[p].1 != rd
    &&& forall|p: int| 0 <= p < i ==> below(sb, j, #[trigger] sa[p].0.key())
    &&& forall|p: int| 0 <= p < j ==> below(sa, i, #[trigger] sb[p].0.key())
    &&& forall|k: K|
        below(sa, i, #[trigger] k.key()) && below(sb, j, k.key()) ==> f.ensures(
            (&lookup_or(last_map(sa), k, d1), &lookup_or(last_map(sb), k, d2)),
            lookup_or(last_map(out), k, rd),
        )
}

/// One step of the merge: the entries with the smallest next key `x` are taken from `sa`, from
/// `sb` or from both, and `v` is what `f` gave for them.
proof fn lemma_combine_step<K: SortKey, V: SortKey, F: Fn(&V, &V) -> V>(
    sa: Seq<(K, V)>,
    i: int,
    sb: Seq<(K, V)>,
    j: int,
    out: Seq<(K, V)>,
    d1: V,
    d2: V,
    rd: V,
    f: F,
    ta: bool,
    tb: bool,
    x: K,
    v: V,
)
    requires
        combined(sa, i, sb, j, out, d1, d2, rd, f),
        ta || tb,
        ta ==> i < sa.len() && sa[i].0 == x,
        tb ==> j < sb.len() && sb[j].0 == x,
        !ta ==> below(sa, i, x.key()),
        !tb ==> below(sb, j, x.key()),
        f.ensures((&(if ta { sa[i].1 } else { d1 }), &(if tb { sb[j].1 } else { d2 })), v),
    ensures
        combined(
            sa,
            if ta { i + 1 } else { i },
            sb,
            if tb { j + 1 } else { j },
            if v != rd { out.push((x, v)) } else { out },
            d1,
            d2,
            rd,
            f,
        ),
{
    let i2 = if ta { i + 1 } else { i };
    let j2 = if tb { j + 1 } else { j };
    let out2 = if v != rd { out.push((x, v)) } else { out };
    lemma_lookup(sa);
    lemma_lookup(sb);
    lemma_lookup(out);
    lemma_lookup(out2);
    assert(forall|p: int| 0 <= p < out.len() ==> #[trigger] out[p].0.key() < x.key());
    assert forall|p: int| 0 <= p < i2 implies #[trigger] sa[p].0.key() <= x.key() by {
        if ta {
            if p < i {
                assert(sa[p].0.key() < sa[i].0.key());
            }
        } else {
            assert(below(sb, j, sa[p].0.key()));
        }
    }
    assert forall|p: int| 0 <= p < j2 implies #[trigger] sb[p].0.key() <= x.key() by {
        if tb {
            if p < j {
                assert(sb[p].0.key() < sb[j].0.key());
            }
        } else {
            assert(below(sa, i, sb[p].0.key()));
        }
    }
    assert forall|p: int| i2 <= p < sa.len() implies x.key() < #[trigger] sa[p].0.key() by {
        if ta {
            assert(sa[i].0.key() < sa[p].0.key());
        } else if i < p {
            assert(sa[i].0.key() < sa[p].0.key());
        }
    }
    assert forall|p: int| j2 <= p < sb.len() implies x.key() < #[trigger] sb[p].0.key() by {
        if tb {
            assert(sb[j].0.key() < sb[p].0.key());
        } else if j < p {
            assert(sb[j].0.key() < sb[p].0.key());
        }
    }
    if v != rd {
        assert(out2.drop_last() =~= out);
        assert(last_map(out2) == last_map(out).insert(x, v));
        assert(keys_ascending(out2)) by {
            assert forall|p: int, q: int| 0 <= p < q < out2.len() implies #[trigger] out2[p].0.key() < #[trigger] out2[q].0.key() by {
                if q == out.len() {
                    assert(out2[p] == out[p]);
                } else {
                    assert(out2[p] == out[p] && out2[q] == out[q]);
                }
            }
        }
    }
    assert forall|p: int| 0 <= p < out2.len() implies below(sa, i2, #[trigger] out2[p].0.key()) && below(sb, j2, out2[p].0.key()) by {
        if p < out.len() {
            assert(out2[p] == out[p]);
        }
    }
    assert forall|p: int| 0 <= p < out2.len() implies #[trigger] out2[p].1 != rd by {
        if p < out.len() {
            assert(out2[p] == out[p]);
        }
    }
    assert forall|k: K| below(sa, i2, #[trigger] k.key()) && below(sb, j2, k.key()) implies f.ensures(
        (&lookup_or(last_map(sa), k, d1), &lookup_or(last_map(sb), k, d2)),
        lookup_or(last_map(out2), k, rd),
    ) by {
        lemma_has(sa, k);
        lemma_has(sb, k);
        lemma_has(out, k);
        if k.key() < x.key() {
            assert(below(sa, i, k.key()) && below(sb, j, k.key()));
            if v != rd {
                assert(k != x);
            }
        } else {
            assert forall|p: int| 0 <= p < out.len() implies #[trigger] out[p].0 != k by {}
            assert forall|p: int| 0 <= p < sa.len() && #[trigger] sa[p].0 == k implies ta && p == i && k == x by {
                if p >= i2 {
                } else if !(ta && p == i) {
                    if ta {
                        assert(sa[p].0.key() < sa[i].0.key());
                    } else {
                        assert(below(sb, j, sa[p].0.key()));
                        if tb {
                            assert(sb[j].0 == x);
                        }
                    }
                }
            }
            assert forall|p: int| 0 <= p < sb.len() && #[trigger] sb[p].0 == k implies tb && p == j && k == x by {
                if p >= j2 {
                } else if !(tb && p == j) {
                    if tb {
                        assert(sb[p].0.key() < sb[j].0.key());
                    } else {
                        assert(below(sa, i, sb[p].0.key()));
                        if ta {
                            assert(sa[i].0 == x);
                        }
                    }
                }
            }
            if k.key() == x.key() {
                K::lemma_key_injective(k, x);
                if ta {
                    assert(last_map(sa)[sa[i].0] == sa[i].1);
                }
                if tb {
                    assert(last_map(sb)[sb[j].0] == sb[j].1);
                }
                if v == rd {
                    assert(!last_map(out2).dom().contains(k));
                }
            } else {
                if v != rd {
                    assert(k != x);
                }
                assert(!last_map(sa).dom().contains(k));
                assert(!last_map(sb).dom().contains(k));
            }
        }
    }
}

impl<K: SortKey, V: SortKey> TotalArrayMap<K, V> {
    /// The map whose value at each key is what `f` gives for the values of `self` and `that`
    /// there.
    pub fn combine_ref<F: Fn(&V, &V) -> V>(&self, that: &Self, f: F) -> (r: Self)
        requires
            forall|a: &V, b: &V| #[trigger] f.requires((a, b)),
        ensures
            f.ensures((&self.default_value(), &that.default_value()), r.default_value()),
            forall|k: K| f.ensures((&self.at(k), &that.at(k)), #[trigger] r.at(k)),
    {
        proof {
            use_type_invariant(self);
            use_type_invariant(that);
        }
        let rd = f(&self.default, &that.default);
        let a = self.map.as_slice();
        let b = that.map.as_slice();
        let ghost sa = a@;
        let ghost sb = b@;
        proof {
            self.map.lemma_entries();
            that.map.lemma_entries();
            assert forall|k: K| below(sa, 0, #[trigger] k.key()) && below(sb, 0, k.key()) implies f.ensures(
                (&lookup_or(last_map(sa), k, self.default), &lookup_or(last_map(sb), k, that.default)),
                lookup_or(last_map(Seq::<(K, V)>::empty()), k, rd),
            ) by {
                lemma_has(sa, k);
                lemma_has(sb, k);
                assert forall|p: int| 0 <= p < sa.len() implies #[trigger] sa[p].0 != k by {
                    if p > 0 {
                        assert(sa[0].0.key() < sa[p].0.key());
                    }
                }
                assert forall|p: int| 0 <= p < sb.len() implies #[trigger] sb[p].0 != k by {
                    if p > 0 {
                        assert(sb[0].0.key() < sb[p].0.key());
                    }
                }
            }
        }
        let mut out: Vec<(K, V)> = Vec::new();
        let mut i: usize = 0;
        let mut j: usize = 0;
        while i < a.len() || j < b.len()
            invariant
                a@ == sa,
                b@ == sb,
                combined(sa, i as int, sb, j as int, out@, self.default, that.default, rd, f),
                forall|x: &V, y: &V| #[trigger] f.requires((x, y)),
            decreases sa.len() + sb.len() - i - j,
        {
            let ghost o = out@;
            let mut ta = true;
            let mut tb = true;
            if i == a.len() {
                ta = false;
            } else if j == b.len() {
                tb = false;
            } else if a[i].0.key_lt(&b[j].0) {
                tb = false;
            } else if b[j].0.key_lt(&a[i].0) {
                ta = false;
            }
            let x = if ta { a[i].0 } else { b[j].0 };
            let va = if ta { a[i].1 } else { self.default };
            let vb = if tb { b[j].1 } else { that.default };
            let v = f(&va, &vb);
            proof {
                if ta && tb {
                    K::lemma_key_injective(sa[i as int].0, sb[j as int].0);
                }
            }
            let keep = !v.key_eq(&rd);
            proof {
                V::lemma_key_injective(v, rd);
                lemma_combine_step(sa, i as int, sb, j as int, o, self.default, that.default, rd, f, ta, tb, x, v);
            }
            if keep {
                out.push((x, v));
            }
            if ta {
                i = i + 1;
            }
            if tb {
                j = j + 1;
            }
        }
        let ghost om = out@;
        let m = ArrayMap::from_sorted_vec(out);
        proof {
            lemma_lookup(om);
            assert forall|k: K| #[trigger] m@.dom().contains(k) implies m@[k] != rd by {
                lemma_has(om, k);
                let p = choose|p: int| 0 <= p < om.len() && #[trigger] om[p].0 == k;
                assert(m@[om[p].0] == om[p].1);
            }
        }
        let r = TotalArrayMap { map: m, default: rd };
        proof {
            assert forall|k: K| f.ensures((&self.at(k), &that.at(k)), #[trigger] r.at(k)) by {
                assert(below(sa, sa.len() as int, k.key()) && below(sb, sb.len() as int, k.key()));
            }
        }
        r
    }
}

/// The larger of two values.
fn larger_ref<V: SortKey>(a: &V, b: &V) -> (r: V)
    ensures
        r == (if a.key() < b.key() {
            *b
        } else {
            *a
        }),
{
    if a.key_lt(b) {
        b.copied()
    } else {
        a.copied()
    }
}

/// The smaller of two values.
fn smaller_ref<V: SortKey>(a: &V, b: &V) -> (r: V)
    ensures
        r == (if b.key() < a.key() {
            *b
        } else {
            *a
        }),
{
    if b.key_lt(a) {
        b.copied()
    } else {
        a.copied()
    }
}

impl<K: SortKey, V: SortKey> TotalArrayMap<K, V> {
    /// The map with `value` at every key.
    pub fn constant(value: V) -> (r: Self)
        ensures
            r.default_value() == value,
            forall|k: K| #[trigger] r.at(k) == value,
    {
        let m = ArrayMap::empty();
        TotalArrayMap { map: m, default: value }
    }

    /// The stored mappings: those whose value differs from the default.
    pub fn non_default_mappings(&self) -> (r: &ArrayMap<K, V>)
        ensures
            r.ascending(),
            r@ == self.mappings(),
            forall|k: K| #[trigger] r@.dom().contains(k) ==> r@[k] != self.default_value(),
            forall|k: K| #[trigger] self.at(k) == lookup_or(r@, k, self.default_value()),
    {
        proof {
            use_type_invariant(self);
        }
        &self.map
    }

    /// The value of `key`.
    pub fn index(&self, key: &K) -> (r: &V)
        ensures
            *r == self.at(*key),
    {
        proof {
            use_type_invariant(self);
        }
        match self.map.get(key) {
            Some(v) => v,
            None => &self.default,
        }
    }

    /// The map whose value at each key is the larger of the values of `self` and `that`.
    pub fn supremum(&self, that: &Self) -> (r: Self)
        ensures
            forall|k: K| #[trigger] r.at(k) == (if self.at(k).key() < that.at(k).key() {
                that.at(k)
            } else {
                self.at(k)
            }),
    {
        let r = self.combine_ref(that, larger_ref::<V>);
        proof {
            assert forall|k: K| #[trigger] r.at(k) == (if self.at(k).key() < that.at(k).key() {
                that.at(k)
            } else {
                self.at(k)
            }) by {
                assert(larger_ref::<V>.ensures((&self.at(k), &that.at(k)), r.at(k)));
            }
        }
        r
    }

    /// The map whose value at each key is the smaller of the values of `self` and `that`.
    pub fn infimum(&self, that: &Self) -> (r: Self)
        ensures
            forall|k: K| #[trigger] r.at(k) == (if that.at(k).key() < self.at(k).key() {
                that.at(k)
            } else {
                self.at(k)
            }),
    {
        let r = self.combine_ref(that, smaller_ref::<V>);
        proof {
            assert forall|k: K| #[trigger] r.at(k) == (if that.at(k).key() < self.at(k).key() {
                that.at(k)
            } else {
                self.at(k)
            }) by {
                assert(smaller_ref::<V>.ensures((&self.at(k), &that.at(k)), r.at(k)));
            }
        }
        r
    }

    /// The map whose value at each key is what `f` gives for the value of `self` there.
    pub fn map_values<W: SortKey, F: Fn(&V) -> W>(&self, f: F) -> (r: TotalArrayMap<K, W>)
        requires
            forall|a: &V| #[trigger] f.requires((a,)),
        ensures
            f.ensures((&self.default_value(),), r.default_value()),
            forall|k: K| f.ensures((&self.at(k),), #[trigger] r.at(k)),
    {
        proof {
            use_type_invariant(self);
        }
        let wd = f(&self.default);
        let s = self.map.as_slice();
        let ghost gs = s@;
        proof {
            self.map.lemma_entries();
        }
        let mut out: Vec<(K, W)> = Vec::new();
        let mut i: usize = 0;
        while i < s.len()
            invariant
                gs == s@,
                keys_ascending(gs),
                self.map@ == last_map(gs),
                i <= gs.len(),
                keys_ascending(out@),
                forall|a: &V| #[trigger] f.requires((a,)),
                f.ensures((&self.default,), wd),
                forall|p: int| 0 <= p < out@.len() ==> below(gs, i as int, #[trigger] out@[p].0.key()),
                forall|p: int| 0 <= p < out@.len() ==> #[trigger] out@[p].1 != wd,
                forall|k: K| below(gs, i as int, #[trigger] k.key()) ==> f.ensures(
                    (&lookup_or(self.map@, k, self.default),),
                    lookup_or(last_map(out@), k, wd),
                ),
            decreases gs.len() - i,
        {
            let e = s[i];
            let w = f(&e.1);
            let ghost o = out@;
            if !w.key_eq(&wd) {
                out.push((e.0, w));
            }
            proof {
                W::lemma_key_injective(w, wd);
                lemma_lookup(gs);
                lemma_lookup(o);
                lemma_lookup(out@);
                assert forall|k: K| below(gs, i + 1, #[trigger] k.key()) implies f.ensures(
                    (&lookup_or(self.map@, k, self.default),),
                    lookup_or(last_map(out@), k, wd),
                ) by {
                    lemma_has(gs, k);
                    lemma_has(o, k);
                    lemma_has(out@, k);
                    if k.key() < gs[i as int].0.key() {
                        assert(below(gs, i as int, k.key()));
                        if out@.len() > o.len() {
                            assert(out@.drop_last() =~= o);
                            assert(last_map(out@) == last_map(o).insert(e.0, w));
                        }
                    } else {
                        if k.key() == gs[i as int].0.key() {
                            K::lemma_key_injective(k, gs[i as int].0);
                        }
                        assert forall|p: int| 0 <= p < gs.len() && #[trigger] gs[p].0 == k implies p == i by {
                            if p < i {
                                assert(gs[p].0.key() < gs[i as int].0.key());
                            } else if p > i {
                                assert(gs[i as int].0.key() < gs[p].0.key());
                            }
                        }
                        assert forall|p: int| 0 <= p < o.len() implies #[trigger] o[p].0 != k by {
                            assert(below(gs, i as int, o[p].0.key()));
                        }
                        if out@.len() > o.len() {
                            assert(out@.drop_last() =~= o);
                            assert(last_map(out@) == last_map(o).insert(e.0, w));
                        }
                        if k == e.0 {
                            assert(last_map(gs)[gs[i as int].0] == gs[i as int].1);
                        }
                    }
                }
                assert(keys_ascending(out@)) by {
                    assert forall|p: int, q: int| 0 <= p < q < out@.len() implies #[trigger] out@[p].0.key() < #[trigger] out@[q].0.key() by {
                        if q == o.len() {
                            assert(below(gs, i as int, o[p].0.key()));
                        } else {
                            assert(out@[p] == o[p] && out@[q] == o[q]);
                        }
                    }
                }
                assert forall|p: int| 0 <= p < out@.len() implies below(gs, i + 1, #[trigger] out@[p].0.key()) by {
                    if p < o.len() {
                        assert(out@[p] == o[p]);
                        assert(below(gs, i as int, o[p].0.key()));
                        if i + 1 < gs.len() {
                            assert(gs[i as int].0.key() < gs[i + 1].0.key());
                        }
                    } else if i + 1 < gs.len() {
                        assert(gs[i as int].0.key() < gs[i + 1].0.key());
                    }
                }
                assert forall|p: int| 0 <= p < out@.len() implies #[trigger] out@[p].1 != wd by {
                    if p < o.len() {
                        assert(out@[p] == o[p]);
                    }
                }
            }
            i = i + 1;
        }
        let ghost om = out@;
        let m = ArrayMap::from_sorted_vec(out);
        proof {
            lemma_lookup(om);
            assert forall|k: K| #[trigger] m@.dom().contains(k) implies m@[k] != wd by {
                lemma_has(om, k);
                let p = choose|p: int| 0 <= p < om.len() && #[trigger] om[p].0 == k;
                assert(m@[om[p].0] == om[p].1);
            }
        }
        let r = TotalArrayMap { map: m, default: wd };
        proof {
            assert forall|k: K| f.ensures((&self.at(k),), #[trigger] r.at(k)) by {
                assert(below(gs, gs.len() as int, k.key()));
            }
        }
        r
    }

    /// A total map is determined by its values and its default: two with the same value at
    /// every key and the same default store the same mappings.
    pub proof fn lemma_canonical(a: Self, b: Self)
        requires
            a.canonical(),
            b.canonical(),
            a.default_value() == b.default_value(),
            forall|k: K| #[trigger] a.at(k) == b.at(k),
        ensures
            a.mappings() == b.mappings(),
    {
        assert forall|k: K| #[trigger] a.map@.dom().contains(k) == b.map@.dom().contains(k) by {
            assert(a.at(k) == b.at(k));
        }
        assert(a.map@ =~= b.map@) by {
            assert forall|k: K| #[trigger] a.map@.dom().contains(k) implies a.map@[k] == b.map@[k] by {
                assert(a.at(k) == b.at(k));
            }
        }
    }
}

impl<K: SortKey, V: SortKey> From<V> for TotalArrayMap<K, V> {
    /// The map with `value` at every key.
    fn from(value: V) -> (r: Self)
        ensures
            r.default_value() == value,
            forall|k: K| #[trigger] r.at(k) == value,
    {
        Self::constant(value)
    }
}

impl<K: SortKey, V: SortKey> vstd::std_specs::convert::FromSpecImpl<V> for TotalArrayMap<K, V> {
    /// The result is described by the `ensures` of `from` alone.
    open spec fn obeys_from_spec() -> bool {
        false
    }

    closed spec fn from_spec(v: V) -> Self {
        vstd::pervasive::arbitrary()
    }
}

} // verus!

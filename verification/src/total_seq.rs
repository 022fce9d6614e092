//! Sequences: finite ones, and total ones that hold a value at every index, namely an explicit
//! prefix followed by a default value repeated forever.
//!
//! A total sequence keeps no trailing element equal to its default, so that each sequence of
//! values has one representation.
use vstd::prelude::*;
use vstd::string::StringExecFns;
use std::ops::{Add, AddAssign, Div, Mul, Neg, Sub};
use vstd::std_specs::ops::{AddSpec, DivSpec, MulSpec, NegSpec, SubSpec};
use crate::key::SortKey;
use crate::text::TextKey;
use crate::interval_text::join_texts;

verus! {

/// A total sequence: `values`, then `default` at every later index.
#[derive(Debug)]
pub struct TotalVecSeq<T: SortKey> {
    default: T,
    values: Vec<T>,
}

/// The value at index `i` of the sequence made of `values` followed by `default`.
pub open spec fn value_at<T>(values: Seq<T>, default: T, i: int) -> T {
    if 0 <= i < values.len() {
        values[i]
    } else {
        default
    }
}

/// The prefix of `values` without the trailing elements equal to `default`.
pub open spec fn no_trailing_default<T: SortKey>(values: Seq<T>, default: T) -> bool {
    values.len() == 0 || values.last().key() != default.key()
}

/// `values` without its trailing elements equal to `default`.
fn trim_default<T: SortKey>(values: Vec<T>, default: &T) -> (r: Vec<T>)
    ensures
        no_trailing_default(r@, *default),
        forall|i: int| 0 <= i ==> #[trigger] value_at(r@, *default, i) == value_at(values@, *default, i),
        r@.len() <= values@.len(),
{
    let mut values = values;
    let ghost v0 = values@;
    let mut i = values.len();
    while i > 0 && values[i - 1].key_eq(default)
        invariant
            i <= v0.len(),
            values@ == v0,
            forall|j: int| i <= j < v0.len() ==> #[trigger] v0[j] == *default,
        decreases i,
    {
        proof {
            T::lemma_key_injective(v0[i - 1], *default);
        }
        i = i - 1;
    }
    values.truncate(i);
    proof {
        assert(values@ =~= v0.take(i as int));
        assert forall|j: int| 0 <= j implies #[trigger] value_at(values@, *default, j) == value_at(v0, *default, j) by {
            if j >= i && j < v0.len() {
                assert(v0[j] == *default);
            }
        }
    }
    values
}

impl<T: SortKey> TotalVecSeq<T> {
    /// The explicit prefix does not end with the default value.
    #[verifier::type_invariant]
    pub closed spec fn canonical(self) -> bool {
        no_trailing_default(self.values@, self.default)
    }

    /// A total sequence is determined by its values: two with the same default and the same
    /// value at every index have the same explicit prefix.
    pub proof fn lemma_canonical(a: Self, b: Self)
        requires
            a.canonical(),
            b.canonical(),
            a.default_value() == b.default_value(),
            forall|i: int| 0 <= i ==> #[trigger] a.at(i) == b.at(i),
        ensures
            a.prefix() == b.prefix(),
    {
        let s = a.values@;
        let t = b.values@;
        if s.len() < t.len() {
            assert(a.at(t.len() - 1) == b.at(t.len() - 1));
        } else if t.len() < s.len() {
            assert(a.at(s.len() - 1) == b.at(s.len() - 1));
        }
        assert forall|i: int| 0 <= i < s.len() implies s[i] == t[i] by {
            assert(a.at(i) == b.at(i));
        }
        assert(s =~= t);
    }

    /// The value at index `i`.
    pub closed spec fn at(&self, i: int) -> T {
        value_at(self.values@, self.default, i)
    }

    /// The value at every index past the explicit prefix.
    pub closed spec fn default_value(&self) -> T {
        self.default
    }

    /// The explicit prefix.
    pub closed spec fn prefix(&self) -> Seq<T> {
        self.values@
    }

    /// The sequence that holds `value` everywhere.
    pub fn constant(value: T) -> (r: Self)
        ensures
            r.default_value() == value,
            forall|i: int| 0 <= i ==> #[trigger] r.at(i) == value,
    {
        TotalVecSeq { default: value, values: Vec::new() }
    }

    /// The sequence `values` followed by `default` forever.
    pub fn new(values: Vec<T>, default: T) -> (r: Self)
        ensures
            r.default_value() == default,
            forall|i: int| 0 <= i ==> #[trigger] r.at(i) == value_at(values@, default, i),
    {
        let values = trim_default(values, &default);
        TotalVecSeq { default, values }
    }

    /// The value at index `index`.
    pub fn index(&self, index: usize) -> (r: T)
        ensures
            r == self.at(index as int),
    {
        if index < self.values.len() {
            self.values[index]
        } else {
            self.default
        }
    }

    /// The sequence of what `op` gives for the values of both sequences at each index.
    pub fn combine_ref<F: Fn(&T, &T) -> T>(&self, rhs: &Self, op: F) -> (r: Self)
        requires
            forall|i: int| 0 <= i ==> #[trigger] op.requires((&self.at(i), &rhs.at(i))),
        ensures
            op.ensures((&self.default_value(), &rhs.default_value()), r.default_value()),
            forall|i: int| 0 <= i ==> #[trigger] op.ensures((&self.at(i), &rhs.at(i)), r.at(i)),
    {
        let l = if self.values.len() < rhs.values.len() { rhs.values.len() } else { self.values.len() };
        proof {
            assert(self.at(l as int) == self.default && rhs.at(l as int) == rhs.default);
        }
        let default = op(&self.default, &rhs.default);
        let mut values: Vec<T> = Vec::with_capacity(l);
        let mut i: usize = 0;
        while i < l
            invariant
                i <= l,
                l == self.values@.len() || l == rhs.values@.len(),
                self.values@.len() <= l && rhs.values@.len() <= l,
                values@.len() == i,
                forall|j: int| 0 <= j ==> #[trigger] op.requires((&self.at(j), &rhs.at(j))),
                forall|j: int| 0 <= j < i ==> #[trigger] op.ensures((&self.at(j), &rhs.at(j)), values@[j]),
            decreases l - i,
        {
            let a = self.index(i);
            let b = rhs.index(i);
            let v = op(&a, &b);
            values.push(v);
            i = i + 1;
        }
        let r = TotalVecSeq::new(values, default);
        proof {
            assert forall|j: int| 0 <= j implies #[trigger] op.ensures((&self.at(j), &rhs.at(j)), r.at(j)) by {
                if j >= l {
                    assert(self.at(j) == self.default && rhs.at(j) == rhs.default);
                }
            }
        }
        r
    }

    /// The sequence of what `op` gives for the value at each index.
    pub fn map_ref<F: Fn(&T) -> T>(&self, op: F) -> (r: Self)
        requires
            forall|i: int| 0 <= i ==> #[trigger] op.requires((&self.at(i),)),
        ensures
            op.ensures((&self.default_value(),), r.default_value()),
            forall|i: int| 0 <= i ==> #[trigger] op.ensures((&self.at(i),), r.at(i)),
    {
        let l = self.values.len();
        proof {
            assert(self.at(l as int) == self.default);
        }
        let default = op(&self.default);
        let mut values: Vec<T> = Vec::with_capacity(l);
        let mut i: usize = 0;
        while i < l
            invariant
                i <= l,
                l == self.values@.len(),
                values@.len() == i,
                forall|j: int| 0 <= j ==> #[trigger] op.requires((&self.at(j),)),
                forall|j: int| 0 <= j < i ==> #[trigger] op.ensures((&self.at(j),), values@[j]),
            decreases l - i,
        {
            let a = self.values[i];
            assert(self.at(i as int) == a);
            let v = op(&a);
            values.push(v);
            i = i + 1;
        }
        let r = TotalVecSeq::new(values, default);
        proof {
            assert forall|j: int| 0 <= j implies #[trigger] op.ensures((&self.at(j),), r.at(j)) by {
                if j >= l {
                    assert(self.at(j) == self.default);
                }
            }
        }
        r
    }

    /// The sequence of what `op` gives for the values of both sequences at each index.
    pub fn combine<F: Fn(T, T) -> T>(self, rhs: Self, op: F) -> (r: Self)
        requires
            forall|i: int| 0 <= i ==> #[trigger] op.requires((self.at(i), rhs.at(i))),
        ensures
            op.ensures((self.default_value(), rhs.default_value()), r.default_value()),
            forall|i: int| 0 <= i ==> #[trigger] op.ensures((self.at(i), rhs.at(i)), r.at(i)),
    {
        let l = if self.values.len() < rhs.values.len() { rhs.values.len() } else { self.values.len() };
        proof {
            assert(self.at(l as int) == self.default && rhs.at(l as int) == rhs.default);
        }
        let default = op(self.default, rhs.default);
        let mut values: Vec<T> = Vec::with_capacity(l);
        let mut i: usize = 0;
        while i < l
            invariant
                i <= l,
                l == self.values@.len() || l == rhs.values@.len(),
                self.values@.len() <= l && rhs.values@.len() <= l,
                values@.len() == i,
                forall|j: int| 0 <= j ==> #[trigger] op.requires((self.at(j), rhs.at(j))),
                forall|j: int| 0 <= j < i ==> #[trigger] op.ensures((self.at(j), rhs.at(j)), values@[j]),
            decreases l - i,
        {
            let a = self.index(i);
            let b = rhs.index(i);
            let v = op(a, b);
            values.push(v);
            i = i + 1;
        }
        let r = TotalVecSeq::new(values, default);
        proof {
            assert forall|j: int| 0 <= j implies #[trigger] op.ensures((self.at(j), rhs.at(j)), r.at(j)) by {
                if j >= l {
                    assert(self.at(j) == self.default && rhs.at(j) == rhs.default);
                }
            }
        }
        r
    }

    /// The sequence of what `op` gives for the value at each index.
    pub fn map<F: Fn(T) -> T>(self, op: F) -> (r: Self)
        requires
            forall|i: int| 0 <= i ==> #[trigger] op.requires((self.at(i),)),
        ensures
            op.ensures((self.default_value(),), r.default_value()),
            forall|i: int| 0 <= i ==> #[trigger] op.ensures((self.at(i),), r.at(i)),
    {
        let l = self.values.len();
        proof {
            assert(self.at(l as int) == self.default);
        }
        let default = op(self.default);
        let mut values: Vec<T> = Vec::with_capacity(l);
        let mut i: usize = 0;
        while i < l
            invariant
                i <= l,
                l == self.values@.len(),
                values@.len() == i,
                forall|j: int| 0 <= j ==> #[trigger] op.requires((self.at(j),)),
                forall|j: int| 0 <= j < i ==> #[trigger] op.ensures((self.at(j),), values@[j]),
            decreases l - i,
        {
            assert(self.at(i as int) == self.values@[i as int]);
            let v = op(self.values[i]);
            values.push(v);
            i = i + 1;
        }
        let r = TotalVecSeq::new(values, default);
        proof {
            assert forall|j: int| 0 <= j implies #[trigger] op.ensures((self.at(j),), r.at(j)) by {
                if j >= l {
                    assert(self.at(j) == self.default);
                }
            }
        }
        r
    }

    /// The larger of the two values at each index.
    pub fn supremum(&self, that: &Self) -> (r: Self)
        ensures
            r.default_value() == if self.default_value().key() > that.default_value().key() {
                self.default_value()
            } else {
                that.default_value()
            },
            forall|i: int| 0 <= i ==> #[trigger] r.at(i) == if self.at(i).key() > that.at(i).key() {
                self.at(i)
            } else {
                that.at(i)
            },
    {
        let r = self.combine_ref(that, larger::<T>);
        proof {
            assert(larger::<T>.ensures((&self.default_value(), &that.default_value()), r.default_value()));
            assert forall|i: int| 0 <= i implies #[trigger] r.at(i) == if self.at(i).key() > that.at(i).key() { self.at(i) } else { that.at(i) } by {
                assert(larger::<T>.ensures((&self.at(i), &that.at(i)), r.at(i)));
            }
        }
        r
    }

    /// The smaller of the two values at each index.
    pub fn infimum(&self, that: &Self) -> (r: Self)
        ensures
            r.default_value() == if self.default_value().key() < that.default_value().key() {
                self.default_value()
            } else {
                that.default_value()
            },
            forall|i: int| 0 <= i ==> #[trigger] r.at(i) == if self.at(i).key() < that.at(i).key() {
                self.at(i)
            } else {
                that.at(i)
            },
    {
        let r = self.combine_ref(that, smaller::<T>);
        proof {
            assert(smaller::<T>.ensures((&self.default_value(), &that.default_value()), r.default_value()));
            assert forall|i: int| 0 <= i implies #[trigger] r.at(i) == if self.at(i).key() < that.at(i).key() { self.at(i) } else { that.at(i) } by {
                assert(smaller::<T>.ensures((&self.at(i), &that.at(i)), r.at(i)));
            }
        }
        r
    }
}

impl<T: TextKey> TotalVecSeq<T> {
    /// The text form: `TotalVecSeq([prefix values], default)`.
    pub fn to_text(&self) -> (r: String)
        ensures
            r@ == "TotalVecSeq(["@ + join_texts(self.prefix().map_values(|x: T| x.text()), ", "@) + "], "@
                + self.default_value().text() + ")"@,
    {
        let mut s = String::from_str("TotalVecSeq([");
        s.append(join_values(self.values.as_slice()).as_str());
        s.append("], ");
        s.append(self.default.to_text().as_str());
        s.append(")");
        s
    }
}

/// The text forms of `values` joined by `, `.
fn join_values<T: TextKey>(values: &[T]) -> (r: String)
    ensures
        r@ == join_texts(values@.map_values(|x: T| x.text()), ", "@),
{
    let mut s = String::new();
    let mut i: usize = 0;
    while i < values.len()
        invariant
            i <= values@.len(),
            s@ == join_texts(values@.take(i as int).map_values(|x: T| x.text()), ", "@),
        decreases values@.len() - i,
    {
        if i > 0 {
            s.append(", ");
        }
        s.append(values[i].to_text().as_str());
        proof {
            let m = values@.take(i + 1).map_values(|x: T| x.text());
            assert(m.drop_last() =~= values@.take(i as int).map_values(|x: T| x.text()));
        }
        i = i + 1;
    }
    assert(values@.take(i as int) =~= values@);
    s
}

/// The larger of two values.
fn larger<T: SortKey>(a: &T, b: &T) -> (r: T)
    ensures
        r == if a.key() > b.key() {
            *a
        } else {
            *b
        },
{
    if b.key_lt(a) {
        a.copied()
    } else {
        b.copied()
    }
}

/// The smaller of two values.
fn smaller<T: SortKey>(a: &T, b: &T) -> (r: T)
    ensures
        r == if a.key() < b.key() {
            *a
        } else {
            *b
        },
{
    if a.key_lt(b) {
        a.copied()
    } else {
        b.copied()
    }
}

/// `a + b` for the element type.
fn plus<T: Add<Output = T>>(a: T, b: T) -> (r: T)
    requires
        a.add_req(b),
    ensures
        T::obeys_add_spec() ==> r == a.add_spec(b),
{
    a.add(b)
}

impl<T: SortKey + Add<Output = T>> Add for TotalVecSeq<T> {
    type Output = TotalVecSeq<T>;

    /// The sum at every index.
    fn add(self, rhs: TotalVecSeq<T>) -> (r: TotalVecSeq<T>)
        ensures
            T::obeys_add_spec() ==> forall|i: int| 0 <= i ==> #[trigger] r.at(i) == self.at(i).add_spec(rhs.at(i)),
    {
        let ghost a = self;
        let ghost b = rhs;
        let r = self.combine(rhs, plus::<T>);
        proof {
            assert forall|i: int| 0 <= i && T::obeys_add_spec() implies #[trigger] r.at(i) == a.at(i).add_spec(b.at(i)) by {
                assert(plus::<T>.ensures((a.at(i), b.at(i)), r.at(i)));
            }
        }
        r
    }
}

impl<T: SortKey + Add<Output = T>> vstd::std_specs::ops::AddSpecImpl for TotalVecSeq<T> {
    /// The result is described by the `ensures` of `add` alone.
    open spec fn obeys_add_spec() -> bool {
        false
    }

    /// The element type allows the sum at every index.
    open spec fn add_req(self, rhs: TotalVecSeq<T>) -> bool {
        forall|i: int| 0 <= i ==> #[trigger] self.at(i).add_req(rhs.at(i))
    }

    open spec fn add_spec(self, rhs: TotalVecSeq<T>) -> TotalVecSeq<T> {
        self
    }
}

/// `a - b` for the element type.
fn minus<T: Sub<Output = T>>(a: T, b: T) -> (r: T)
    requires
        a.sub_req(b),
    ensures
        T::obeys_sub_spec() ==> r == a.sub_spec(b),
{
    a.sub(b)
}

impl<T: SortKey + Sub<Output = T>> Sub for TotalVecSeq<T> {
    type Output = TotalVecSeq<T>;

    /// The difference at every index.
    fn sub(self, rhs: TotalVecSeq<T>) -> (r: TotalVecSeq<T>)
        ensures
            T::obeys_sub_spec() ==> forall|i: int| 0 <= i ==> #[trigger] r.at(i) == self.at(i).sub_spec(rhs.at(i)),
    {
        let ghost a = self;
        let ghost b = rhs;
        let r = self.combine(rhs, minus::<T>);
        proof {
            assert forall|i: int| 0 <= i && T::obeys_sub_spec() implies #[trigger] r.at(i) == a.at(i).sub_spec(b.at(i)) by {
                assert(minus::<T>.ensures((a.at(i), b.at(i)), r.at(i)));
            }
        }
        r
    }
}

impl<T: SortKey + Sub<Output = T>> vstd::std_specs::ops::SubSpecImpl for TotalVecSeq<T> {
    /// The result is described by the `ensures` of `sub` alone.
    open spec fn obeys_sub_spec() -> bool {
        false
    }

    /// The element type allows the difference at every index.
    open spec fn sub_req(self, rhs: TotalVecSeq<T>) -> bool {
        forall|i: int| 0 <= i ==> #[trigger] self.at(i).sub_req(rhs.at(i))
    }

    open spec fn sub_spec(self, rhs: TotalVecSeq<T>) -> TotalVecSeq<T> {
        self
    }
}

/// `a * b` for the element type.
fn times<T: Mul<Output = T>>(a: T, b: T) -> (r: T)
    requires
        a.mul_req(b),
    ensures
        T::obeys_mul_spec() ==> r == a.mul_spec(b),
{
    a.mul(b)
}

impl<T: SortKey + Mul<Output = T>> Mul for TotalVecSeq<T> {
    type Output = TotalVecSeq<T>;

    /// The product at every index.
    fn mul(self, rhs: TotalVecSeq<T>) -> (r: TotalVecSeq<T>)
        ensures
            T::obeys_mul_spec() ==> forall|i: int| 0 <= i ==> #[trigger] r.at(i) == self.at(i).mul_spec(rhs.at(i)),
    {
        let ghost a = self;
        let ghost b = rhs;
        let r = self.combine(rhs, times::<T>);
        proof {
            assert forall|i: int| 0 <= i && T::obeys_mul_spec() implies #[trigger] r.at(i) == a.at(i).mul_spec(b.at(i)) by {
                assert(times::<T>.ensures((a.at(i), b.at(i)), r.at(i)));
            }
        }
        r
    }
}

impl<T: SortKey + Mul<Output = T>> vstd::std_specs::ops::MulSpecImpl for TotalVecSeq<T> {
    /// The result is described by the `ensures` of `mul` alone.
    open spec fn obeys_mul_spec() -> bool {
        false
    }

    /// The element type allows the product at every index.
    open spec fn mul_req(self, rhs: TotalVecSeq<T>) -> bool {
        forall|i: int| 0 <= i ==> #[trigger] self.at(i).mul_req(rhs.at(i))
    }

    open spec fn mul_spec(self, rhs: TotalVecSeq<T>) -> TotalVecSeq<T> {
        self
    }
}

/// `a / b` for the element type.
fn quotient<T: Div<Output = T>>(a: T, b: T) -> (r: T)
    requires
        a.div_req(b),
    ensures
        T::obeys_div_spec() ==> r == a.div_spec(b),
{
    a.div(b)
}

impl<T: SortKey + Div<Output = T>> Div for TotalVecSeq<T> {
    type Output = TotalVecSeq<T>;

    /// The quotient at every index.
    fn div(self, rhs: TotalVecSeq<T>) -> (r: TotalVecSeq<T>)
        ensures
            T::obeys_div_spec() ==> forall|i: int| 0 <= i ==> #[trigger] r.at(i) == self.at(i).div_spec(rhs.at(i)),
    {
        let ghost a = self;
        let ghost b = rhs;
        let r = self.combine(rhs, quotient::<T>);
        proof {
            assert forall|i: int| 0 <= i && T::obeys_div_spec() implies #[trigger] r.at(i) == a.at(i).div_spec(b.at(i)) by {
                assert(quotient::<T>.ensures((a.at(i), b.at(i)), r.at(i)));
            }
        }
        r
    }
}

impl<T: SortKey + Div<Output = T>> vstd::std_specs::ops::DivSpecImpl for TotalVecSeq<T> {
    /// The result is described by the `ensures` of `div` alone.
    open spec fn obeys_div_spec() -> bool {
        false
    }

    /// The element type allows the quotient at every index.
    open spec fn div_req(self, rhs: TotalVecSeq<T>) -> bool {
        forall|i: int| 0 <= i ==> #[trigger] self.at(i).div_req(rhs.at(i))
    }

    open spec fn div_spec(self, rhs: TotalVecSeq<T>) -> TotalVecSeq<T> {
        self
    }
}

/// `-a` for the element type.
fn negated<T: Neg<Output = T>>(a: T) -> (r: T)
    requires
        a.neg_req(),
    ensures
        T::obeys_neg_spec() ==> r == a.neg_spec(),
{
    a.neg()
}

impl<T: SortKey + Neg<Output = T>> Neg for TotalVecSeq<T> {
    type Output = TotalVecSeq<T>;

    /// The negation at every index.
    fn neg(self) -> (r: TotalVecSeq<T>)
        ensures
            T::obeys_neg_spec() ==> forall|i: int| 0 <= i ==> #[trigger] r.at(i) == self.at(i).neg_spec(),
    {
        let ghost a = self;
        let r = self.map(negated::<T>);
        proof {
            assert forall|i: int| 0 <= i && T::obeys_neg_spec() implies #[trigger] r.at(i) == a.at(i).neg_spec() by {
                assert(negated::<T>.ensures((a.at(i),), r.at(i)));
            }
        }
        r
    }
}

impl<T: SortKey + Neg<Output = T>> vstd::std_specs::ops::NegSpecImpl for TotalVecSeq<T> {
    /// The result is described by the `ensures` of `neg` alone.
    open spec fn obeys_neg_spec() -> bool {
        false
    }

    /// The element type allows the negation at every index.
    open spec fn neg_req(self) -> bool {
        forall|i: int| 0 <= i ==> #[trigger] self.at(i).neg_req()
    }

    open spec fn neg_spec(self) -> TotalVecSeq<T> {
        self
    }
}

impl<T: SortKey> From<T> for TotalVecSeq<T> {
    fn from(value: T) -> (r: TotalVecSeq<T>)
        ensures
            r.default_value() == value,
            forall|i: int| 0 <= i ==> #[trigger] r.at(i) == value,
    {
        Self::constant(value)
    }
}

impl<T: SortKey> vstd::std_specs::convert::FromSpecImpl<T> for TotalVecSeq<T> {
    /// The result is described by the `ensures` of `from` alone.
    open spec fn obeys_from_spec() -> bool {
        false
    }

    closed spec fn from_spec(v: T) -> Self {
        vstd::pervasive::arbitrary()
    }
}

/// A total sequence, kept in an array-like vector: `values`, then `default` at every later index.
#[derive(Debug)]
pub struct TotalArraySeq<T: SortKey> {
    default: T,
    values: Vec<T>,
}

impl<T: SortKey> TotalArraySeq<T> {
    /// The explicit prefix does not end with the default value.
    #[verifier::type_invariant]
    pub closed spec fn canonical(self) -> bool {
        no_trailing_default(self.values@, self.default)
    }

    /// A total sequence is determined by its values: two with the same default and the same
    /// value at every index have the same explicit prefix.
    pub proof fn lemma_canonical(a: Self, b: Self)
        requires
            a.canonical(),
            b.canonical(),
            a.default_value() == b.default_value(),
            forall|i: int| 0 <= i ==> #[trigger] a.at(i) == b.at(i),
        ensures
            a.prefix() == b.prefix(),
    {
        let s = a.values@;
        let t = b.values@;
        if s.len() < t.len() {
            assert(a.at(t.len() - 1) == b.at(t.len() - 1));
        } else if t.len() < s.len() {
            assert(a.at(s.len() - 1) == b.at(s.len() - 1));
        }
        assert forall|i: int| 0 <= i < s.len() implies s[i] == t[i] by {
            assert(a.at(i) == b.at(i));
        }
        assert(s =~= t);
    }

    /// The value at index `i`.
    pub closed spec fn at(&self, i: int) -> T {
        value_at(self.values@, self.default, i)
    }

    /// The value at every index past the explicit prefix.
    pub closed spec fn default_value(&self) -> T {
        self.default
    }

    /// The explicit prefix.
    pub closed spec fn prefix(&self) -> Seq<T> {
        self.values@
    }

    /// The sequence that holds `value` everywhere.
    pub fn constant(value: T) -> (r: Self)
        ensures
            r.default_value() == value,
            forall|i: int| 0 <= i ==> #[trigger] r.at(i) == value,
    {
        TotalArraySeq { default: value, values: Vec::new() }
    }

    /// The sequence `values` followed by `default` forever.
    pub fn new(values: Vec<T>, default: T) -> (r: Self)
        ensures
            r.default_value() == default,
            forall|i: int| 0 <= i ==> #[trigger] r.at(i) == value_at(values@, default, i),
    {
        let values = trim_default(values, &default);
        TotalArraySeq { default, values }
    }

    /// The value at index `index`.
    pub fn index(&self, index: usize) -> (r: T)
        ensures
            r == self.at(index as int),
    {
        if index < self.values.len() {
            self.values[index]
        } else {
            self.default
        }
    }

    /// The sequence of what `op` gives for the values of both sequences at each index.
    pub fn zip_with<F: Fn(&T, &T) -> T>(&self, rhs: &Self, op: F) -> (r: Self)
        requires
            forall|i: int| 0 <= i ==> #[trigger] op.requires((&self.at(i), &rhs.at(i))),
        ensures
            op.ensures((&self.default_value(), &rhs.default_value()), r.default_value()),
            forall|i: int| 0 <= i ==> #[trigger] op.ensures((&self.at(i), &rhs.at(i)), r.at(i)),
    {
        let l = if self.values.len() < rhs.values.len() { rhs.values.len() } else { self.values.len() };
        proof {
            assert(self.at(l as int) == self.default && rhs.at(l as int) == rhs.default);
        }
        let default = op(&self.default, &rhs.default);
        let mut values: Vec<T> = Vec::with_capacity(l);
        let mut i: usize = 0;
        while i < l
            invariant
                i <= l,
                l == self.values@.len() || l == rhs.values@.len(),
                self.values@.len() <= l && rhs.values@.len() <= l,
                values@.len() == i,
                forall|j: int| 0 <= j ==> #[trigger] op.requires((&self.at(j), &rhs.at(j))),
                forall|j: int| 0 <= j < i ==> #[trigger] op.ensures((&self.at(j), &rhs.at(j)), values@[j]),
            decreases l - i,
        {
            let a = self.index(i);
            let b = rhs.index(i);
            let v = op(&a, &b);
            values.push(v);
            i = i + 1;
        }
        let r = TotalArraySeq::new(values, default);
        proof {
            assert forall|j: int| 0 <= j implies #[trigger] op.ensures((&self.at(j), &rhs.at(j)), r.at(j)) by {
                if j >= l {
                    assert(self.at(j) == self.default && rhs.at(j) == rhs.default);
                }
            }
        }
        r
    }

    /// The sequence of what `op` gives for the value at each index.
    pub fn map<F: Fn(&T) -> T>(&self, op: F) -> (r: Self)
        requires
            forall|i: int| 0 <= i ==> #[trigger] op.requires((&self.at(i),)),
        ensures
            op.ensures((&self.default_value(),), r.default_value()),
            forall|i: int| 0 <= i ==> #[trigger] op.ensures((&self.at(i),), r.at(i)),
    {
        let l = self.values.len();
        proof {
            assert(self.at(l as int) == self.default);
        }
        let default = op(&self.default);
        let mut values: Vec<T> = Vec::with_capacity(l);
        let mut i: usize = 0;
        while i < l
            invariant
                i <= l,
                l == self.values@.len(),
                values@.len() == i,
                forall|j: int| 0 <= j ==> #[trigger] op.requires((&self.at(j),)),
                forall|j: int| 0 <= j < i ==> #[trigger] op.ensures((&self.at(j),), values@[j]),
            decreases l - i,
        {
            let a = self.values[i];
            assert(self.at(i as int) == a);
            let v = op(&a);
            values.push(v);
            i = i + 1;
        }
        let r = TotalArraySeq::new(values, default);
        proof {
            assert forall|j: int| 0 <= j implies #[trigger] op.ensures((&self.at(j),), r.at(j)) by {
                if j >= l {
                    assert(self.at(j) == self.default);
                }
            }
        }
        r
    }
}

impl<T: TextKey> TotalArraySeq<T> {
    /// The text form: `TotalArraySeq([prefix values], default)`.
    pub fn to_text(&self) -> (r: String)
        ensures
            r@ == "TotalArraySeq(["@ + join_texts(self.prefix().map_values(|x: T| x.text()), ", "@) + "], "@
                + self.default_value().text() + ")"@,
    {
        let mut s = String::from_str("TotalArraySeq([");
        s.append(join_values(self.values.as_slice()).as_str());
        s.append("], ");
        s.append(self.default.to_text().as_str());
        s.append(")");
        s
    }
}

/// A finite sequence.
#[derive(Debug, Clone)]
pub struct VecSeq<T>(Vec<T>);

impl<T> View for VecSeq<T> {
    type V = Seq<T>;

    closed spec fn view(&self) -> Seq<T> {
        self.0@
    }
}

/// The concatenation of two slices.
fn concat<T: Copy>(a: &[T], b: &[T]) -> (r: Vec<T>)
    ensures
        r@ == a@ + b@,
{
    let mut r: Vec<T> = Vec::with_capacity(a.len());
    let mut i: usize = 0;
    while i < a.len()
        invariant
            i <= a@.len(),
            r@ == a@.take(i as int),
        decreases a@.len() - i,
    {
        r.push(a[i]);
        assert(a@.take(i + 1) =~= a@.take(i as int).push(a@[i as int]));
        i = i + 1;
    }
    let mut j: usize = 0;
    while j < b.len()
        invariant
            i == a@.len(),
            j <= b@.len(),
            r@ == a@ + b@.take(j as int),
        decreases b@.len() - j,
    {
        r.push(b[j]);
        assert(a@ + b@.take(j + 1) =~= (a@ + b@.take(j as int)).push(b@[j as int]));
        j = j + 1;
    }
    assert(a@.take(i as int) =~= a@);
    assert(b@.take(j as int) =~= b@);
    r
}

impl<T> VecSeq<T> {
    /// The elements as a vector.
    pub fn into_vec(self) -> (r: Vec<T>)
        ensures
            r@ == self@,
    {
        self.0
    }

    /// The elements followed by `right`'s.
    pub fn operate(&self, right: &Self) -> (r: Self)
        where
            T: Copy,
        ensures
            r@ == self@ + right@,
    {
        VecSeq(concat(self.0.as_slice(), right.0.as_slice()))
    }
}

impl<T: SortKey> VecSeq<T> {
    /// The total sequence of these elements followed by `default` forever.
    pub fn into_total(self, default: T) -> (r: TotalVecSeq<T>)
        ensures
            r.default_value() == default,
            forall|i: int| 0 <= i ==> #[trigger] r.at(i) == value_at(self@, default, i),
    {
        TotalVecSeq::new(self.0, default)
    }
}

impl<T: TextKey> VecSeq<T> {
    /// The text form: `VecSeq([values])`.
    pub fn to_text(&self) -> (r: String)
        ensures
            r@ == "VecSeq(["@ + join_texts(self@.map_values(|x: T| x.text()), ", "@) + "])"@,
    {
        let mut s = String::from_str("VecSeq([");
        s.append(join_values(self.0.as_slice()).as_str());
        s.append("])");
        s
    }
}

impl<T> From<Vec<T>> for VecSeq<T> {
    fn from(value: Vec<T>) -> (r: VecSeq<T>)
        ensures
            r@ == value@,
    {
        VecSeq(value)
    }
}

impl<T> vstd::std_specs::convert::FromSpecImpl<Vec<T>> for VecSeq<T> {
    /// The result is described by the `ensures` of `from` alone.
    open spec fn obeys_from_spec() -> bool {
        false
    }

    closed spec fn from_spec(v: Vec<T>) -> Self {
        vstd::pervasive::arbitrary()
    }
}

impl<T> From<VecSeq<T>> for Vec<T> {
    fn from(value: VecSeq<T>) -> (r: Vec<T>)
        ensures
            r@ == value@,
    {
        value.0
    }
}

impl<T> vstd::std_specs::convert::FromSpecImpl<VecSeq<T>> for Vec<T> {
    /// The result is described by the `ensures` of `from` alone.
    open spec fn obeys_from_spec() -> bool {
        false
    }

    closed spec fn from_spec(v: VecSeq<T>) -> Self {
        vstd::pervasive::arbitrary()
    }
}

impl<'a, T: Copy> Add<&'a VecSeq<T>> for &'a VecSeq<T> {
    type Output = VecSeq<T>;

    fn add(self, rhs: &'a VecSeq<T>) -> (r: VecSeq<T>)
        ensures
            r@ == self@ + rhs@,
    {
        self.operate(rhs)
    }
}

impl<'a, T: Copy> vstd::std_specs::ops::AddSpecImpl<&'a VecSeq<T>> for &'a VecSeq<T> {
    /// The result is described by the `ensures` of `add` alone.
    open spec fn obeys_add_spec() -> bool {
        false
    }

    open spec fn add_req(self, rhs: &'a VecSeq<T>) -> bool {
        true
    }

    open spec fn add_spec(self, rhs: &'a VecSeq<T>) -> VecSeq<T> {
        vstd::pervasive::arbitrary()
    }
}

impl<'a, T: Copy> AddAssign<&'a VecSeq<T>> for VecSeq<T> {
    fn add_assign(&mut self, rhs: &'a VecSeq<T>)
        ensures
            final(self)@ == old(self)@ + rhs@,
    {
        *self = self.operate(rhs)
    }
}

/// A finite sequence, kept in an array-like vector.
#[derive(Debug, Clone)]
pub struct ArraySeq<T>(Vec<T>);

impl<T> View for ArraySeq<T> {
    type V = Seq<T>;

    closed spec fn view(&self) -> Seq<T> {
        self.0@
    }
}

impl<T> ArraySeq<T> {
    /// The elements as a vector.
    pub fn into_vec(self) -> (r: Vec<T>)
        ensures
            r@ == self@,
    {
        self.0
    }

    /// The elements followed by `right`'s.
    pub fn operate(&self, right: &Self) -> (r: Self)
        where
            T: Copy,
        ensures
            r@ == self@ + right@,
    {
        ArraySeq(concat(self.0.as_slice(), right.0.as_slice()))
    }
}

impl<T: SortKey> ArraySeq<T> {
    /// The total sequence of these elements followed by `default` forever.
    pub fn as_total(self, default: T) -> (r: TotalArraySeq<T>)
        ensures
            r.default_value() == default,
            forall|i: int| 0 <= i ==> #[trigger] r.at(i) == value_at(self@, default, i),
    {
        TotalArraySeq::new(self.0, default)
    }
}

impl<T: TextKey> ArraySeq<T> {
    /// The text form: `ArraySeq([values])`.
    pub fn to_text(&self) -> (r: String)
        ensures
            r@ == "ArraySeq(["@ + join_texts(self@.map_values(|x: T| x.text()), ", "@) + "])"@,
    {
        let mut s = String::from_str("ArraySeq([");
        s.append(join_values(self.0.as_slice()).as_str());
        s.append("])");
        s
    }
}

impl<T> From<Vec<T>> for ArraySeq<T> {
    fn from(value: Vec<T>) -> (r: ArraySeq<T>)
        ensures
            r@ == value@,
    {
        ArraySeq(value)
    }
}

impl<T> vstd::std_specs::convert::FromSpecImpl<Vec<T>> for ArraySeq<T> {
    /// The result is described by the `ensures` of `from` alone.
    open spec fn obeys_from_spec() -> bool {
        false
    }

    closed spec fn from_spec(v: Vec<T>) -> Self {
        vstd::pervasive::arbitrary()
    }
}

impl<T> From<ArraySeq<T>> for Vec<T> {
    fn from(value: ArraySeq<T>) -> (r: Vec<T>)
        ensures
            r@ == value@,
    {
        value.0
    }
}

impl<T> vstd::std_specs::convert::FromSpecImpl<ArraySeq<T>> for Vec<T> {
    /// The result is described by the `ensures` of `from` alone.
    open spec fn obeys_from_spec() -> bool {
        false
    }

    closed spec fn from_spec(v: ArraySeq<T>) -> Self {
        vstd::pervasive::arbitrary()
    }
}

impl<'a, T: Copy> Add<&'a ArraySeq<T>> for &'a ArraySeq<T> {
    type Output = ArraySeq<T>;

    fn add(self, rhs: &'a ArraySeq<T>) -> (r: ArraySeq<T>)
        ensures
            r@ == self@ + rhs@,
    {
        self.operate(rhs)
    }
}

impl<'a, T: Copy> vstd::std_specs::ops::AddSpecImpl<&'a ArraySeq<T>> for &'a ArraySeq<T> {
    /// The result is described by the `ensures` of `add` alone.
    open spec fn obeys_add_spec() -> bool {
        false
    }

    open spec fn add_req(self, rhs: &'a ArraySeq<T>) -> bool {
        true
    }

    open spec fn add_spec(self, rhs: &'a ArraySeq<T>) -> ArraySeq<T> {
        vstd::pervasive::arbitrary()
    }
}

impl<'a, T: Copy> AddAssign<&'a ArraySeq<T>> for ArraySeq<T> {
    fn add_assign(&mut self, rhs: &'a ArraySeq<T>)
        ensures
            final(self)@ == old(self)@ + rhs@,
    {
        *self = self.operate(rhs)
    }
}

/// A copy of the elements.
fn copy_values<T: Copy>(v: &[T]) -> (r: Vec<T>)
    ensures
        r@ == v@,
{
    let mut r: Vec<T> = Vec::with_capacity(v.len());
    let mut i: usize = 0;
    while i < v.len()
        invariant
            i <= v@.len(),
            r@ == v@.take(i as int),
        decreases v@.len() - i,
    {
        r.push(v[i]);
        assert(v@.take(i + 1) =~= v@.take(i as int).push(v@[i as int]));
        i = i + 1;
    }
    assert(v@.take(i as int) =~= v@);
    r
}

impl<T: SortKey> Clone for TotalVecSeq<T> {
    fn clone(&self) -> (r: Self)
        ensures
            r.default_value() == self.default_value(),
            r.prefix() == self.prefix(),
    {
        proof {
            use_type_invariant(self);
        }
        TotalVecSeq { default: self.default, values: copy_values(self.values.as_slice()) }
    }
}

impl<T: SortKey> Clone for TotalArraySeq<T> {
    fn clone(&self) -> (r: Self)
        ensures
            r.default_value() == self.default_value(),
            r.prefix() == self.prefix(),
    {
        proof {
            use_type_invariant(self);
        }
        TotalArraySeq { default: self.default, values: copy_values(self.values.as_slice()) }
    }
}

/// The sum of two values.
fn plus_ref(a: &i64, b: &i64) -> (r: i64)
    requires
        i64::MIN <= *a + *b <= i64::MAX,
    ensures
        r == *a + *b,
{
    *a + *b
}

impl TotalArraySeq<i64> {
    /// The sequence of the sums of both sequences at each index.
    pub fn operate(&self, rhs: &Self) -> (r: Self)
        requires
            forall|i: int| 0 <= i ==> i64::MIN <= #[trigger] self.at(i) + rhs.at(i) <= i64::MAX,
        ensures
            r.default_value() == self.default_value() + rhs.default_value(),
            forall|i: int| 0 <= i ==> #[trigger] r.at(i) == self.at(i) + rhs.at(i),
    {
        proof {
            assert forall|i: int| 0 <= i implies #[trigger] plus_ref.requires((&self.at(i), &rhs.at(i))) by {
                assert(i64::MIN <= self.at(i) + rhs.at(i) <= i64::MAX);
            }
        }
        let r = self.zip_with(rhs, plus_ref);
        proof {
            assert forall|i: int| 0 <= i implies #[trigger] r.at(i) == self.at(i) + rhs.at(i) by {
                assert(plus_ref.ensures((&self.at(i), &rhs.at(i)), r.at(i)));
            }
            let n: int = (self.values@.len() + rhs.values@.len()) as int;
            assert(self.at(n) == self.default_value() && rhs.at(n) == rhs.default_value());
            assert(r.at(n) == self.at(n) + rhs.at(n));
            assert(plus_ref.ensures((&self.default_value(), &rhs.default_value()), r.default_value()));
        }
        r
    }
}

} // verus!

//! Element types that the sorted collections of this crate can hold.
//!
//! Every collection keeps its elements (or boundaries, or keys) in ascending order.
//! The order of an element type is described by an integer key: `a < b` exactly when
//! `a.key() < b.key()`, and two values are equal exactly when their keys are equal.
use vstd::prelude::*;

verus! {

/// A totally ordered element type whose order is the order of an integer key.
pub trait SortKey: Copy + Sized {
    /// The integer that gives this value its place in the order.
    spec fn key(&self) -> int;

    /// Distinct values have distinct keys.
    proof fn lemma_key_injective(a: Self, b: Self)
        ensures
            a.key() == b.key() ==> a == b,
    ;

    /// `self < other`
    fn key_lt(&self, other: &Self) -> (r: bool)
        ensures
            r == (self.key() < other.key()),
    ;

    /// `self == other`
    fn key_eq(&self, other: &Self) -> (r: bool)
        ensures
            r == (self.key() == other.key()),
    ;

    /// A copy of the value.
    fn copied(&self) -> (r: Self)
        ensures
            r == *self,
    ;
}

impl SortKey for i8 {
    open spec fn key(&self) -> int {
        *self as int
    }

    proof fn lemma_key_injective(a: Self, b: Self) {
    }

    fn key_lt(&self, other: &Self) -> (r: bool) {
        *self < *other
    }

    fn key_eq(&self, other: &Self) -> (r: bool) {
        *self == *other
    }

    fn copied(&self) -> (r: Self) {
        *self
    }
}

impl SortKey for i16 {
    open spec fn key(&self) -> int {
        *self as int
    }

    proof fn lemma_key_injective(a: Self, b: Self) {
    }

    fn key_lt(&self, other: &Self) -> (r: bool) {
        *self < *other
    }

    fn key_eq(&self, other: &Self) -> (r: bool) {
        *self == *other
    }

    fn copied(&self) -> (r: Self) {
        *self
    }
}

impl SortKey for i32 {
    open spec fn key(&self) -> int {
        *self as int
    }

    proof fn lemma_key_injective(a: Self, b: Self) {
    }

    fn key_lt(&self, other: &Self) -> (r: bool) {
        *self < *other
    }

    fn key_eq(&self, other: &Self) -> (r: bool) {
        *self == *other
    }

    fn copied(&self) -> (r: Self) {
        *self
    }
}

impl SortKey for i64 {
    open spec fn key(&self) -> int {
        *self as int
    }

    proof fn lemma_key_injective(a: Self, b: Self) {
    }

    fn key_lt(&self, other: &Self) -> (r: bool) {
        *self < *other
    }

    fn key_eq(&self, other: &Self) -> (r: bool) {
        *self == *other
    }

    fn copied(&self) -> (r: Self) {
        *self
    }
}

impl SortKey for u8 {
    open spec fn key(&self) -> int {
        *self as int
    }

    proof fn lemma_key_injective(a: Self, b: Self) {
    }

    fn key_lt(&self, other: &Self) -> (r: bool) {
        *self < *other
    }

    fn key_eq(&self, other: &Self) -> (r: bool) {
        *self == *other
    }

    fn copied(&self) -> (r: Self) {
        *self
    }
}

impl SortKey for u16 {
    open spec fn key(&self) -> int {
        *self as int
    }

    proof fn lemma_key_injective(a: Self, b: Self) {
    }

    fn key_lt(&self, other: &Self) -> (r: bool) {
        *self < *other
    }

    fn key_eq(&self, other: &Self) -> (r: bool) {
        *self == *other
    }

    fn copied(&self) -> (r: Self) {
        *self
    }
}

impl SortKey for u32 {
    open spec fn key(&self) -> int {
        *self as int
    }

    proof fn lemma_key_injective(a: Self, b: Self) {
    }

    fn key_lt(&self, other: &Self) -> (r: bool) {
        *self < *other
    }

    fn key_eq(&self, other: &Self) -> (r: bool) {
        *self == *other
    }

    fn copied(&self) -> (r: Self) {
        *self
    }
}

impl SortKey for u64 {
    open spec fn key(&self) -> int {
        *self as int
    }

    proof fn lemma_key_injective(a: Self, b: Self) {
    }

    fn key_lt(&self, other: &Self) -> (r: bool) {
        *self < *other
    }

    fn key_eq(&self, other: &Self) -> (r: bool) {
        *self == *other
    }

    fn copied(&self) -> (r: Self) {
        *self
    }
}

impl SortKey for usize {
    open spec fn key(&self) -> int {
        *self as int
    }

    proof fn lemma_key_injective(a: Self, b: Self) {
    }

    fn key_lt(&self, other: &Self) -> (r: bool) {
        *self < *other
    }

    fn key_eq(&self, other: &Self) -> (r: bool) {
        *self == *other
    }

    fn copied(&self) -> (r: Self) {
        *self
    }
}

impl SortKey for isize {
    open spec fn key(&self) -> int {
        *self as int
    }

    proof fn lemma_key_injective(a: Self, b: Self) {
    }

    fn key_lt(&self, other: &Self) -> (r: bool) {
        *self < *other
    }

    fn key_eq(&self, other: &Self) -> (r: bool) {
        *self == *other
    }

    fn copied(&self) -> (r: Self) {
        *self
    }
}

} // verus!

//! Buffers for rebuilding a vector from itself: elements are taken from the front of a
//! source part and appended to a target part.
//!
//! Each buffer keeps the two parts in two vectors, so that no element is ever left
//! uninitialized or dropped twice.
use vstd::prelude::*;
use vstd::std_specs::iter::IteratorSpec;

verus! {

/// A buffer divided into a source part and a target part.
pub struct FlipBuffer<T> {
    target: Vec<T>,
    source: Vec<T>,
}

impl<T> FlipBuffer<T> {
    /// The target part: the elements built so far.
    pub closed spec fn target(&self) -> Seq<T> {
        self.target@
    }

    /// The source part: the elements not yet taken or dropped.
    pub closed spec fn source(&self) -> Seq<T> {
        self.source@
    }

    /// The current target part as a slice.
    pub fn target_slice(&self) -> (r: &[T])
        ensures
            r@ == self.target(),
    {
        self.target.as_slice()
    }

    /// The current source part as a slice.
    pub fn source_slice(&self) -> (r: &[T])
        ensures
            r@ == self.source(),
    {
        self.source.as_slice()
    }

    /// Makes room for at least `capacity` more target elements, `gap` of them if it has to
    /// grow. The contents stay as they are.
    fn ensure_capacity(&mut self, capacity: usize, gap: usize)
        ensures
            final(self).target() == old(self).target(),
            final(self).source() == old(self).source(),
    {
        let c = if gap > capacity { gap } else { capacity };
        self.target.reserve(c);
    }

    /// Takes at most `n` elements from `iter` to the target, making room for `gap` elements
    /// if there is none.
    pub fn target_extend_from_iter<I: Iterator<Item = T>>(&mut self, iter: &mut I, n: usize, gap: usize)
        ensures
            final(self).source() == old(self).source(),
            <I as IteratorSpec>::obeys_prophetic_iter_laws(old(iter)) ==> {
                let m = if n < <I as IteratorSpec>::remaining(old(iter)).len() { n as int } else { <I as IteratorSpec>::remaining(old(iter)).len() as int };
                &&& final(self).target() == old(self).target() + <I as IteratorSpec>::remaining(old(iter)).take(m)
                &&& <I as IteratorSpec>::remaining(final(iter)) == <I as IteratorSpec>::remaining(old(iter)).skip(m)
            },
    {
        if n > 0 {
            self.ensure_capacity(n, gap);
            let mut i: usize = 0;
            while i < n
                invariant
                    i <= n,
                    self.source@ == old(self).source(),
                    <I as IteratorSpec>::obeys_prophetic_iter_laws(old(iter)) ==> <I as IteratorSpec>::obeys_prophetic_iter_laws(iter),
                    <I as IteratorSpec>::obeys_prophetic_iter_laws(old(iter)) ==> {
                        let m = if (i as int) < <I as IteratorSpec>::remaining(old(iter)).len() { i as int } else { <I as IteratorSpec>::remaining(old(iter)).len() as int };
                        &&& self.target@ == old(self).target() + <I as IteratorSpec>::remaining(old(iter)).take(m)
                        &&& <I as IteratorSpec>::remaining(iter) == <I as IteratorSpec>::remaining(old(iter)).skip(m)
                    },
                decreases n - i,
            {
                if let Some(value) = iter.next() {
                    self.target.push(value);
                }
                assert(<I as IteratorSpec>::obeys_prophetic_iter_laws(old(iter)) && (i as int) < <I as IteratorSpec>::remaining(old(iter)).len()
                    ==> <I as IteratorSpec>::remaining(old(iter)).take(i + 1) =~= <I as IteratorSpec>::remaining(old(iter)).take(i as int).push(
                    <I as IteratorSpec>::remaining(old(iter))[i as int]));
                assert(<I as IteratorSpec>::obeys_prophetic_iter_laws(old(iter)) && (i as int) < <I as IteratorSpec>::remaining(old(iter)).len()
                    ==> <I as IteratorSpec>::remaining(old(iter)).skip(i + 1) =~= <I as IteratorSpec>::remaining(old(iter)).skip(i as int).drop_first());
                i = i + 1;
            }
        }
        assert(n == 0 && <I as IteratorSpec>::obeys_prophetic_iter_laws(old(iter)) ==> <I as IteratorSpec>::remaining(old(iter)).skip(0)
            =~= <I as IteratorSpec>::remaining(old(iter)));
        assert(n == 0 && <I as IteratorSpec>::obeys_prophetic_iter_laws(old(iter)) ==> self.target@ =~= old(self).target()
            + <I as IteratorSpec>::remaining(old(iter)).take(0));
    }

    /// Pushes `value` to the target. `gap` is the room to make if there is none; the storage
    /// of this buffer grows as needed.
    pub fn target_push(&mut self, value: T, gap: usize)
        ensures
            final(self).target() == old(self).target().push(value),
            final(self).source() == old(self).source(),
    {
        self.target.push(value);
    }

    /// Drops up to `n` elements from the front of the source.
    pub fn skip(&mut self, n: usize)
        ensures
            final(self).target() == old(self).target(),
            final(self).source() == old(self).source().skip(if n < old(self).source().len() { n as int } else { old(self).source().len() as int }),
    {
        let m = if n < self.source.len() { n } else { self.source.len() };
        let rest = self.source.split_off(m);
        self.source = rest;
        assert(self.source@ =~= old(self).source().skip(m as int));
    }

    /// Moves up to `n` elements from the front of the source to the target.
    pub fn take(&mut self, n: usize)
        ensures
            final(self).target() == old(self).target() + old(self).source().take(if n < old(self).source().len() { n as int } else { old(self).source().len() as int }),
            final(self).source() == old(self).source().skip(if n < old(self).source().len() { n as int } else { old(self).source().len() as int }),
    {
        let m = if n < self.source.len() { n } else { self.source.len() };
        let mut rest = self.source.split_off(m);
        std::mem::swap(&mut rest, &mut self.source);
        self.target.append(&mut rest);
        assert(self.source@ =~= old(self).source().skip(m as int));
        assert(self.target@ =~= old(self).target() + old(self).source().take(m as int));
    }

    /// Takes the next element of the source, if there is one.
    pub fn pop_front(&mut self) -> (r: Option<T>)
        ensures
            final(self).target() == old(self).target(),
            old(self).source().len() == 0 ==> r is None && final(self).source() == old(self).source(),
            old(self).source().len() > 0 ==> r == Some(old(self).source()[0]) && final(self).source()
                == old(self).source().drop_first(),
    {
        if self.source.len() > 0 {
            let x = self.source.remove(0);
            assert(self.source@ =~= old(self).source().drop_first());
            Some(x)
        } else {
            None
        }
    }

    /// The target part as a vector; the remaining source part is dropped.
    pub fn into_vec(self) -> (r: Vec<T>)
        ensures
            r@ == self.target(),
    {
        self.target
    }

}

/// A buffer divided into a source part and a target part.
pub struct UnsafeFlipBuffer<T> {
    target: Vec<T>,
    source: Vec<T>,
}

impl<T> UnsafeFlipBuffer<T> {
    /// The target part: the elements built so far.
    pub closed spec fn target(&self) -> Seq<T> {
        self.target@
    }

    /// The source part: the elements not yet taken or dropped.
    pub closed spec fn source(&self) -> Seq<T> {
        self.source@
    }

    /// The current target part as a slice.
    pub fn target_slice(&self) -> (r: &[T])
        ensures
            r@ == self.target(),
    {
        self.target.as_slice()
    }

    /// The current source part as a slice.
    pub fn source_slice(&self) -> (r: &[T])
        ensures
            r@ == self.source(),
    {
        self.source.as_slice()
    }

    /// Pushes `value` to the target. `missing` is the room to make if there is none; the storage
    /// of this buffer grows as needed.
    pub fn target_push(&mut self, value: T, missing: usize)
        ensures
            final(self).target() == old(self).target().push(value),
            final(self).source() == old(self).source(),
    {
        self.target.push(value);
    }

    /// Drops up to `n` elements from the front of the source.
    pub fn drop_front(&mut self, n: usize)
        ensures
            final(self).target() == old(self).target(),
            final(self).source() == old(self).source().skip(if n < old(self).source().len() { n as int } else { old(self).source().len() as int }),
    {
        let m = if n < self.source.len() { n } else { self.source.len() };
        let rest = self.source.split_off(m);
        self.source = rest;
        assert(self.source@ =~= old(self).source().skip(m as int));
    }

    /// Moves up to `n` elements from the front of the source to the target.
    pub fn move_front(&mut self, n: usize)
        ensures
            final(self).target() == old(self).target() + old(self).source().take(if n < old(self).source().len() { n as int } else { old(self).source().len() as int }),
            final(self).source() == old(self).source().skip(if n < old(self).source().len() { n as int } else { old(self).source().len() as int }),
    {
        let m = if n < self.source.len() { n } else { self.source.len() };
        let mut rest = self.source.split_off(m);
        std::mem::swap(&mut rest, &mut self.source);
        self.target.append(&mut rest);
        assert(self.source@ =~= old(self).source().skip(m as int));
        assert(self.target@ =~= old(self).target() + old(self).source().take(m as int));
    }

    /// Takes the next element of the source, if there is one.
    pub fn source_pop_front(&mut self) -> (r: Option<T>)
        ensures
            final(self).target() == old(self).target(),
            old(self).source().len() == 0 ==> r is None && final(self).source() == old(self).source(),
            old(self).source().len() > 0 ==> r == Some(old(self).source()[0]) && final(self).source()
                == old(self).source().drop_first(),
    {
        if self.source.len() > 0 {
            let x = self.source.remove(0);
            assert(self.source@ =~= old(self).source().drop_first());
            Some(x)
        } else {
            None
        }
    }

    /// A buffer whose source part is `v` and whose target part is empty.
    fn source_from_vec(v: Vec<T>) -> (r: Self)
        ensures
            r.target() == Seq::<T>::empty(),
            r.source() == v@,
    {
        Self { target: Vec::new(), source: v }
    }

    /// The target part as a vector; the remaining source part is dropped.
    fn target_into_vec(self) -> (r: Vec<T>)
        ensures
            r@ == self.target(),
    {
        self.target
    }

}

/// A builder of a vector that takes its elements from the front of another one.
pub struct InPlaceVecBuilder<T> {
    target: Vec<T>,
    source: Vec<T>,
}

impl<T> InPlaceVecBuilder<T> {
    /// The target part: the elements built so far.
    pub closed spec fn target(&self) -> Seq<T> {
        self.target@
    }

    /// The source part: the elements not yet taken or dropped.
    pub closed spec fn source(&self) -> Seq<T> {
        self.source@
    }

    /// The current target part as a slice.
    pub fn target_slice(&self) -> (r: &[T])
        ensures
            r@ == self.target(),
    {
        self.target.as_slice()
    }

    /// The current source part as a slice.
    pub fn source_slice(&self) -> (r: &[T])
        ensures
            r@ == self.source(),
    {
        self.source.as_slice()
    }

    /// Makes room for at least `capacity` more target elements, `gap` of them if it has to
    /// grow. The contents stay as they are.
    fn ensure_capacity(&mut self, capacity: usize, gap: usize)
        ensures
            final(self).target() == old(self).target(),
            final(self).source() == old(self).source(),
    {
        let c = if gap > capacity { gap } else { capacity };
        self.target.reserve(c);
    }

    /// Takes at most `n` elements from `iter` to the target, making room for `gap` elements
    /// if there is none.
    pub fn extend_from_iter<I: Iterator<Item = T>>(&mut self, iter: &mut I, n: usize, gap: usize)
        ensures
            final(self).source() == old(self).source(),
            <I as IteratorSpec>::obeys_prophetic_iter_laws(old(iter)) ==> {
                let m = if n < <I as IteratorSpec>::remaining(old(iter)).len() { n as int } else { <I as IteratorSpec>::remaining(old(iter)).len() as int };
                &&& final(self).target() == old(self).target() + <I as IteratorSpec>::remaining(old(iter)).take(m)
                &&& <I as IteratorSpec>::remaining(final(iter)) == <I as IteratorSpec>::remaining(old(iter)).skip(m)
            },
    {
        if n > 0 {
            self.ensure_capacity(n, gap);
            let mut i: usize = 0;
            while i < n
                invariant
                    i <= n,
                    self.source@ == old(self).source(),
                    <I as IteratorSpec>::obeys_prophetic_iter_laws(old(iter)) ==> <I as IteratorSpec>::obeys_prophetic_iter_laws(iter),
                    <I as IteratorSpec>::obeys_prophetic_iter_laws(old(iter)) ==> {
                        let m = if (i as int) < <I as IteratorSpec>::remaining(old(iter)).len() { i as int } else { <I as IteratorSpec>::remaining(old(iter)).len() as int };
                        &&& self.target@ == old(self).target() + <I as IteratorSpec>::remaining(old(iter)).take(m)
                        &&& <I as IteratorSpec>::remaining(iter) == <I as IteratorSpec>::remaining(old(iter)).skip(m)
                    },
                decreases n - i,
            {
                if let Some(value) = iter.next() {
                    self.target.push(value);
                }
                assert(<I as IteratorSpec>::obeys_prophetic_iter_laws(old(iter)) && (i as int) < <I as IteratorSpec>::remaining(old(iter)).len()
                    ==> <I as IteratorSpec>::remaining(old(iter)).take(i + 1) =~= <I as IteratorSpec>::remaining(old(iter)).take(i as int).push(
                    <I as IteratorSpec>::remaining(old(iter))[i as int]));
                assert(<I as IteratorSpec>::obeys_prophetic_iter_laws(old(iter)) && (i as int) < <I as IteratorSpec>::remaining(old(iter)).len()
                    ==> <I as IteratorSpec>::remaining(old(iter)).skip(i + 1) =~= <I as IteratorSpec>::remaining(old(iter)).skip(i as int).drop_first());
                i = i + 1;
            }
        }
        assert(n == 0 && <I as IteratorSpec>::obeys_prophetic_iter_laws(old(iter)) ==> <I as IteratorSpec>::remaining(old(iter)).skip(0)
            =~= <I as IteratorSpec>::remaining(old(iter)));
        assert(n == 0 && <I as IteratorSpec>::obeys_prophetic_iter_laws(old(iter)) ==> self.target@ =~= old(self).target()
            + <I as IteratorSpec>::remaining(old(iter)).take(0));
    }

    /// Pushes `value` to the target. `gap` is the room to make if there is none; the storage
    /// of this buffer grows as needed.
    pub fn push(&mut self, value: T, gap: usize)
        ensures
            final(self).target() == old(self).target().push(value),
            final(self).source() == old(self).source(),
    {
        self.target.push(value);
    }

    /// Drops up to `n` elements from the front of the source.
    pub fn skip(&mut self, n: usize)
        ensures
            final(self).target() == old(self).target(),
            final(self).source() == old(self).source().skip(if n < old(self).source().len() { n as int } else { old(self).source().len() as int }),
    {
        let m = if n < self.source.len() { n } else { self.source.len() };
        let rest = self.source.split_off(m);
        self.source = rest;
        assert(self.source@ =~= old(self).source().skip(m as int));
    }

    /// Moves up to `n` elements from the front of the source to the target.
    pub fn take(&mut self, n: usize)
        ensures
            final(self).target() == old(self).target() + old(self).source().take(if n < old(self).source().len() { n as int } else { old(self).source().len() as int }),
            final(self).source() == old(self).source().skip(if n < old(self).source().len() { n as int } else { old(self).source().len() as int }),
    {
        let m = if n < self.source.len() { n } else { self.source.len() };
        let mut rest = self.source.split_off(m);
        std::mem::swap(&mut rest, &mut self.source);
        self.target.append(&mut rest);
        assert(self.source@ =~= old(self).source().skip(m as int));
        assert(self.target@ =~= old(self).target() + old(self).source().take(m as int));
    }

    /// Takes the next element of the source, if there is one.
    pub fn pop_front(&mut self) -> (r: Option<T>)
        ensures
            final(self).target() == old(self).target(),
            old(self).source().len() == 0 ==> r is None && final(self).source() == old(self).source(),
            old(self).source().len() > 0 ==> r == Some(old(self).source()[0]) && final(self).source()
                == old(self).source().drop_first(),
    {
        if self.source.len() > 0 {
            let x = self.source.remove(0);
            assert(self.source@ =~= old(self).source().drop_first());
            Some(x)
        } else {
            None
        }
    }

    /// The target part as a vector; the remaining source part is dropped.
    pub fn into_vec(self) -> (r: Vec<T>)
        ensures
            r@ == self.target(),
    {
        self.target
    }

}

impl<T> From<Vec<T>> for FlipBuffer<T> {
    fn from(value: Vec<T>) -> (r: Self)
        ensures
            r.target() == Seq::<T>::empty(),
            r.source() == value@,
    {
        FlipBuffer { target: Vec::new(), source: value }
    }
}

impl<T> vstd::std_specs::convert::FromSpecImpl<Vec<T>> for FlipBuffer<T> {
    /// The result is described by the `ensures` of `from` alone.
    open spec fn obeys_from_spec() -> bool {
        false
    }

    closed spec fn from_spec(v: Vec<T>) -> Self {
        vstd::pervasive::arbitrary()
    }
}

impl<T> From<Vec<T>> for UnsafeFlipBuffer<T> {
    fn from(value: Vec<T>) -> (r: Self)
        ensures
            r.target() == Seq::<T>::empty(),
            r.source() == value@,
    {
        UnsafeFlipBuffer::source_from_vec(value)
    }
}

impl<T> vstd::std_specs::convert::FromSpecImpl<Vec<T>> for UnsafeFlipBuffer<T> {
    /// The result is described by the `ensures` of `from` alone.
    open spec fn obeys_from_spec() -> bool {
        false
    }

    closed spec fn from_spec(v: Vec<T>) -> Self {
        vstd::pervasive::arbitrary()
    }
}

impl<T> From<Vec<T>> for InPlaceVecBuilder<T> {
    fn from(value: Vec<T>) -> (r: Self)
        ensures
            r.target() == Seq::<T>::empty(),
            r.source() == value@,
    {
        InPlaceVecBuilder { target: Vec::new(), source: value }
    }
}

impl<T> vstd::std_specs::convert::FromSpecImpl<Vec<T>> for InPlaceVecBuilder<T> {
    /// The result is described by the `ensures` of `from` alone.
    open spec fn obeys_from_spec() -> bool {
        false
    }

    closed spec fn from_spec(v: Vec<T>) -> Self {
        vstd::pervasive::arbitrary()
    }
}

impl<T> From<UnsafeFlipBuffer<T>> for Vec<T> {
    fn from(value: UnsafeFlipBuffer<T>) -> (r: Vec<T>)
        ensures
            r@ == value.target(),
    {
        value.target_into_vec()
    }
}

impl<T> vstd::std_specs::convert::FromSpecImpl<UnsafeFlipBuffer<T>> for Vec<T> {
    /// The result is described by the `ensures` of `from` alone.
    open spec fn obeys_from_spec() -> bool {
        false
    }

    closed spec fn from_spec(v: UnsafeFlipBuffer<T>) -> Vec<T> {
        vstd::pervasive::arbitrary()
    }
}

/// Appends to the target of an [InPlaceVecBuilder] that it borrows.
pub struct Builder<'a, T>(pub &'a mut InPlaceVecBuilder<T>);

impl<'a, T> Builder<'a, T> {
    /// Pushes `value` to the target of the builder.
    pub fn push(&mut self, value: T, gap: usize)
        ensures
            final(self).0.target() == old(self).0.target().push(value),
            final(self).0.source() == old(self).0.source(),
    {
        self.0.push(value, gap)
    }

    /// Takes at most `n` elements from `iter` to the target of the builder.
    pub fn extend_from_iter<I: Iterator<Item = T>>(&mut self, iter: &mut I, n: usize, gap: usize)
        ensures
            final(self).0.source() == old(self).0.source(),
            <I as IteratorSpec>::obeys_prophetic_iter_laws(old(iter)) ==> {
                let m = if n < <I as IteratorSpec>::remaining(old(iter)).len() { n as int } else { <I as IteratorSpec>::remaining(old(iter)).len() as int };
                &&& final(self).0.target() == old(self).0.target() + <I as IteratorSpec>::remaining(old(iter)).take(m)
                &&& <I as IteratorSpec>::remaining(final(iter)) == <I as IteratorSpec>::remaining(old(iter)).skip(m)
            },
    {
        self.0.extend_from_iter(iter, n, gap)
    }
}

/// Doubles `[1, 2, 3]` in place: each element is taken from the source and its double pushed
/// to the target.
pub fn demo() -> (r: Vec<i32>)
    ensures
        r@ == seq![2i32, 4, 6],
{
    let mut a: Vec<i32> = Vec::new();
    a.push(1);
    a.push(2);
    a.push(3);
    let mut b = InPlaceVecBuilder::from(a);
    let mut i: usize = 0;
    while i < 3
        invariant
            i <= 3,
            b.source() == seq![1i32, 2, 3].skip(i as int),
            b.target() == seq![2i32, 4, 6].take(i as int),
        decreases 3 - i,
    {
        let ghost s = b.source();
        assert(s[0] == seq![1i32, 2, 3][i as int]);
        match b.pop_front() {
            Some(x) => {
                b.push(x * 2, 0);
            },
            None => {},
        }
        i = i + 1;
        assert(b.source() =~= seq![1i32, 2, 3].skip(i as int));
        assert(b.target() =~= seq![2i32, 4, 6].take(i as int));
    }
    let r = b.into_vec();
    assert(r@ =~= seq![2i32, 4, 6]);
    r
}

} // verus!

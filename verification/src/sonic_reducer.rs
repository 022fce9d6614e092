//! Reducing a sequence with a binary operation in a balanced way: element `i` is combined
//! with its neighbours like the bits of a binary counter, so that partial results stay small.
use vstd::prelude::*;

verus! {

/// A bracketing of a combination: a single item, or the combination of two bracketings with
/// the value that combining their values gave.
pub enum Bracketing<T> {
    /// a single item
    Item(T),
    /// two parts and the value of their combination
    Pair(Box<Bracketing<T>>, Box<Bracketing<T>>, T),
}

impl<T> Bracketing<T> {
    /// The items, in order.
    pub open spec fn items(self) -> Seq<T>
        decreases self,
    {
        match self {
            Bracketing::Item(x) => seq![x],
            Bracketing::Pair(a, b, _) => a.items() + b.items(),
        }
    }

    /// The value of the combination.
    pub open spec fn value(self) -> T {
        match self {
            Bracketing::Item(x) => x,
            Bracketing::Pair(_, _, v) => v,
        }
    }

    /// Each pair's value is what `op` gives for the values of its parts.
    pub open spec fn made_by<F: Fn(T, T) -> T>(self, op: F) -> bool
        decreases self,
    {
        match self {
            Bracketing::Item(_) => true,
            Bracketing::Pair(a, b, v) => a.made_by(op) && b.made_by(op) && op.ensures((a.value(), b.value()), v),
        }
    }
}

/// `r` is the result of combining `items` with `op` in their order, bracketed in some way.
pub open spec fn reduces_to<T, F: Fn(T, T) -> T>(op: F, items: Seq<T>, r: T) -> bool {
    exists|t: Bracketing<T>| #[trigger] t.made_by(op) && t.items() == items && t.value() == r
}

/// `r` is the result of `items[lo..hi]`, and `None` when the range is empty.
pub open spec fn covers<T, F: Fn(T, T) -> T>(op: F, items: Seq<T>, lo: int, hi: int, r: Option<T>) -> bool {
    if lo < hi {
        r matches Some(x) && reduces_to(op, items.subrange(lo, hi), x)
    } else {
        r is None
    }
}

/// A single item is its own result.
proof fn lemma_single<T, F: Fn(T, T) -> T>(op: F, items: Seq<T>, i: int)
    requires
        0 <= i < items.len(),
    ensures
        reduces_to(op, items.subrange(i, i + 1), items[i]),
{
    let t = Bracketing::Item(items[i]);
    assert(t.items() =~= items.subrange(i, i + 1));
    assert(t.made_by(op));
}

/// The results of two adjacent ranges combine to the result of both.
proof fn lemma_combine<T, F: Fn(T, T) -> T>(op: F, items: Seq<T>, lo: int, mid: int, hi: int, x: T, y: T, z: T)
    requires
        0 <= lo < mid < hi <= items.len(),
        reduces_to(op, items.subrange(lo, mid), x),
        reduces_to(op, items.subrange(mid, hi), y),
        op.ensures((x, y), z),
    ensures
        reduces_to(op, items.subrange(lo, hi), z),
{
    let a = choose|t: Bracketing<T>| #[trigger] t.made_by(op) && t.items() == items.subrange(lo, mid) && t.value() == x;
    let b = choose|t: Bracketing<T>| #[trigger] t.made_by(op) && t.items() == items.subrange(mid, hi) && t.value() == y;
    let t = Bracketing::Pair(Box::new(a), Box::new(b), z);
    assert(t.items() =~= items.subrange(lo, hi));
    assert(t.made_by(op));
}

/// Takes the value out of `a`, leaving `None`.
fn zero_and_get<T>(a: &mut Option<T>) -> (r: Option<T>)
    ensures
        r == *old(a),
        *final(a) is None,
{
    if a.is_some() {
        let mut a1: Option<T> = None;
        std::mem::swap(a, &mut a1);
        a1
    } else {
        None
    }
}

/// Combines the value of `a`, which is taken out, with `b` after it.
fn adsorb<T, F: Fn(T, T) -> T>(op: &F, a: &mut Option<T>, b: Option<T>) -> (r: Option<T>)
    requires
        forall|x: T, y: T| #[trigger] op.requires((x, y)),
    ensures
        *final(a) is None,
        match (*old(a), b) {
            (Some(x), Some(y)) => r matches Some(z) && op.ensures((x, y), z),
            (Some(x), None) => r == Some(x),
            (None, _) => r == b,
        },
{
    if let Some(a) = zero_and_get(a) {
        if let Some(b) = b {
            Some(op(a, b))
        } else {
            Some(a)
        }
    } else {
        b
    }
}

/// Takes the value out of slot `i`, leaving `None`.
fn take_slot<T>(v: &mut Vec<Option<T>>, i: usize) -> (r: Option<T>)
    requires
        i < old(v)@.len(),
    ensures
        r == old(v)@[i as int],
        final(v)@ == old(v)@.update(i as int, None),
{
    let mut x: Option<T> = None;
    let mut w = v.remove(i);
    std::mem::swap(&mut x, &mut w);
    v.insert(i, None);
    assert(v@ =~= old(v)@.update(i as int, None));
    x
}

/// Reduces a sequence as it comes: slot `l` holds the result of a run of up to `2^l` items,
/// and the runs of higher slots come first.
pub struct SonicReducer<T, F> {
    buffers: Vec<Option<T>>,
    count: usize,
    op: F,
    /// the items added so far
    items: Ghost<Seq<T>>,
    /// slot `l` holds the items from `cut[l + 1]` to `cut[l]`
    cut: Ghost<Seq<int>>,
}

impl<T, F: Fn(T, T) -> T> SonicReducer<T, F> {
    /// The slots cover `items` in order up to the first cut, each with the result of its run,
    /// and `op` can be called on any two items.
    spec fn slots_ok(&self, items: Seq<T>) -> bool {
        let n = self.buffers@.len();
        &&& self.cut@.len() == n + 1
        &&& self.cut@[n as int] == 0
        &&& self.cut@[0] <= items.len()
        &&& forall|l: int| 0 <= l <= n ==> 0 <= #[trigger] self.cut@[l] <= self.cut@[0]
        &&& forall|l: int| 0 <= l < n ==> #[trigger] self.cut@[l] >= self.cut@[l + 1]
        &&& forall|l: int| 0 <= l < n ==> covers(self.op, items, self.cut@[l + 1], self.cut@[l], #[trigger] self.buffers@[l])
        &&& forall|x: T, y: T| #[trigger] self.op.requires((x, y))
    }

    /// The slots cover all items added so far.
    pub closed spec fn inv(&self) -> bool {
        &&& self.slots_ok(self.items@)
        &&& self.cut@[0] == self.items@.len()
    }

    /// The items added since the reducer was made or last emptied.
    pub closed spec fn items(&self) -> Seq<T> {
        self.items@
    }

    /// The operation.
    pub closed spec fn op(&self) -> F {
        self.op
    }

    /// The number of additions so far.
    pub closed spec fn count(&self) -> nat {
        self.count as nat
    }

    /// An empty reducer with the operation `op`.
    pub fn new(op: F) -> (r: Self)
        requires
            forall|x: T, y: T| #[trigger] op.requires((x, y)),
        ensures
            r.inv(),
            r.items() == Seq::<T>::empty(),
            r.op() == op,
            r.count() == 0,
    {
        let ghost cut: Seq<int> = seq![0int];
        SonicReducer { buffers: Vec::new(), count: 0, op, items: Ghost(Seq::empty()), cut: Ghost(cut) }
    }

    /// Makes sure that slot `index` exists; new slots are empty.
    fn reserve(&mut self, index: usize)
        requires
            old(self).inv(),
            index < usize::MAX,
        ensures
            final(self).inv(),
            final(self).buffers@.len() > index,
            final(self).items@ == old(self).items@,
            final(self).op == old(self).op,
            final(self).count == old(self).count,
    {
        while self.buffers.len() < index + 1
            invariant
                self.inv(),
                index < usize::MAX,
                self.items@ == old(self).items@,
                self.op == old(self).op,
                self.count == old(self).count,
            decreases index + 1 - self.buffers@.len(),
        {
            let ghost c = self.cut@;
            let ghost b = self.buffers@;
            self.buffers.push(None);
            proof {
                self.cut@ = c.push(0);
                assert forall|l: int| 0 <= l < self.buffers@.len() implies covers(self.op, self.items@, self.cut@[l + 1], self.cut@[l], #[trigger] self.buffers@[l]) by {
                    if l < b.len() {
                        assert(self.buffers@[l] == b[l]);
                    }
                }
            }
        }
    }

    /// Combines the slots below `level`, from the lowest up, with `value` after them; the
    /// slots are emptied. `value` is the result of `items` from the first cut to `hi`.
    fn reduce_to(&mut self, level: usize, value: Option<T>, Ghost(items): Ghost<Seq<T>>, Ghost(hi): Ghost<int>) -> (r: Option<T>)
        requires
            old(self).slots_ok(items),
            level <= old(self).buffers@.len(),
            old(self).cut@[0] <= hi <= items.len(),
            covers(old(self).op, items, old(self).cut@[0], hi, value),
        ensures
            final(self).buffers@.len() == old(self).buffers@.len(),
            final(self).items@ == old(self).items@,
            final(self).cut@ == old(self).cut@,
            final(self).op == old(self).op,
            final(self).count == old(self).count,
            forall|l: int| 0 <= l < level ==> #[trigger] final(self).buffers@[l] is None,
            forall|l: int| level <= l < final(self).buffers@.len() ==> #[trigger] final(self).buffers@[l] == old(self).buffers@[l],
            covers(old(self).op, items, old(self).cut@[level as int], hi, r),
    {
        let mut result = value;
        let mut i: usize = 0;
        while i < level
            invariant
                i <= level <= self.buffers@.len(),
                self.buffers@.len() == old(self).buffers@.len(),
                self.items@ == old(self).items@,
                self.cut@ == old(self).cut@,
                self.op == old(self).op,
                self.count == old(self).count,
                old(self).slots_ok(items),
                old(self).cut@[0] <= hi <= items.len(),
                forall|l: int| 0 <= l < i ==> #[trigger] self.buffers@[l] is None,
                forall|l: int| i <= l < self.buffers@.len() ==> #[trigger] self.buffers@[l] == old(self).buffers@[l],
                covers(self.op, items, self.cut@[i as int], hi, result),
            decreases level - i,
        {
            let ghost c = self.cut@;
            let mut slot = take_slot(&mut self.buffers, i);
            let ghost taken = slot;
            proof {
                assert(covers(self.op, items, c[i + 1], c[i as int], old(self).buffers@[i as int]));
                assert(c[i + 1] <= c[i as int]);
            }
            let ghost prev = result;
            result = adsorb(&self.op, &mut slot, result);
            let ghost slot = taken;
            proof {
                if c[i + 1] < c[i as int] && c[i as int] < hi {
                    lemma_combine(self.op, items, c[i + 1], c[i as int], hi, slot->0, prev->0, result->0);
                }
            }
            i = i + 1;
        }
        result
    }

    /// Adds an item, if `value` holds one.
    pub fn add(&mut self, value: Option<T>)
        requires
            old(self).inv(),
            old(self).count() < usize::MAX,
        ensures
            final(self).inv(),
            final(self).items() == match value {
                Some(v) => old(self).items().push(v),
                None => old(self).items(),
            },
            final(self).op() == old(self).op(),
            final(self).count() == old(self).count() + 1,
    {
        self.count = self.count + 1;
        let tz = (self.count as u64).trailing_zeros();
        let level: usize = if tz < 64 { tz as usize } else { 64 };
        self.reserve(level);
        let ghost n = self.items@.len();
        let ghost hi: int = if value is Some { n + 1int } else { n as int };
        let ghost items1 = if value is Some { self.items@.push(value->0) } else { self.items@ };
        let ghost c = self.cut@;
        let ghost b = self.buffers@;
        proof {
            if value is Some {
                assert(items1[n as int] == value->0);
                lemma_single(self.op, items1, n as int);
            }
            assert forall|l: int| 0 <= l < b.len() implies covers(self.op, items1, c[l + 1], c[l], #[trigger] b[l]) by {
                if c[l + 1] < c[l] {
                    assert(items1.subrange(c[l + 1], c[l]) =~= self.items@.subrange(c[l + 1], c[l]));
                }
            }
        }
        let r = self.reduce_to(level + 1, value, Ghost(items1), Ghost(hi));
        self.buffers.set(level, r);
        proof {
            self.items@ = items1;
            self.cut@ = Seq::new((b.len() + 1) as nat, |l: int| if l <= level { hi } else { c[l] });
            assert forall|l: int| 0 <= l < self.buffers@.len() implies covers(self.op, self.items@, self.cut@[l + 1], self.cut@[l], #[trigger] self.buffers@[l]) by {
                if l > level {
                    assert(self.buffers@[l] == b[l]);
                }
            }
        }
    }

    /// The result of all items added so far, `None` when there are none; the reducer is
    /// emptied.
    pub fn result(&mut self) -> (r: Option<T>)
        requires
            old(self).inv(),
        ensures
            final(self).inv(),
            r is None <==> old(self).items().len() == 0,
            r matches Some(x) ==> reduces_to(old(self).op(), old(self).items(), x),
            final(self).items() == Seq::<T>::empty(),
            final(self).op() == old(self).op(),
            final(self).count() == old(self).count(),
    {
        let len = self.buffers.len();
        let ghost n = self.items@.len();
        let r = self.reduce_to(len, None, Ghost(self.items@), Ghost(n as int));
        proof {
            assert(self.items@.subrange(0, n as int) =~= self.items@);
            self.items@ = Seq::empty();
            self.cut@ = Seq::new((len + 1) as nat, |l: int| 0int);
        }
        r
    }
}

/// The items combined from left to right with `f`: `f(f(s[0], s[1]), s[2])` and so on.
pub open spec fn fold_from_left<T>(f: spec_fn(T, T) -> T, s: Seq<T>) -> T
    recommends
        s.len() > 0,
    decreases s.len(),
{
    if s.len() <= 1 {
        s[0]
    } else {
        f(fold_from_left(f, s.drop_last()), s.last())
    }
}

/// `f` is associative.
pub open spec fn associative<T>(f: spec_fn(T, T) -> T) -> bool {
    forall|x: T, y: T, z: T| #[trigger] f(f(x, y), z) == f(x, f(y, z))
}

/// Every result that `op` gives is the value of `f` on its arguments.
pub open spec fn computes<T, F: Fn(T, T) -> T>(op: F, f: spec_fn(T, T) -> T) -> bool {
    forall|x: T, y: T, z: T| #[trigger] op.ensures((x, y), z) ==> z == f(x, y)
}

/// With an associative `f`, folding a concatenation combines the folds of its parts.
proof fn lemma_fold_concat<T>(f: spec_fn(T, T) -> T, s1: Seq<T>, s2: Seq<T>)
    requires
        s1.len() > 0,
        s2.len() > 0,
        associative(f),
    ensures
        fold_from_left(f, s1 + s2) == f(fold_from_left(f, s1), fold_from_left(f, s2)),
    decreases s2.len(),
{
    let s = s1 + s2;
    if s2.len() == 1 {
        assert(s.drop_last() =~= s1);
    } else {
        assert(s.drop_last() =~= s1 + s2.drop_last());
        lemma_fold_concat(f, s1, s2.drop_last());
        let a = fold_from_left(f, s1);
        let b = fold_from_left(f, s2.drop_last());
        assert(f(f(a, b), s2.last()) == f(a, f(b, s2.last())));
    }
}

/// The value of a bracketing made by an operation that computes an associative `f` is the fold
/// of its items.
proof fn lemma_bracketing_value<T, F: Fn(T, T) -> T>(op: F, f: spec_fn(T, T) -> T, t: Bracketing<T>)
    requires
        t.made_by(op),
        computes(op, f),
        associative(f),
    ensures
        t.items().len() > 0,
        t.value() == fold_from_left(f, t.items()),
    decreases t,
{
    match t {
        Bracketing::Item(_) => {},
        Bracketing::Pair(a, b, _) => {
            lemma_bracketing_value(op, f, *a);
            lemma_bracketing_value(op, f, *b);
            lemma_fold_concat(f, a.items(), b.items());
        },
    }
}

/// With an operation that computes an associative function `f`, the result of combining items
/// in any bracketing, and so the result of `reduce`, is the result of combining them from left
/// to right.
pub proof fn lemma_reduce_is_fold<T, F: Fn(T, T) -> T>(op: F, f: spec_fn(T, T) -> T, items: Seq<T>, r: T)
    requires
        computes(op, f),
        associative(f),
        reduces_to(op, items, r),
    ensures
        items.len() > 0,
        r == fold_from_left(f, items),
{
    let t = choose|t: Bracketing<T>| #[trigger] t.made_by(op) && t.items() == items && t.value() == r;
    lemma_bracketing_value(op, f, t);
}

/// Under an associative operation, what a reducer gives depends only on the items added: two
/// reducers with the same operation and the same items (whatever number of `add(None)` calls
/// either had) give the same result, the fold of the items from the left.
pub proof fn lemma_result_depends_on_items<T, F: Fn(T, T) -> T>(
    a: SonicReducer<T, F>,
    b: SonicReducer<T, F>,
    f: spec_fn(T, T) -> T,
    x: T,
    y: T,
)
    requires
        a.op() == b.op(),
        a.items() == b.items(),
        computes(a.op(), f),
        associative(f),
        reduces_to(a.op(), a.items(), x),
        reduces_to(b.op(), b.items(), y),
    ensures
        x == y,
        x == fold_from_left(f, a.items()),
{
    lemma_reduce_is_fold(a.op(), f, a.items(), x);
    lemma_reduce_is_fold(b.op(), f, b.items(), y);
}

/// Reduces the items with `op`, in order and with balanced brackets; `None` when there are no
/// items.
pub fn reduce<T, F: Fn(T, T) -> T>(iter: Vec<T>, op: F) -> (r: Option<T>)
    requires
        forall|x: T, y: T| #[trigger] op.requires((x, y)),
    ensures
        r is None <==> iter@.len() == 0,
        r matches Some(x) ==> reduces_to(op, iter@, x),
{
    let ghost items = iter@;
    let n = iter.len();
    let mut v = iter;
    let mut rev: Vec<T> = Vec::new();
    while v.len() > 0
        invariant
            n == items.len(),
            v@ == items.take(v@.len() as int),
            rev@.len() == n - v@.len(),
            forall|t: int| 0 <= t < rev@.len() ==> #[trigger] rev@[t] == items[n - 1 - t],
        decreases v@.len(),
    {
        let x = v.pop().unwrap();
        rev.push(x);
        assert(v@ =~= items.take(v@.len() as int));
    }
    let mut reducer: SonicReducer<T, F> = SonicReducer::new(op);
    while rev.len() > 0
        invariant
            n == items.len(),
            rev@.len() <= n,
            forall|t: int| 0 <= t < rev@.len() ==> #[trigger] rev@[t] == items[n - 1 - t],
            reducer.inv(),
            reducer.op() == op,
            reducer.items() == items.take(n - rev@.len()),
            reducer.count() == n - rev@.len(),
        decreases rev@.len(),
    {
        let ghost before = reducer.items();
        let x = rev.pop().unwrap();
        reducer.add(Some(x));
        assert(reducer.items() =~= items.take(n - rev@.len()));
    }
    let r = reducer.result();
    assert(items.take(n as int) =~= items);
    r
}
} // verus!

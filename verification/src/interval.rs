//! Single intervals of values: empty, everything, a point, rays and bounded ranges.
//!
//! Like interval sequences, an interval describes a set of half steps: `2 * x` stands for the
//! value `x` and `2 * x + 1` for the values right above `x`.
use vstd::prelude::*;
use crate::key::SortKey;

verus! {

/// One end of an interval.
#[derive(Clone, Copy, Debug)]
pub enum Bound<T> {
    /// the end of an empty interval
    Empty,
    /// no bound
    Unbound,
    /// the bound value is excluded
    Open(T),
    /// the bound value is included
    Closed(T),
}

impl<T: SortKey> Bound<T> {
    /// The bound with the given value, included or not.
    pub fn mk_bound(value: T, included: bool) -> (r: Bound<T>)
        ensures
            r == (if included { Bound::Closed(value) } else { Bound::Open(value) }),
    {
        if included {
            Bound::Closed(value)
        } else {
            Bound::Open(value)
        }
    }

    /// Whether the half step `d` lies on the inner side of this bound, read as a lower bound.
    pub open spec fn allows_from_below(self, d: int) -> bool {
        match self {
            Bound::Empty => false,
            Bound::Unbound => true,
            Bound::Open(x) => 2 * x.key() < d,
            Bound::Closed(x) => 2 * x.key() <= d,
        }
    }

    /// Whether the half step `d` lies on the inner side of this bound, read as an upper bound.
    pub open spec fn allows_from_above(self, d: int) -> bool {
        match self {
            Bound::Empty => false,
            Bound::Unbound => true,
            Bound::Open(x) => d < 2 * x.key(),
            Bound::Closed(x) => d <= 2 * x.key(),
        }
    }
}

/// An interval of values.
#[derive(Debug, PartialEq, Eq, Clone, Copy)]
pub enum Interval<T> {
    /// no value
    Empty,
    /// every value
    All,
    /// a single value
    Point(T),
    /// the values above the bound, which is included if the flag is set
    Above(T, bool),
    /// the values below the bound, which is included if the flag is set
    Below(T, bool),
    /// the values between the bounds, each included if its flag is set
    Bounded(T, bool, T, bool),
}

/// Whether the half step `d` lies above `x` (at `x` too, if `included`).
pub open spec fn above_point<T: SortKey>(x: T, included: bool, d: int) -> bool {
    2 * x.key() < d || (included && d == 2 * x.key())
}

/// Whether the half step `d` lies below `x` (at `x` too, if `included`).
pub open spec fn below_point<T: SortKey>(x: T, included: bool, d: int) -> bool {
    d < 2 * x.key() || (included && d == 2 * x.key())
}

impl<T: SortKey> Interval<T> {
    /// Whether the interval holds the half step `d`.
    pub open spec fn holds(self, d: int) -> bool {
        match self {
            Interval::Empty => false,
            Interval::All => true,
            Interval::Point(x) => d == 2 * x.key(),
            Interval::Above(x, xi) => above_point(x, xi, d),
            Interval::Below(x, xi) => below_point(x, xi, d),
            Interval::Bounded(a, ai, b, bi) => above_point(a, ai, d) && below_point(b, bi, d),
        }
    }

    /// A bounded interval has its lower bound below its upper bound.
    pub open spec fn spec_valid(self) -> bool {
        match self {
            Interval::Bounded(a, _, b, _) => a.key() < b.key(),
            _ => true,
        }
    }
}

impl<T: SortKey> View for Interval<T> {
    type V = Set<int>;

    open spec fn view(&self) -> Set<int> {
        Set::new(|d: int| self.holds(d))
    }
}

impl<T: SortKey> Interval<T> {
    /// The interval holding just `value`.
    pub fn at(value: T) -> (r: Interval<T>)
        ensures
            r == Interval::Point(value),
    {
        Interval::Point(value)
    }

    /// The values above `value`.
    pub fn above(value: T) -> (r: Interval<T>)
        ensures
            r == Interval::Above(value, false),
    {
        Interval::Above(value, false)
    }

    /// The values at or above `value`.
    pub fn at_or_above(value: T) -> (r: Interval<T>)
        ensures
            r == Interval::Above(value, true),
    {
        Interval::Above(value, true)
    }

    /// The values below `value`.
    pub fn below(value: T) -> (r: Interval<T>)
        ensures
            r == Interval::Below(value, false),
    {
        Interval::Below(value, false)
    }

    /// The values at or below `value`.
    pub fn at_or_below(value: T) -> (r: Interval<T>)
        ensures
            r == Interval::Below(value, true),
    {
        Interval::Below(value, true)
    }

    /// The interval between `lower` and `upper`. Both are `Empty` or neither is, and a bounded
    /// range needs its lower value below its upper value, or both equal and closed.
    pub fn from_bounds(lower: Bound<T>, upper: Bound<T>) -> (r: Interval<T>)
        requires
            (lower is Empty) == (upper is Empty),
            match (lower, upper) {
                (Bound::Open(x), Bound::Open(y)) => x.key() < y.key(),
                (Bound::Open(x), Bound::Closed(y)) => x.key() < y.key(),
                (Bound::Closed(x), Bound::Open(y)) => x.key() < y.key(),
                (Bound::Closed(x), Bound::Closed(y)) => x.key() <= y.key(),
                _ => true,
            },
        ensures
            r.spec_valid(),
            forall|d: int| #[trigger] r.holds(d) == (lower.allows_from_below(d) && upper.allows_from_above(d)),
    {
        match (lower, upper) {
            (Bound::Empty, Bound::Empty) => Interval::Empty,
            (Bound::Closed(x), Bound::Closed(y)) => Self::range_unchecked(x, true, y, true),
            (Bound::Closed(x), Bound::Open(y)) => Self::range_unchecked(x, true, y, false),
            (Bound::Open(x), Bound::Closed(y)) => Self::range_unchecked(x, false, y, true),
            (Bound::Open(x), Bound::Open(y)) => Self::range_unchecked(x, false, y, false),
            (Bound::Unbound, Bound::Open(y)) => Interval::below(y),
            (Bound::Unbound, Bound::Closed(y)) => Interval::at_or_below(y),
            (Bound::Open(x), Bound::Unbound) => Interval::above(x),
            (Bound::Closed(x), Bound::Unbound) => Interval::at_or_above(x),
            (Bound::Unbound, Bound::Unbound) => Interval::All,
            (Bound::Empty, _) => Interval::Empty,
            (_, Bound::Empty) => Interval::Empty,
        }
    }

    /// The range between `min` and `max` when it can be formed.
    fn range_unchecked(min: T, min_included: bool, max: T, max_included: bool) -> (r: Interval<T>)
        requires
            min.key() < max.key() || (min.key() == max.key() && min_included && max_included),
        ensures
            r.spec_valid(),
            forall|d: int| #[trigger] r.holds(d) == (above_point(min, min_included, d) && below_point(max, max_included, d)),
    {
        if min.key_lt(&max) {
            Interval::Bounded(min, min_included, max, max_included)
        } else {
            Interval::Point(min)
        }
    }

    /// The lower end of the interval.
    pub fn lower_bound(self) -> (r: Bound<T>)
        ensures
            r == match self {
                Interval::All => Bound::Unbound,
                Interval::Empty => Bound::Empty,
                Interval::Point(x) => Bound::Closed(x),
                Interval::Above(x, xi) => if xi { Bound::Closed(x) } else { Bound::Open(x) },
                Interval::Below(_, _) => Bound::Unbound,
                Interval::Bounded(a, ai, _, _) => if ai { Bound::Closed(a) } else { Bound::Open(a) },
            },
    {
        match self {
            Interval::All => Bound::Unbound,
            Interval::Empty => Bound::Empty,
            Interval::Point(x) => Bound::Closed(x),
            Interval::Above(x, x_i) => Bound::mk_bound(x, x_i),
            Interval::Below(_, _) => Bound::Unbound,
            Interval::Bounded(min, min_i, _, _) => Bound::mk_bound(min, min_i),
        }
    }

    /// The upper end of the interval.
    pub fn upper_bound(self) -> (r: Bound<T>)
        ensures
            r == match self {
                Interval::All => Bound::Unbound,
                Interval::Empty => Bound::Empty,
                Interval::Point(x) => Bound::Closed(x),
                Interval::Below(x, xi) => if xi { Bound::Closed(x) } else { Bound::Open(x) },
                Interval::Above(_, _) => Bound::Unbound,
                Interval::Bounded(_, _, b, bi) => if bi { Bound::Closed(b) } else { Bound::Open(b) },
            },
    {
        match self {
            Interval::All => Bound::Unbound,
            Interval::Empty => Bound::Empty,
            Interval::Point(x) => Bound::Closed(x),
            Interval::Below(x, x_i) => Bound::mk_bound(x, x_i),
            Interval::Above(_, _) => Bound::Unbound,
            Interval::Bounded(_, _, max, max_i) => Bound::mk_bound(max, max_i),
        }
    }

    /// Whether a bounded interval has its lower bound below its upper bound.
    pub fn is_valid(self) -> (r: bool)
        ensures
            r == self.spec_valid(),
    {
        match self {
            Interval::Bounded(min, _, max, _) => min.key_lt(&max),
            _ => true,
        }
    }

    /// The membership test: a point holds just its value, a ray above `x` or a bounded range
    /// holds what lies on the inner side of its bounds, and a ray below `x` answers for the
    /// values *above* `x` (and `x` when included), unlike [Interval::holds].
    pub fn contains(&self, value: T) -> (r: bool)
        ensures
            r == match *self {
                Interval::Empty => false,
                Interval::All => true,
                Interval::Point(x) => value.key() == x.key(),
                Interval::Above(x, xi) => value.key() > x.key() || (xi && value.key() == x.key()),
                Interval::Below(x, xi) => value.key() > x.key() || (xi && value.key() == x.key()),
                Interval::Bounded(a, ai, b, bi) => (value.key() > a.key() || (ai && value.key() == a.key()))
                    && (value.key() < b.key() || (bi && value.key() == b.key())),
            },
    {
        match self {
            Interval::Empty => false,
            Interval::All => true,
            Interval::Point(x) => x.key_eq(&value),
            Interval::Above(x, x_i) => x.key_lt(&value) || (*x_i && value.key_eq(x)),
            Interval::Below(x, x_i) => x.key_lt(&value) || (*x_i && value.key_eq(x)),
            Interval::Bounded(min, min_i, max, max_i) => {
                (min.key_lt(&value) || (*min_i && value.key_eq(min))) && (value.key_lt(max) || (*max_i
                    && value.key_eq(max)))
            },
        }
    }

    /// The range from `min` to `max`, each included if its flag is set. It is a point when the
    /// two are equal and both included; it is an error when `min` lies above `max`, or when
    /// they are equal and not both included.
    pub fn range(min: T, min_included: bool, max: T, max_included: bool) -> (r: Result<Interval<T>, String>)
        ensures
            min.key() < max.key() ==> r == Ok::<Interval<T>, String>(Interval::Bounded(min, min_included, max, max_included)),
            min.key() == max.key() && min_included && max_included ==> r == Ok::<Interval<T>, String>(Interval::Point(min)),
            r is Err <==> !(min.key() < max.key() || (min.key() == max.key() && min_included && max_included)),
            r matches Err(e) ==> e@ == "Error"@,
    {
        if min.key_lt(&max) {
            Ok(Interval::Bounded(min, min_included, max, max_included))
        } else if min.key_eq(&max) && min_included && max_included {
            Ok(Interval::Point(min))
        } else {
            Err(<String as vstd::string::StringExecFns>::from_str("Error"))
        }
    }
}

/// A valid interval is determined by the half steps it holds: two valid intervals that hold
/// the same half steps are equal.
pub proof fn lemma_view_injective<T: SortKey>(a: Interval<T>, b: Interval<T>)
    requires
        a.spec_valid(),
        b.spec_valid(),
        a@ == b@,
    ensures
        a == b,
{
    assert forall|d: int| #[trigger] a.holds(d) == b.holds(d) by {
        assert(a@.contains(d) == a.holds(d));
        assert(b@.contains(d) == b.holds(d));
    }
    assert(a.holds(0) == b.holds(0));
    lemma_probe(a, b);
    lemma_probe(b, a);
    match (a, b) {
        (Interval::Point(x), Interval::Point(y)) => {
            T::lemma_key_injective(x, y);
        },
        (Interval::Above(x, _), Interval::Above(y, _)) => {
            T::lemma_key_injective(x, y);
        },
        (Interval::Below(x, _), Interval::Below(y, _)) => {
            T::lemma_key_injective(x, y);
        },
        (Interval::Bounded(x, _, z, _), Interval::Bounded(y, _, w, _)) => {
            T::lemma_key_injective(x, y);
            T::lemma_key_injective(z, w);
        },
        _ => {},
    }
}

/// Both intervals agree on the half steps at and next to the bounds of `a`.
proof fn lemma_probe<T: SortKey>(a: Interval<T>, b: Interval<T>)
    requires
        forall|d: int| #[trigger] a.holds(d) == b.holds(d),
    ensures
        match a {
            Interval::Point(x) | Interval::Above(x, _) | Interval::Below(x, _) => {
                &&& a.holds(2 * x.key() - 1) == b.holds(2 * x.key() - 1)
                &&& a.holds(2 * x.key()) == b.holds(2 * x.key())
                &&& a.holds(2 * x.key() + 1) == b.holds(2 * x.key() + 1)
            },
            Interval::Bounded(x, _, y, _) => {
                &&& a.holds(2 * x.key() - 1) == b.holds(2 * x.key() - 1)
                &&& a.holds(2 * x.key()) == b.holds(2 * x.key())
                &&& a.holds(2 * x.key() + 1) == b.holds(2 * x.key() + 1)
                &&& a.holds(2 * y.key() - 1) == b.holds(2 * y.key() - 1)
                &&& a.holds(2 * y.key()) == b.holds(2 * y.key())
                &&& a.holds(2 * y.key() + 1) == b.holds(2 * y.key() + 1)
            },
            _ => true,
        },
{
}

} // verus!

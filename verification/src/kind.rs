//! What an interval sequence says at and above one of its boundary values.
use vstd::prelude::*;
use std::ops::{BitAnd, BitOr, BitXor, Not};

verus! {

/// The membership at a boundary value and right above it: `Kxy` has `x` at the value and `y`
/// above it.
#[derive(Clone, Copy, Debug, PartialEq, Eq, Structural)]
pub enum Kind {
    /// not at the value, not above it
    K00,
    /// not at the value, above it
    K01,
    /// at the value, not above it
    K10,
    /// at the value and above it
    K11,
}

impl Kind {
    /// Membership at the value.
    pub open spec fn at(self) -> bool {
        self is K10 || self is K11
    }

    /// Membership right above the value.
    pub open spec fn above(self) -> bool {
        self is K01 || self is K11
    }

    /// The kind with the given membership at and above the value.
    pub open spec fn of(at: bool, above: bool) -> Kind {
        if at {
            if above {
                Kind::K11
            } else {
                Kind::K10
            }
        } else if above {
            Kind::K01
        } else {
            Kind::K00
        }
    }

    /// The kind with the given membership at and above the value.
    pub fn from_bits(at: bool, above: bool) -> (r: Kind)
        ensures
            r == Kind::of(at, above),
            r.at() == at,
            r.above() == above,
    {
        if at {
            if above {
                Kind::K11
            } else {
                Kind::K10
            }
        } else if above {
            Kind::K01
        } else {
            Kind::K00
        }
    }

    /// The kind that the two low bits of `value` encode: bit 1 for at, bit 0 for above.
    pub fn from_u8(value: u8) -> (r: Kind)
        ensures
            r.at() == (value % 4 >= 2),
            r.above() == (value % 2 == 1),
    {
        let v = value % 4;
        if v == 0 {
            Kind::K00
        } else if v == 1 {
            Kind::K01
        } else if v == 2 {
            Kind::K10
        } else {
            Kind::K11
        }
    }

    /// Membership at the value.
    pub fn value_at(&self) -> (r: bool)
        ensures
            r == self.at(),
    {
        match self {
            Kind::K10 | Kind::K11 => true,
            _ => false,
        }
    }

    /// Membership right above the value.
    pub fn value_above(&self) -> (r: bool)
        ensures
            r == self.above(),
    {
        match self {
            Kind::K01 | Kind::K11 => true,
            _ => false,
        }
    }

    /// The kind with both memberships negated.
    pub fn flipped(self) -> (r: Kind)
        ensures
            r == Kind::of(!self.at(), !self.above()),
    {
        Kind::from_bits(!self.value_at(), !self.value_above())
    }

    /// A kind is determined by its two memberships.
    pub proof fn lemma_of(self)
        ensures
            self == Kind::of(self.at(), self.above()),
    {
    }
}

impl BitAnd for Kind {
    type Output = Kind;

    fn bitand(self, that: Kind) -> (r: Kind)
        ensures
            r == Kind::of(self.at() && that.at(), self.above() && that.above()),
    {
        Kind::from_bits(self.value_at() && that.value_at(), self.value_above() && that.value_above())
    }
}

impl vstd::std_specs::ops::BitAndSpecImpl for Kind {
    open spec fn obeys_bitand_spec() -> bool {
        true
    }

    open spec fn bitand_req(self, rhs: Kind) -> bool {
        true
    }

    open spec fn bitand_spec(self, rhs: Kind) -> Kind {
        Kind::of(self.at() && rhs.at(), self.above() && rhs.above())
    }
}

impl BitOr for Kind {
    type Output = Kind;

    fn bitor(self, that: Kind) -> (r: Kind)
        ensures
            r == Kind::of(self.at() || that.at(), self.above() || that.above()),
    {
        Kind::from_bits(self.value_at() || that.value_at(), self.value_above() || that.value_above())
    }
}

impl vstd::std_specs::ops::BitOrSpecImpl for Kind {
    open spec fn obeys_bitor_spec() -> bool {
        true
    }

    open spec fn bitor_req(self, rhs: Kind) -> bool {
        true
    }

    open spec fn bitor_spec(self, rhs: Kind) -> Kind {
        Kind::of(self.at() || rhs.at(), self.above() || rhs.above())
    }
}

impl BitXor for Kind {
    type Output = Kind;

    fn bitxor(self, that: Kind) -> (r: Kind)
        ensures
            r == Kind::of(self.at() != that.at(), self.above() != that.above()),
    {
        Kind::from_bits(self.value_at() != that.value_at(), self.value_above() != that.value_above())
    }
}

impl vstd::std_specs::ops::BitXorSpecImpl for Kind {
    open spec fn obeys_bitxor_spec() -> bool {
        true
    }

    open spec fn bitxor_req(self, rhs: Kind) -> bool {
        true
    }

    open spec fn bitxor_spec(self, rhs: Kind) -> Kind {
        Kind::of(self.at() != rhs.at(), self.above() != rhs.above())
    }
}

impl Not for Kind {
    type Output = Kind;

    fn not(self) -> (r: Kind)
        ensures
            r == Kind::of(!self.at(), !self.above()),
    {
        self.flipped()
    }
}

impl vstd::std_specs::ops::NotSpecImpl for Kind {
    open spec fn obeys_not_spec() -> bool {
        true
    }

    open spec fn not_req(self) -> bool {
        true
    }

    open spec fn not_spec(self) -> Kind {
        Kind::of(!self.at(), !self.above())
    }
}

} // verus!

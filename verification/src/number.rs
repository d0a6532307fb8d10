//! Doubles as bit patterns, with the comparisons that IEEE-754 gives them.

use vstd::prelude::*;

verus! {

/// The bits of positive infinity; every larger magnitude is a NaN.
pub const INFINITY_BITS: u64 = 0x7ff0_0000_0000_0000;

/// The sign bit of a double.
pub const SIGN_BIT: u64 = 0x8000_0000_0000_0000;

/// A double, held as the bits that `f64::to_bits` gives.
#[derive(Debug, Clone, Copy, PartialEq, Eq, Hash, Structural)]
pub struct Real {
    pub bits: u64,
}

/// A position or a direction in space.
pub type Vector3 = [Real; 3];

impl Real {
    /// The bits without the sign.
    pub open spec fn magnitude(self) -> int {
        if self.bits >= SIGN_BIT {
            self.bits - SIGN_BIT
        } else {
            self.bits as int
        }
    }

    pub open spec fn negative(self) -> bool {
        self.bits >= SIGN_BIT
    }

    pub open spec fn nan(self) -> bool {
        self.magnitude() > INFINITY_BITS
    }

    pub open spec fn finite(self) -> bool {
        self.magnitude() < INFINITY_BITS
    }

    /// Where the number stands among all numbers; both zeros stand at 0.
    pub open spec fn rank(self) -> int {
        if self.negative() {
            -self.magnitude()
        } else {
            self.magnitude()
        }
    }

    /// Where the bits stand in the total order of IEEE-754: negative NaNs
    /// first, -0 before +0, positive NaNs last.
    pub open spec fn total_rank(self) -> int {
        if self.negative() {
            -self.magnitude() - 1
        } else {
            self.magnitude()
        }
    }

    /// `self <= other`; false where one of them is a NaN.
    pub open spec fn le(self, other: Real) -> bool {
        !self.nan() && !other.nan() && self.rank() <= other.rank()
    }

    /// `self < other`; false where one of them is a NaN.
    pub open spec fn lt(self, other: Real) -> bool {
        !self.nan() && !other.nan() && self.rank() < other.rank()
    }

    /// `self == other` on numbers: both zeros are equal and no NaN is.
    pub open spec fn same_value(self, other: Real) -> bool {
        !self.nan() && !other.nan() && self.rank() == other.rank()
    }

    pub open spec fn positive_finite(self) -> bool {
        self.finite() && self.rank() > 0
    }

    pub fn zero() -> (result: Real)
        ensures
            result.bits == 0,
            result.rank() == 0,
            result.finite(),
    {
        Real { bits: 0 }
    }

    pub fn infinity() -> (result: Real)
        ensures
            result.bits == INFINITY_BITS,
    {
        Real { bits: INFINITY_BITS }
    }

    /// The number with the other sign.
    pub open spec fn opposite(self) -> Real {
        if self.negative() {
            Real { bits: (self.bits - SIGN_BIT) as u64 }
        } else {
            Real { bits: (self.bits + SIGN_BIT) as u64 }
        }
    }

    pub fn negated(self) -> (result: Real)
        ensures
            result == self.opposite(),
            result.rank() == -self.rank(),
            result.nan() == self.nan(),
    {
        if self.bits >= SIGN_BIT {
            Real { bits: self.bits - SIGN_BIT }
        } else {
            Real { bits: self.bits + SIGN_BIT }
        }
    }

    fn magnitude_bits(self) -> (result: u64)
        ensures
            result == self.magnitude(),
    {
        if self.bits >= SIGN_BIT {
            self.bits - SIGN_BIT
        } else {
            self.bits
        }
    }

    pub fn is_nan(self) -> (result: bool)
        ensures
            result == self.nan(),
    {
        self.magnitude_bits() > INFINITY_BITS
    }

    pub fn is_finite(self) -> (result: bool)
        ensures
            result == self.finite(),
    {
        self.magnitude_bits() < INFINITY_BITS
    }

    /// Whether the number is finite and greater than zero.
    pub fn is_positive_finite(self) -> (result: bool)
        ensures
            result == self.positive_finite(),
    {
        0 < self.bits && self.bits < INFINITY_BITS
    }

    /// `self <= other` as IEEE-754 compares.
    pub fn at_most(self, other: Real) -> (result: bool)
        ensures
            result == self.le(other),
    {
        if self.is_nan() || other.is_nan() {
            return false;
        }
        let left: u64 = self.magnitude_bits();
        let right: u64 = other.magnitude_bits();
        if self.bits >= SIGN_BIT {
            if other.bits >= SIGN_BIT {
                left >= right
            } else {
                true
            }
        } else if other.bits >= SIGN_BIT {
            left == 0 && right == 0
        } else {
            left <= right
        }
    }

    /// `self < other` as IEEE-754 compares.
    pub fn less(self, other: Real) -> (result: bool)
        ensures
            result == self.lt(other),
    {
        self.at_most(other) && !other.at_most(self)
    }

    /// `self == other` as IEEE-754 compares.
    pub fn equal(self, other: Real) -> (result: bool)
        ensures
            result == self.same_value(other),
    {
        self.at_most(other) && other.at_most(self)
    }

    /// Whether `self` comes before `other` in the total order.
    pub fn total_less(self, other: Real) -> (result: bool)
        ensures
            result == (self.total_rank() < other.total_rank()),
    {
        let left: u64 = self.magnitude_bits();
        let right: u64 = other.magnitude_bits();
        if self.bits >= SIGN_BIT {
            if other.bits >= SIGN_BIT {
                left > right
            } else {
                true
            }
        } else if other.bits >= SIGN_BIT {
            false
        } else {
            left < right
        }
    }
}

/// The total order separates any two bit patterns.
pub proof fn total_rank_injective(a: Real, b: Real)
    ensures
        a.total_rank() == b.total_rank() ==> a == b,
{
}

/// On finite numbers `<=` is a total order up to the sign of zero.
pub proof fn finite_numbers_are_comparable(a: Real, b: Real)
    requires
        a.finite(),
        b.finite(),
    ensures
        a.le(b) || b.le(a),
        a.lt(b) == !b.le(a),
        a.le(b) && b.le(a) ==> a.same_value(b),
{
}

pub open spec fn all_finite(v: Vector3) -> bool {
    v[0].finite() && v[1].finite() && v[2].finite()
}

/// Whether the three coordinates are finite.
pub fn is_finite_vector(v: Vector3) -> (result: bool)
    ensures
        result == all_finite(v),
{
    v[0].is_finite() && v[1].is_finite() && v[2].is_finite()
}

/// The order of numbers: no NaN compares, any two others do one way, and the order
/// carries over. Both zeros are equal, and negation turns the order round.
pub proof fn numbers_are_ordered(a: Real, b: Real, c: Real)
    ensures
        a.nan() || b.nan() ==> !a.le(b) && !a.lt(b) && !a.same_value(b),
        !a.nan() && !b.nan() ==> a.le(b) || b.le(a),
        a.le(b) && b.le(c) ==> a.le(c),
        a.lt(b) <==> a.le(b) && !b.le(a),
        a.same_value(b) <==> a.le(b) && b.le(a),
        (Real { bits: 0 }).same_value(Real { bits: SIGN_BIT }),
        a.finite() ==> !a.nan(),
        a.opposite().opposite() == a,
        a.lt(b) <==> b.opposite().lt(a.opposite()),
        a.positive_finite() <==> a.finite() && (Real { bits: 0 }).lt(a),
        !a.nan() && !b.nan() && a.total_rank() < b.total_rank() ==> a.le(b),
{
}

} // verus!

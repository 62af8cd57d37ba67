//! The order of floating-point numbers, told from their bits.
//!
//! A number is held as the bits of its IEEE 754 encoding. Which of two numbers
//! is the larger can be read off the sign and the magnitude, so comparing
//! needs no arithmetic; what has to add or multiply lies outside this library.

use vstd::prelude::*;

verus! {

/// The sign bit of a double.
pub const SIGN: u64 = 0x8000_0000_0000_0000;

/// The bits of positive infinity in double precision.
pub const INFINITY: u64 = 0x7ff0_0000_0000_0000;

/// The bits of one in double precision.
pub const ONE: u64 = 0x3ff0_0000_0000_0000;

/// The sign bit of a float.
pub const SIGN_SINGLE: u32 = 0x8000_0000;

/// The bits of positive infinity in single precision.
pub const INFINITY_SINGLE: u32 = 0x7f80_0000;

/// The bits of negative infinity in single precision.
pub const NEG_INFINITY_SINGLE: u32 = 0xff80_0000;

/// A number in double precision, by its bits.
#[derive(Clone, Copy, PartialEq, Eq, Debug, Structural)]
pub struct Double {
    pub bits: u64,
}

impl Double {
    /// The encoding without its sign.
    pub open spec fn magnitude(self) -> int {
        if self.bits >= SIGN {
            self.bits - SIGN
        } else {
            self.bits as int
        }
    }

    pub open spec fn is_nan(self) -> bool {
        self.magnitude() > INFINITY
    }

    /// A rank that orders the numbers: the larger number has the larger rank,
    /// and the two zeros share one.
    pub open spec fn rank(self) -> int {
        if self.bits >= SIGN {
            -self.magnitude()
        } else {
            self.magnitude()
        }
    }

    /// `self <= other`, which is false of anything that is not a number.
    pub open spec fn at_most(self, other: Double) -> bool {
        !self.is_nan() && !other.is_nan() && self.rank() <= other.rank()
    }

    /// `self < other`, which is false of anything that is not a number.
    pub open spec fn below(self, other: Double) -> bool {
        !self.is_nan() && !other.is_nan() && self.rank() < other.rank()
    }

    /// Whether the bits encode no number.
    pub fn nan(self) -> (r: bool)
        ensures
            r == self.is_nan(),
    {
        if self.bits >= SIGN {
            self.bits - SIGN > INFINITY
        } else {
            self.bits > INFINITY
        }
    }

    /// Whether the number is at most another.
    pub fn le(self, other: Double) -> (r: bool)
        ensures
            r == self.at_most(other),
    {
        if self.nan() || other.nan() {
            return false;
        }
        if self.bits >= SIGN {
            if other.bits >= SIGN {
                self.bits >= other.bits
            } else {
                true
            }
        } else if other.bits >= SIGN {
            self.bits == 0 && other.bits == SIGN
        } else {
            self.bits <= other.bits
        }
    }

    /// Whether the number is less than another.
    pub fn lt(self, other: Double) -> (r: bool)
        ensures
            r == self.below(other),
    {
        !self.nan() && !other.nan() && !other.le(self)
    }
}

/// A number in single precision, by its bits.
#[derive(Clone, Copy, PartialEq, Eq, Debug, Structural)]
pub struct Single {
    pub bits: u32,
}

impl Single {
    /// The encoding without its sign.
    pub open spec fn magnitude(self) -> int {
        if self.bits >= SIGN_SINGLE {
            self.bits - SIGN_SINGLE
        } else {
            self.bits as int
        }
    }

    pub open spec fn is_nan(self) -> bool {
        self.magnitude() > INFINITY_SINGLE
    }

    /// A rank that orders the numbers: the larger number has the larger rank,
    /// and the two zeros share one.
    pub open spec fn rank(self) -> int {
        if self.bits >= SIGN_SINGLE {
            -self.magnitude()
        } else {
            self.magnitude()
        }
    }

    /// The place in the total order of all encodings, in which the negative
    /// zero comes just before the positive one.
    pub open spec fn total_rank(self) -> int {
        if self.bits >= SIGN_SINGLE {
            -self.magnitude() - 1
        } else {
            self.magnitude()
        }
    }

    /// `self <= other`, which is false of anything that is not a number.
    pub open spec fn at_most(self, other: Single) -> bool {
        !self.is_nan() && !other.is_nan() && self.rank() <= other.rank()
    }

    /// `self < other`, which is false of anything that is not a number.
    pub open spec fn below(self, other: Single) -> bool {
        !self.is_nan() && !other.is_nan() && self.rank() < other.rank()
    }

    /// Whether the bits encode no number.
    pub fn nan(self) -> (r: bool)
        ensures
            r == self.is_nan(),
    {
        if self.bits >= SIGN_SINGLE {
            self.bits - SIGN_SINGLE > INFINITY_SINGLE
        } else {
            self.bits > INFINITY_SINGLE
        }
    }

    /// Whether the number is at most another.
    pub fn le(self, other: Single) -> (r: bool)
        ensures
            r == self.at_most(other),
    {
        if self.nan() || other.nan() {
            return false;
        }
        if self.bits >= SIGN_SINGLE {
            if other.bits >= SIGN_SINGLE {
                self.bits >= other.bits
            } else {
                true
            }
        } else if other.bits >= SIGN_SINGLE {
            self.bits == 0 && other.bits == SIGN_SINGLE
        } else {
            self.bits <= other.bits
        }
    }

    /// Whether the number is less than another.
    pub fn lt(self, other: Single) -> (r: bool)
        ensures
            r == self.below(other),
    {
        !self.nan() && !other.nan() && !other.le(self)
    }

    /// Whether the encoding comes before another, or is the same, in the total
    /// order.
    pub fn total_le(self, other: Single) -> (r: bool)
        ensures
            r == (self.total_rank() <= other.total_rank()),
    {
        if self.bits >= SIGN_SINGLE {
            if other.bits >= SIGN_SINGLE {
                self.bits >= other.bits
            } else {
                true
            }
        } else if other.bits >= SIGN_SINGLE {
            false
        } else {
            self.bits <= other.bits
        }
    }
}

/// Numbers in double precision are ordered by their values: of two that are not
/// negative the larger encoding is the larger number, a negative one is below every
/// other that is not, changing both signs turns the order round, and the two zeros
/// are equal. What is not a number is neither below nor above anything.
pub proof fn doubles_are_ordered_by_value(a: Double, b: Double)
    ensures
        a.is_nan() || b.is_nan() ==> !a.below(b) && !a.at_most(b),
        !a.is_nan() && !b.is_nan() ==> (a.at_most(b) <==> !b.below(a)),
        a.bits < SIGN && b.bits <= INFINITY && a.bits < b.bits ==> a.below(b),
        SIGN < a.bits <= SIGN + INFINITY && b.bits <= INFINITY ==> a.below(b),
        a.bits < SIGN && b.bits < SIGN ==> (a.below(b) <==> (Double {
            bits: (b.bits + SIGN) as u64,
        }).below(Double { bits: (a.bits + SIGN) as u64 })),
        a.bits == 0 && b.bits == SIGN ==> a.at_most(b) && b.at_most(a),
{
}

/// Numbers in single precision are ordered by their values in the same way, and the
/// total order agrees with that wherever one is below the other.
pub proof fn singles_are_ordered_by_value(a: Single, b: Single)
    ensures
        a.is_nan() || b.is_nan() ==> !a.below(b) && !a.at_most(b),
        !a.is_nan() && !b.is_nan() ==> (a.at_most(b) <==> !b.below(a)),
        a.bits < SIGN_SINGLE && b.bits <= INFINITY_SINGLE && a.bits < b.bits ==> a.below(b),
        SIGN_SINGLE < a.bits <= SIGN_SINGLE + INFINITY_SINGLE && b.bits <= INFINITY_SINGLE
            ==> a.below(b),
        a.bits < SIGN_SINGLE && b.bits < SIGN_SINGLE ==> (a.below(b) <==> (Single {
            bits: (b.bits + SIGN_SINGLE) as u32,
        }).below(Single { bits: (a.bits + SIGN_SINGLE) as u32 })),
        a.bits == 0 && b.bits == SIGN_SINGLE ==> a.at_most(b) && b.at_most(a),
        a.below(b) ==> a.total_rank() < b.total_rank(),
        a.total_rank() == b.total_rank() ==> a == b,
{
}

}

use vstd::prelude::*;

verus! {

/// The bit pattern of the sign of a double.
pub const SIGN_BIT: u64 = 0x8000_0000_0000_0000;

/// The bit pattern of positive infinity; every larger magnitude is not a number.
pub const INFINITY_BITS: u64 = 0x7FF0_0000_0000_0000;

/// The bit pattern of the double one.
pub const ONE_BITS: u64 = 0x3FF0_0000_0000_0000;

/// A real quantity as the library carries it: the 64 bits of an IEEE 754
/// double-precision number.
///
/// The library stores, copies and orders such values and leaves all arithmetic
/// on them to its caller. Two scalars are equal here when their bits are.
#[derive(Clone, Copy, Debug, PartialEq, Eq, Structural)]
pub struct Scalar {
    pub bits: u64,
}

/// A position, a velocity or an acceleration in the plane.
pub type Vector = (Scalar, Scalar);

impl Scalar {
    /// Whether the sign bit is set.
    pub open spec fn negative(self) -> bool {
        self.bits >= SIGN_BIT
    }

    /// The bits without the sign: exponent and fraction read as one number.
    /// Among doubles of one sign, a larger magnitude is further from zero.
    pub open spec fn magnitude(self) -> int {
        if self.negative() {
            self.bits - SIGN_BIT
        } else {
            self.bits as int
        }
    }

    /// Whether the bits encode no number at all.
    pub open spec fn is_nan(self) -> bool {
        self.magnitude() > INFINITY_BITS
    }

    /// The place of the value on the real line: the magnitude with its sign.
    /// Both zeros have rank 0.
    pub open spec fn rank(self) -> int {
        if self.negative() {
            -self.magnitude()
        } else {
            self.magnitude()
        }
    }

    /// The order of doubles: `self > other`. Nothing is greater than, or less
    /// than, a value that is not a number.
    pub open spec fn spec_gt(self, other: Scalar) -> bool {
        !self.is_nan() && !other.is_nan() && self.rank() > other.rank()
    }

    /// The scalar with the given bits.
    pub fn from_bits(bits: u64) -> (s: Scalar)
        ensures
            s.bits == bits,
    {
        Scalar { bits }
    }

    /// The bits of the scalar.
    pub fn to_bits(self) -> (bits: u64)
        ensures
            bits == self.bits,
    {
        self.bits
    }

    /// Positive zero.
    pub fn zero() -> (s: Scalar)
        ensures
            s.bits == 0,
    {
        Scalar { bits: 0 }
    }

    /// The number one.
    pub fn one() -> (s: Scalar)
        ensures
            s.bits == ONE_BITS,
    {
        Scalar { bits: ONE_BITS }
    }

    /// Whether `self` is greater than `other` as doubles are ordered.
    pub fn gt(self, other: Scalar) -> (r: bool)
        ensures
            r == self.spec_gt(other),
    {
        let a_negative: bool = self.bits >= SIGN_BIT;
        let b_negative: bool = other.bits >= SIGN_BIT;
        let a: u64 = if a_negative { self.bits - SIGN_BIT } else { self.bits };
        let b: u64 = if b_negative { other.bits - SIGN_BIT } else { other.bits };
        if a > INFINITY_BITS || b > INFINITY_BITS {
            false
        } else if a_negative {
            b_negative && a < b
        } else if b_negative {
            a > 0 || b > 0
        } else {
            a > b
        }
    }
}

/// No scalar is greater than itself, and of two scalars at most one is greater
/// than the other.
pub proof fn lemma_gt_is_strict(a: Scalar, b: Scalar)
    ensures
        !a.spec_gt(a),
        !(a.spec_gt(b) && b.spec_gt(a)),
{
}

} // verus!

//! 32-bit and 64-bit floating point values by their bit patterns.
//!
//! The library orders, stores and converts such values; it never computes with
//! them. A pattern has a sign bit, and below it a magnitude that grows with the
//! absolute value of the number and ends in the infinity and the NaNs.

use vstd::prelude::*;

verus! {

/// A single precision value, held as its IEEE 754 bit pattern.
#[derive(Debug, Clone, Copy)]
pub struct F32 {
    pub bits: u32,
}

/// A double precision value, held as its IEEE 754 bit pattern.
#[derive(Debug, Clone, Copy)]
pub struct F64 {
    pub bits: u64,
}

/// The magnitude of infinity; what lies above it is not a number.
pub const INFINITY_MAGNITUDE: u32 = 0x7F80_0000;

/// The weight of the sign bit.
pub const SIGN_WEIGHT: u32 = 0x8000_0000;

/// The magnitude of infinity in double precision.
pub const INFINITY_MAGNITUDE_64: u64 = 0x7FF0_0000_0000_0000;

/// The weight of the sign bit in double precision.
pub const SIGN_WEIGHT_64: u64 = 0x8000_0000_0000_0000;

impl F32 {
    /// Whether the sign bit is set.
    pub open spec fn negative(self) -> bool {
        self.bits >= SIGN_WEIGHT
    }

    /// The pattern without the sign bit.
    pub open spec fn magnitude(self) -> int {
        if self.negative() {
            self.bits - SIGN_WEIGHT
        } else {
            self.bits as int
        }
    }

    pub open spec fn nan(self) -> bool {
        self.magnitude() > INFINITY_MAGNITUDE
    }

    /// Orders numbers by value; both zeros have rank 0.
    pub open spec fn rank(self) -> int {
        if self.negative() {
            -self.magnitude()
        } else {
            self.magnitude()
        }
    }

    /// The place of the pattern in the total order of IEEE 754: negative zero
    /// comes before positive zero, and NaNs lie outside the infinities.
    pub open spec fn total_rank(self) -> int {
        if self.negative() {
            -self.magnitude() - 1
        } else {
            self.magnitude()
        }
    }

    /// `>=` on floating point numbers: false if one is not a number.
    pub open spec fn at_least(self, other: F32) -> bool {
        !self.nan() && !other.nan() && self.rank() >= other.rank()
    }

    pub fn from_bits(bits: u32) -> (v: F32)
        ensures
            v.bits == bits,
    {
        F32 { bits }
    }

    pub fn to_bits(self) -> (bits: u32)
        ensures
            bits == self.bits,
    {
        self.bits
    }

    pub fn is_nan(self) -> (b: bool)
        ensures
            b == self.nan(),
    {
        let m: u32 = if self.bits >= SIGN_WEIGHT {
            self.bits - SIGN_WEIGHT
        } else {
            self.bits
        };
        m > INFINITY_MAGNITUDE
    }

    /// Whether this comes after or at `other` in the total order.
    pub fn total_ge(self, other: F32) -> (b: bool)
        ensures
            b == (self.total_rank() >= other.total_rank()),
    {
        if self.bits >= SIGN_WEIGHT {
            if other.bits >= SIGN_WEIGHT {
                self.bits <= other.bits
            } else {
                false
            }
        } else if other.bits >= SIGN_WEIGHT {
            true
        } else {
            self.bits >= other.bits
        }
    }

    /// `self >= other` as floating point numbers.
    pub fn ge(self, other: F32) -> (b: bool)
        ensures
            b == self.at_least(other),
    {
        if self.is_nan() || other.is_nan() {
            return false;
        }
        if self.bits >= SIGN_WEIGHT {
            if other.bits >= SIGN_WEIGHT {
                self.bits <= other.bits
            } else {
                self.bits == SIGN_WEIGHT && other.bits == 0
            }
        } else if other.bits >= SIGN_WEIGHT {
            true
        } else {
            self.bits >= other.bits
        }
    }
}

impl F32 {
    /// `<` on floating point numbers: false if one is not a number.
    pub open spec fn below(self, other: F32) -> bool {
        !self.nan() && !other.nan() && self.rank() < other.rank()
    }

    /// `self < other` as floating point numbers.
    pub fn lt(self, other: F32) -> (b: bool)
        ensures
            b == self.below(other),
    {
        !self.is_nan() && !other.is_nan() && !self.ge(other)
    }

    /// The rank of a number.
    pub fn key(self) -> (k: i64)
        ensures
            k == self.rank(),
    {
        if self.bits >= SIGN_WEIGHT {
            -((self.bits - SIGN_WEIGHT) as i64)
        } else {
            self.bits as i64
        }
    }
}

impl F64 {
    /// Whether the sign bit is set.
    pub open spec fn negative(self) -> bool {
        self.bits >= SIGN_WEIGHT_64
    }

    /// The pattern without the sign bit.
    pub open spec fn magnitude(self) -> int {
        if self.negative() {
            self.bits - SIGN_WEIGHT_64
        } else {
            self.bits as int
        }
    }

    pub open spec fn nan(self) -> bool {
        self.magnitude() > INFINITY_MAGNITUDE_64
    }

    /// Orders numbers by value; both zeros have rank 0.
    pub open spec fn rank(self) -> int {
        if self.negative() {
            -self.magnitude()
        } else {
            self.magnitude()
        }
    }

    pub fn is_nan(self) -> (b: bool)
        ensures
            b == self.nan(),
    {
        let m: u64 = if self.bits >= SIGN_WEIGHT_64 {
            self.bits - SIGN_WEIGHT_64
        } else {
            self.bits
        };
        m > INFINITY_MAGNITUDE_64
    }

    /// The rank of a number.
    pub fn key(self) -> (k: i64)
        ensures
            k == self.rank(),
    {
        if self.bits >= SIGN_WEIGHT_64 {
            -((self.bits - SIGN_WEIGHT_64) as i64)
        } else {
            self.bits as i64
        }
    }

    /// Whether this is a number above zero.
    pub fn is_positive(self) -> (b: bool)
        ensures
            b == (!self.nan() && self.rank() > 0),
    {
        !self.is_nan() && self.key() > 0
    }
}

impl PartialEq for F64 {
    /// Equality of floating point numbers: the zeros are equal, and nothing
    /// equals a NaN.
    fn eq(&self, other: &Self) -> (b: bool) {
        !self.is_nan() && !other.is_nan() && self.key() == other.key()
    }
}

impl vstd::std_specs::cmp::PartialEqSpecImpl for F64 {
    open spec fn obeys_eq_spec() -> bool {
        true
    }

    open spec fn eq_spec(&self, other: &Self) -> bool {
        !self.nan() && !other.nan() && self.rank() == other.rank()
    }
}

impl PartialEq for F32 {
    /// Equality of floating point numbers: the zeros are equal, and nothing
    /// equals a NaN.
    fn eq(&self, other: &Self) -> (b: bool) {
        self.ge(*other) && other.ge(*self)
    }
}

impl vstd::std_specs::cmp::PartialEqSpecImpl for F32 {
    open spec fn obeys_eq_spec() -> bool {
        true
    }

    open spec fn eq_spec(&self, other: &Self) -> bool {
        self.at_least(*other) && other.at_least(*self)
    }
}

/// The bit pattern of zero.
pub const ZERO_BITS: u32 = 0;

/// The bit pattern of one.
pub const ONE_BITS: u32 = 0x3F80_0000;

/// The bit pattern of negative infinity.
pub const NEG_INFINITY_BITS: u32 = 0xFF80_0000;

/// On numbers, the total order refines the order by value.
pub proof fn total_order_refines_value_order(a: F32, b: F32)
    requires
        !a.nan(),
        !b.nan(),
        a.rank() > b.rank(),
    ensures
        a.total_rank() > b.total_rank(),
{
}

/// The total order tells any two patterns apart.
pub proof fn total_order_is_strict(a: F32, b: F32)
    ensures
        a.total_rank() == b.total_rank() <==> a.bits == b.bits,
{
}


/// What is not a number has all bits of the exponent set and some bit of the fraction;
/// the infinities are numbers.
pub proof fn only_fractions_of_the_last_exponent_are_no_numbers(a: F32, b: F64)
    ensures
        a.nan() <==> a.bits / 0x80_0000 % 256 == 255 && a.bits % 0x80_0000 != 0,
        b.nan() <==> b.bits / 0x10_0000_0000_0000 % 2048 == 2047 && b.bits % 0x10_0000_0000_0000
            != 0,
{
}
} // verus!

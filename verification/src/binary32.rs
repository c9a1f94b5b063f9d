//! The IEEE 754 binary32 interchange format, held as its 32-bit pattern.
//!
//! A pattern is a sign bit, eight bits of biased exponent and 23 bits of
//! fraction. Every finite value is an integer multiple of 2^-149; the
//! arithmetic of this crate is stated over those integers.

use vstd::arithmetic::power2::pow2;
use vstd::prelude::*;

verus! {

/// Encoding of +infinity without the sign bit; larger magnitudes are NaN.
pub const INFINITY_BITS: u32 = 0x7f80_0000;

/// The quiet NaN that every invalid operation returns.
pub const NAN_BITS: u32 = 0x7fc0_0000;

/// The sign bit.
pub const SIGN_BIT: u32 = 0x8000_0000;

/// The value one.
pub const ONE_BITS: u32 = 0x3f80_0000;

/// A binary32 value, identified with its bit pattern.
#[derive(Clone, Copy, Debug, PartialEq, Eq, Structural)]
pub struct Binary32 {
    pub bits: u32,
}

impl Binary32 {
    /// The sign bit is set.
    pub open spec fn is_negative(self) -> bool {
        self.bits >= 0x8000_0000
    }

    /// The pattern without its sign bit. On values that are not NaN this
    /// grows with the absolute value.
    pub open spec fn magnitude(self) -> nat {
        (self.bits % 0x8000_0000) as nat
    }

    /// The exponent field: 0 for zeros and subnormal values, 255 for
    /// infinities and NaN.
    pub open spec fn biased_exponent(self) -> nat {
        self.magnitude() / 0x80_0000
    }

    /// The fraction field.
    pub open spec fn fraction(self) -> nat {
        self.magnitude() % 0x80_0000
    }

    /// The pattern is a NaN: the exponent field is full and the fraction is
    /// not zero.
    pub open spec fn is_nan(self) -> bool {
        self.magnitude() > INFINITY_BITS
    }

    /// The pattern is an infinity.
    pub open spec fn is_infinite(self) -> bool {
        self.magnitude() == INFINITY_BITS
    }

    /// The pattern is a zero, a subnormal or a normal value.
    pub open spec fn is_finite(self) -> bool {
        self.magnitude() < INFINITY_BITS
    }

    /// The pattern is a zero of either sign.
    pub open spec fn is_zero(self) -> bool {
        self.magnitude() == 0
    }

    /// The integer significand of a finite value: the fraction, with the
    /// implicit leading bit where the value is normal.
    pub open spec fn significand(self) -> nat {
        if self.biased_exponent() == 0 {
            self.fraction()
        } else {
            0x80_0000 + self.fraction()
        }
    }

    /// The exponent of the last place of a finite value: its absolute value
    /// is `significand() * 2^exponent()`.
    pub open spec fn exponent(self) -> int {
        if self.biased_exponent() == 0 {
            -149
        } else {
            self.biased_exponent() - 150
        }
    }

    /// The absolute value of a finite value, counted in units of 2^-149.
    pub open spec fn units(self) -> nat {
        self.significand() * pow2((self.exponent() + 149) as nat)
    }

    /// The value of a finite value, counted in units of 2^-149.
    pub open spec fn signed_units(self) -> int {
        if self.is_negative() {
            -(self.units() as int)
        } else {
            self.units() as int
        }
    }

    /// An integer that orders the values that are not NaN as the reals
    /// order them; the two zeros share the key 0.
    pub open spec fn key(self) -> int {
        if self.is_negative() {
            -(self.magnitude() as int)
        } else {
            self.magnitude() as int
        }
    }

    /// The value with the given sign and encoded magnitude.
    pub open spec fn with_sign(negative: bool, magnitude: nat) -> Binary32 {
        Binary32 {
            bits: (if negative {
                magnitude + 0x8000_0000
            } else {
                magnitude
            }) as u32,
        }
    }

    /// The same magnitude with the opposite sign.
    pub open spec fn negated(self) -> Binary32 {
        Binary32::with_sign(!self.is_negative(), self.magnitude())
    }

    /// The NaN that operations return.
    pub open spec fn nan() -> Binary32 {
        Binary32 { bits: NAN_BITS }
    }

    /// The zero with a clear sign bit.
    pub open spec fn zero() -> Binary32 {
        Binary32 { bits: 0 }
    }

    /// The zero with the sign bit set.
    pub open spec fn negative_zero() -> Binary32 {
        Binary32 { bits: 0x8000_0000 }
    }

    /// Wraps a bit pattern.
    pub fn from_bits(bits: u32) -> (x: Binary32)
        ensures
            x.bits == bits,
    {
        Binary32 { bits }
    }

    /// Builds the value with the given sign and encoded magnitude.
    pub fn pack(negative: bool, magnitude: u32) -> (x: Binary32)
        requires
            magnitude <= 0x7fff_ffff,
        ensures
            x == Binary32::with_sign(negative, magnitude as nat),
    {
        if negative {
            Binary32 { bits: magnitude + 0x8000_0000 }
        } else {
            Binary32 { bits: magnitude }
        }
    }

    /// The bit pattern.
    pub fn to_bits(self) -> (bits: u32)
        ensures
            bits == self.bits,
    {
        self.bits
    }
}

/// A pattern taken apart: sign, encoded magnitude, and for finite values the
/// significand and exponent.
pub struct Parts {
    pub negative: bool,
    pub magnitude: u32,
    pub significand: u32,
    pub exponent: i32,
}

impl Binary32 {
    /// Splits a pattern into its fields.
    pub fn unpack(self) -> (p: Parts)
        ensures
            p.negative == self.is_negative(),
            p.magnitude == self.magnitude(),
            p.significand == self.significand(),
            p.exponent == self.exponent(),
            p.significand < 0x100_0000,
            -149 <= p.exponent <= 105,
            p.magnitude <= 0x7fff_ffff,
            self == Binary32::with_sign(p.negative, p.magnitude as nat),
    {
        let b: u32 = self.bits;
        let negative: bool = b >= 0x8000_0000;
        let magnitude: u32 = b & 0x7fff_ffff;
        let biased: u32 = magnitude >> 23;
        let fraction: u32 = magnitude & 0x7f_ffff;
        assert(b & 0x7fff_ffff == b % 0x8000_0000) by (bit_vector);
        assert((b & 0x7fff_ffff) >> 23 == (b % 0x8000_0000) / 0x80_0000) by (bit_vector);
        assert(((b & 0x7fff_ffff) >> 23) <= 255) by (bit_vector);
        assert((b & 0x7fff_ffff) & 0x7f_ffff == (b % 0x8000_0000) % 0x80_0000) by (bit_vector);
        let significand: u32 = if biased == 0 {
            fraction
        } else {
            0x80_0000 + fraction
        };
        let exponent: i32 = if biased == 0 {
            -149
        } else {
            biased as i32 - 150
        };
        Parts { negative, magnitude, significand, exponent }
    }
}

} // verus!

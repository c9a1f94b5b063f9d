//! Conversions between binary32 values and integers.

use crate::binary32::{Binary32, INFINITY_BITS, NAN_BITS};
use crate::log2::{lemma_pow2_monotone, pow2_u128};
use crate::rounding::{
    lemma_round_exact, lemma_round_magnitude_bound, lemma_round_scaled, round_nearest_even,
    round_pack,
};
use vstd::arithmetic::div_mod::{
    lemma_basic_div, lemma_div_by_multiple, lemma_div_denominator,
};
use vstd::arithmetic::power2::{lemma2_to64, lemma_pow2_adds, lemma_pow2_pos, pow2};
use vstd::prelude::*;

verus! {

impl Binary32 {
    /// The binary32 nearest to the integer `n`, ties to even.
    pub open spec fn spec_from_u64(n: u64) -> Binary32 {
        round_nearest_even(false, n as nat, 0, false)
    }

    /// The integer part of the absolute value of a finite value.
    pub open spec fn integer_part(self) -> nat {
        self.units() / pow2(149)
    }

    /// The value truncated toward zero and held to the range of `u32`:
    /// zero for NaN and for negative values, the largest `u32` for values
    /// too large.
    pub open spec fn spec_to_u32(self) -> u32 {
        if self.is_nan() || self.is_negative() {
            0
        } else if self.is_infinite() || self.integer_part() > 0xffff_ffff {
            0xffff_ffff
        } else {
            self.integer_part() as u32
        }
    }

    /// The nearest integer, halfway cases away from zero, as a binary32.
    /// In units of 2^-149, the integer below `|x| + 1/2` is
    /// `(2 * units + 2^149) / 2^150`.
    pub open spec fn spec_round(self) -> Binary32 {
        if self.is_nan() {
            Binary32::nan()
        } else if self.is_infinite() {
            self
        } else {
            round_nearest_even(
                self.is_negative(),
                (2 * self.units() + pow2(149)) / pow2(150),
                0,
                false,
            )
        }
    }
}

/// The integer part of a finite value in terms of its fields.
pub proof fn lemma_integer_part(x: Binary32)
    requires
        x.is_finite(),
    ensures
        x.exponent() >= 0 ==> x.integer_part() == x.significand() * pow2(x.exponent() as nat),
        x.exponent() < 0 ==> x.integer_part() == x.significand() / pow2((-x.exponent()) as nat),
{
    let s = x.significand();
    let e = x.exponent();
    let k = (e + 149) as nat;
    lemma_pow2_pos(149);
    if e >= 0 {
        let pe = pow2(e as nat);
        lemma_pow2_adds(e as nat, 149);
        assert(s * pow2(k) == (s * pe) * pow2(149)) by (nonlinear_arith)
            requires
                pow2(k) == pe * pow2(149),
        ;
        lemma_div_by_multiple((s * pe) as int, pow2(149) as int);
    } else {
        let d = (-e) as nat;
        let pk = pow2(k);
        let pd = pow2(d);
        lemma_pow2_pos(k);
        lemma_pow2_pos(d);
        lemma_pow2_adds(k, d);
        lemma_div_denominator((s * pk) as int, pk as int, pd as int);
        lemma_div_by_multiple(s as int, pk as int);
    }
}

/// The nearest integer to a finite value in terms of its fields.
pub proof fn lemma_nearest_integer(x: Binary32)
    requires
        x.is_finite(),
    ensures
        x.exponent() >= 0 ==> (2 * x.units() + pow2(149)) / pow2(150) == x.significand() * pow2(
            x.exponent() as nat,
        ),
        x.exponent() < 0 ==> (2 * x.units() + pow2(149)) / pow2(150) == (2 * x.significand()
            + pow2((-x.exponent()) as nat)) / pow2((1 - x.exponent()) as nat),
{
    let s = x.significand();
    let e = x.exponent();
    let k = (e + 149) as nat;
    let h = pow2(149);
    lemma_pow2_pos(149);
    lemma_pow2_adds(149, 1);
    lemma2_to64();
    if e >= 0 {
        let pe = pow2(e as nat);
        lemma_pow2_adds(e as nat, 149);
        let v = s * pe;
        assert(2 * (s * pow2(k)) + h == (2 * h) * v + h) by (nonlinear_arith)
            requires
                pow2(k) == pe * h,
                v == s * pe,
        ;
        vstd::arithmetic::div_mod::lemma_div_multiples_vanish_fancy(
            v as int,
            h as int,
            (2 * h) as int,
        );
    } else {
        let d = (-e) as nat;
        let pk = pow2(k);
        let pd = pow2(d);
        let pd1 = pow2(d + 1);
        lemma_pow2_pos(k);
        lemma_pow2_pos(d + 1);
        lemma_pow2_adds(k, d);
        lemma_pow2_adds(k, d + 1);
        let top = 2 * s + pd;
        assert(2 * (s * pk) + h == top * pk) by (nonlinear_arith)
            requires
                h == pk * pd,
                top == 2 * s + pd,
        ;
        assert(pow2(150) == pk * pd1);
        lemma_div_denominator((top * pk) as int, pk as int, pd1 as int);
        lemma_div_by_multiple(top as int, pk as int);
    }
}

impl Binary32 {
    /// Converts an integer, rounding to nearest.
    pub fn from_u64(n: u64) -> (r: Binary32)
        ensures
            r == Binary32::spec_from_u64(n),
    {
        round_pack(false, n as u128, 0, false)
    }

    /// Converts a 32-bit integer, rounding to nearest.
    pub fn from_u32(n: u32) -> (r: Binary32)
        ensures
            r == Binary32::spec_from_u64(n as u64),
    {
        round_pack(false, n as u128, 0, false)
    }

    /// Converts to an integer, truncating toward zero and saturating.
    pub fn to_u32(self) -> (n: u32)
        ensures
            n == self.spec_to_u32(),
    {
        let a = self.unpack();
        if a.magnitude > INFINITY_BITS || a.negative {
            return 0;
        }
        if a.magnitude == INFINITY_BITS {
            return 0xffff_ffff;
        }
        proof {
            lemma_integer_part(self);
            lemma2_to64();
        }
        let sig: u64 = a.significand as u64;
        if a.exponent >= 0 {
            let ghost pe = pow2(a.exponent as nat);
            if a.exponent >= 9 {
                proof {
                    lemma_pow2_monotone(9, a.exponent as nat);
                    assert(sig * pe > 0xffff_ffff) by (nonlinear_arith)
                        requires
                            sig >= 0x80_0000,
                            pe >= 512,
                    ;
                }
                return 0xffff_ffff;
            }
            let p: u128 = pow2_u128(a.exponent as u32);
            proof {
                lemma_pow2_monotone(a.exponent as nat, 8);
            }
            assert(sig * p <= 0xffff_ffff) by (nonlinear_arith)
                requires
                    sig < 0x100_0000,
                    p <= 256,
            ;
            (sig * (p as u64)) as u32
        } else {
            let d: u32 = (-a.exponent) as u32;
            if d >= 24 {
                proof {
                    lemma_pow2_monotone(24, d as nat);
                    lemma_basic_div(sig as int, pow2(d as nat) as int);
                }
                return 0;
            }
            let p: u128 = pow2_u128(d);
            (sig / (p as u64)) as u32
        }
    }

    /// Rounds to the nearest integer, halfway cases away from zero.
    pub fn round(self) -> (r: Binary32)
        ensures
            r == self.spec_round(),
    {
        let a = self.unpack();
        if a.magnitude > INFINITY_BITS {
            return Binary32 { bits: NAN_BITS };
        }
        if a.magnitude == INFINITY_BITS {
            return self;
        }
        proof {
            lemma_nearest_integer(self);
            lemma2_to64();
        }
        if a.exponent >= 0 {
            proof {
                lemma_round_scaled(self.significand(), a.exponent as nat, a.exponent as int);
                lemma_round_exact(self);
            }
            return self;
        }
        let d: u32 = (-a.exponent) as u32;
        let sig: u64 = a.significand as u64;
        if d >= 26 {
            proof {
                lemma_pow2_monotone(26, d as nat);
                lemma_pow2_adds(d as nat, 1);
                lemma_basic_div((2 * sig + pow2(d as nat)) as int, pow2((d + 1) as nat) as int);
                lemma_round_magnitude_bound(0, 0, false);
            }
            return Binary32::pack(a.negative, 0);
        }
        let p: u64 = pow2_u128(d) as u64;
        let twice: u64 = pow2_u128(d + 1) as u64;
        proof {
            lemma_pow2_monotone(d as nat, 25);
            lemma_pow2_monotone((d + 1) as nat, 26);
        }
        let n: u64 = (2 * sig + p) / twice;
        round_pack(a.negative, n as u128, 0, false)
    }
}

} // verus!

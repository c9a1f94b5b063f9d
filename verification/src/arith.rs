//! Multiplication and division of binary32 values, correctly rounded.

use crate::binary32::{Binary32, INFINITY_BITS, NAN_BITS};
use crate::log2::pow2_u128;
use crate::log2::{floor_log2, lemma_floor_log2_monotone, lemma_floor_log2_unique};
use crate::rounding::{
    lemma_round_scaled, lemma_round_significand_nearest, quantum, round_nearest_even,
    round_pack, round_significand,
};
use vstd::arithmetic::div_mod::{lemma_fundamental_div_mod, lemma_mod_bound};
use vstd::arithmetic::power2::{lemma2_to64, lemma_pow2_adds, pow2};
use vstd::prelude::*;

verus! {

impl Binary32 {
    /// The product: the exact product of the two values, rounded to nearest
    /// with ties to even. Infinity times zero is NaN.
    pub open spec fn spec_times(self, rhs: Binary32) -> Binary32 {
        let negative = self.is_negative() != rhs.is_negative();
        if self.is_nan() || rhs.is_nan() {
            Binary32::nan()
        } else if self.is_infinite() || rhs.is_infinite() {
            if self.is_zero() || rhs.is_zero() {
                Binary32::nan()
            } else {
                Binary32::with_sign(negative, INFINITY_BITS as nat)
            }
        } else {
            round_nearest_even(negative, self.units() * rhs.units(), -298, false)
        }
    }

    /// The quotient: the exact quotient of the two values, rounded to
    /// nearest with ties to even. The quotient of the significands is taken
    /// to 64 binary places, with a flag for what lies beyond; that is more
    /// than the rounding looks at. Zero over zero and infinity over
    /// infinity are NaN; a nonzero value over zero is infinite.
    pub open spec fn spec_divided_by(self, rhs: Binary32) -> Binary32 {
        let negative = self.is_negative() != rhs.is_negative();
        if self.is_nan() || rhs.is_nan() {
            Binary32::nan()
        } else if self.is_infinite() {
            if rhs.is_infinite() {
                Binary32::nan()
            } else {
                Binary32::with_sign(negative, INFINITY_BITS as nat)
            }
        } else if rhs.is_infinite() {
            Binary32::with_sign(negative, 0)
        } else if rhs.is_zero() {
            if self.is_zero() {
                Binary32::nan()
            } else {
                Binary32::with_sign(negative, INFINITY_BITS as nat)
            }
        } else {
            let n = self.significand() * pow2(64);
            let d = rhs.significand();
            round_nearest_even(
                negative,
                n / d,
                self.exponent() - rhs.exponent() - 64,
                n % d != 0,
            )
        }
    }

    /// Multiplies two values.
    pub fn times(self, rhs: Binary32) -> (r: Binary32)
        ensures
            r == self.spec_times(rhs),
    {
        let a = self.unpack();
        let b = rhs.unpack();
        let negative: bool = a.negative != b.negative;
        if a.magnitude > INFINITY_BITS || b.magnitude > INFINITY_BITS {
            return Binary32 { bits: NAN_BITS };
        }
        if a.magnitude == INFINITY_BITS || b.magnitude == INFINITY_BITS {
            if a.magnitude == 0 || b.magnitude == 0 {
                return Binary32 { bits: NAN_BITS };
            }
            return Binary32::pack(negative, INFINITY_BITS);
        }
        let sa: u128 = a.significand as u128;
        let sb: u128 = b.significand as u128;
        assert(sa * sb < 0x1_0000_0000_0000) by (nonlinear_arith)
            requires
                sa < 0x100_0000,
                sb < 0x100_0000,
        ;
        let m: u128 = sa * sb;
        let e: i32 = a.exponent + b.exponent;
        proof {
            let ka = (a.exponent + 149) as nat;
            let kb = (b.exponent + 149) as nat;
            let pa = pow2(ka);
            let pb = pow2(kb);
            lemma_pow2_adds(ka, kb);
            assert((sa * pa) * (sb * pb) == (sa * sb) * (pa * pb)) by (nonlinear_arith);
            lemma_round_scaled(m as nat, ka + kb, e as int);
        }
        round_pack(negative, m, e, false)
    }

    /// Divides `self` by `rhs`.
    pub fn divided_by(self, rhs: Binary32) -> (r: Binary32)
        ensures
            r == self.spec_divided_by(rhs),
    {
        let a = self.unpack();
        let b = rhs.unpack();
        let negative: bool = a.negative != b.negative;
        if a.magnitude > INFINITY_BITS || b.magnitude > INFINITY_BITS {
            return Binary32 { bits: NAN_BITS };
        }
        if a.magnitude == INFINITY_BITS {
            if b.magnitude == INFINITY_BITS {
                return Binary32 { bits: NAN_BITS };
            }
            return Binary32::pack(negative, INFINITY_BITS);
        }
        if b.magnitude == INFINITY_BITS {
            return Binary32::pack(negative, 0);
        }
        if b.magnitude == 0 {
            if a.magnitude == 0 {
                return Binary32 { bits: NAN_BITS };
            }
            return Binary32::pack(negative, INFINITY_BITS);
        }
        let sa: u128 = a.significand as u128;
        let d: u128 = b.significand as u128;
        let p: u128 = pow2_u128(64);
        proof {
            lemma2_to64();
        }
        assert(sa * p < 0x100_0000_0000_0000_0000_0000) by (nonlinear_arith)
            requires
                sa < 0x100_0000,
                p == 0x1_0000_0000_0000_0000,
        ;
        let n: u128 = sa * p;
        let q: u128 = n / d;
        let rem: u128 = n % d;
        proof {
            lemma_fundamental_div_mod(n as int, d as int);
            if rem != 0 {
                assert(q >= 0x100_0000) by (nonlinear_arith)
                    requires
                        n == d * q + rem,
                        rem < d,
                        d < 0x100_0000,
                        n == sa * p,
                        p == 0x1_0000_0000_0000_0000,
                        sa >= 1,
                        q >= 0,
                ;
            }
        }
        round_pack(negative, q, a.exponent - b.exponent - 64, rem != 0)
    }
}

/// The significand that a quotient of finite nonzero values keeps is
/// nearest to the exact quotient of their significands: with `n / d` that
/// quotient, scaled by 2^64, and `p` the weight of the last place kept, the
/// kept value `s * p` differs from `n / d` by at most `p / 2`, and by
/// exactly that only where `s` is even.
pub proof fn theorem_quotient_is_nearest(x: Binary32, y: Binary32)
    requires
        x.is_finite(),
        y.is_finite(),
        !x.is_zero(),
        !y.is_zero(),
    ensures
        ({
            let n = x.significand() * pow2(64);
            let d = y.significand();
            let e = x.exponent() - y.exponent() - 64;
            let q = quantum(n / d, e);
            let p = pow2((q - e) as nat);
            let s = round_significand(n / d, e, n % d != 0, q);
            let kept = s * (p * d);
            let distance = if kept >= n {
                kept - n
            } else {
                n - kept
            };
            &&& q > e
            &&& 2 * distance <= p * d
            &&& (2 * distance == p * d ==> s % 2 == 0)
        }),
{
    let sx = x.significand();
    let d = y.significand();
    let n = sx * pow2(64);
    let e = x.exponent() - y.exponent() - 64;
    let whole = n / d;
    lemma2_to64();
    lemma_fundamental_div_mod(n as int, d as int);
    lemma_mod_bound(n as int, d as int);
    assert(whole >= 0x100_0000_0000) by (nonlinear_arith)
        requires
            n == d * whole + n % d,
            n % d < d,
            0 < d < 0x100_0000,
            n == sx * pow2(64),
            pow2(64) == 0x1_0000_0000_0000_0000,
            sx >= 1,
            whole >= 0,
    ;
    lemma_pow2_adds(32, 8);
    lemma_pow2_adds(32, 9);
    lemma_floor_log2_monotone(0x100_0000_0000, whole);
    lemma_floor_log2_unique(0x100_0000_0000, 40);
    assert(floor_log2(whole) >= 40);
    assert(quantum(whole, e) > e);
    lemma_round_significand_nearest(whole, n % d, d, e, quantum(whole, e));
    assert(whole * d + n % d == n) by (nonlinear_arith)
        requires
            n == d * whole + n % d,
    ;
}

} // verus!

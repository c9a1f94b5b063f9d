//! Addition and subtraction of binary32 values, correctly rounded.

use crate::binary32::{Binary32, INFINITY_BITS, NAN_BITS};
use crate::log2::{lemma_pow2_monotone, pow2_u128};
use crate::rounding::{
    lemma_round_drop_bits, lemma_round_exact, lemma_round_scaled, round_magnitude,
    round_nearest_even, round_pack,
};
use vstd::arithmetic::div_mod::lemma_fundamental_div_mod_converse;
use vstd::arithmetic::power2::{lemma2_to64, lemma_pow2_adds, lemma_pow2_pos, pow2};
use vstd::prelude::*;

verus! {

impl Binary32 {
    /// The sum: the exact sum of the two values, rounded to nearest with
    /// ties to even. Infinities of opposite sign add to NaN. An exact zero
    /// sum is negative only where both terms are negative.
    pub open spec fn spec_plus(self, rhs: Binary32) -> Binary32 {
        if self.is_nan() || rhs.is_nan() {
            Binary32::nan()
        } else if self.is_infinite() {
            if rhs.is_infinite() && self.is_negative() != rhs.is_negative() {
                Binary32::nan()
            } else {
                self
            }
        } else if rhs.is_infinite() {
            rhs
        } else {
            let s = self.signed_units() + rhs.signed_units();
            if s == 0 {
                Binary32::with_sign(self.is_negative() && rhs.is_negative(), 0)
            } else if s < 0 {
                round_nearest_even(true, (-s) as nat, -149, false)
            } else {
                round_nearest_even(false, s as nat, -149, false)
            }
        }
    }

    /// The difference: the sum of `self` and the negation of `rhs`.
    pub open spec fn spec_minus(self, rhs: Binary32) -> Binary32 {
        self.spec_plus(rhs.negated())
    }
}

/// A finite nonzero value is a positive count of units.
pub proof fn lemma_units_positive(x: Binary32)
    requires
        x.is_finite(),
        !x.is_zero(),
    ensures
        x.significand() >= 1,
        x.units() >= 1,
        x.biased_exponent() != 0 ==> x.significand() >= 0x80_0000,
{
    let s = x.significand();
    let p = pow2((x.exponent() + 149) as nat);
    lemma_pow2_pos((x.exponent() + 149) as nat);
    assert(s * p >= 1) by (nonlinear_arith)
        requires
            s >= 1,
            p >= 1,
    ;
}

/// A zero counts no units.
pub proof fn lemma_units_zero(x: Binary32)
    requires
        x.is_zero(),
    ensures
        x.significand() == 0,
        x.units() == 0,
        x.signed_units() == 0,
{
    let s = x.significand();
    let p = pow2((x.exponent() + 149) as nat);
    assert(s * p == 0) by (nonlinear_arith)
        requires
            s == 0,
    ;
}

/// A term that lies far below the other only decides on which side of the
/// larger term the sum falls.
proof fn lemma_far_sum(sh: nat, sl: nat, d: nat, e: int)
    requires
        sh >= 0x80_0000,
        0 < sl < 0x100_0000,
        d >= 27,
    ensures
        round_magnitude(sh * pow2(d) + sl, e, false) == round_magnitude(sh * 4, e + d - 2, true),
{
    let k = (d - 2) as nat;
    let pk = pow2(k);
    lemma2_to64();
    lemma_pow2_adds(2, k);
    lemma_pow2_monotone(25, k);
    let m = sh * pow2(d) + sl;
    assert(m == (sh * 4) * pk + sl) by (nonlinear_arith)
        requires
            m == sh * pow2(d) + sl,
            pow2(d) == 4 * pk,
    ;
    lemma_fundamental_div_mod_converse(m as int, pk as int, (sh * 4) as int, sl as int);
    lemma_round_drop_bits(m, k, e, false);
}

/// The same for a difference: the result lies just below the larger term.
proof fn lemma_far_difference(sh: nat, sl: nat, d: nat, e: int)
    requires
        sh >= 0x80_0000,
        0 < sl < 0x100_0000,
        d >= 27,
    ensures
        sh * pow2(d) > sl,
        round_magnitude((sh * pow2(d) - sl) as nat, e, false) == round_magnitude(
            (sh * 8 - 1) as nat,
            e + d - 3,
            true,
        ),
{
    let k = (d - 3) as nat;
    let pk = pow2(k);
    lemma2_to64();
    lemma_pow2_adds(3, k);
    lemma_pow2_monotone(24, k);
    assert(sh * pow2(d) > sl) by (nonlinear_arith)
        requires
            sh >= 1,
            pow2(d) == 8 * pk,
            pk >= 0x100_0000,
            sl < 0x100_0000,
    ;
    let m = (sh * pow2(d) - sl) as nat;
    assert(m == (sh * 8 - 1) * pk + (pk - sl)) by (nonlinear_arith)
        requires
            m == sh * pow2(d) - sl,
            pow2(d) == 8 * pk,
    ;
    lemma_fundamental_div_mod_converse(m as int, pk as int, sh * 8 - 1, pk - sl);
    lemma_round_drop_bits(m, k, e, false);
}

/// Adds two finite nonzero values, the first with the larger exponent.
fn plus_ordered(x: Binary32, y: Binary32) -> (r: Binary32)
    requires
        x.is_finite(),
        y.is_finite(),
        !x.is_zero(),
        !y.is_zero(),
        x.exponent() >= y.exponent(),
    ensures
        r == x.spec_plus(y),
{
    let hi = x.unpack();
    let lo = y.unpack();
    let d: u32 = (hi.exponent - lo.exponent) as u32;
    let sh: u128 = hi.significand as u128;
    let sl: u128 = lo.significand as u128;
    let ghost kp = (lo.exponent + 149) as nat;
    let ghost unit = pow2(kp);
    let ghost pd = pow2(d as nat);
    proof {
        lemma_units_positive(x);
        lemma_units_positive(y);
        lemma_pow2_adds(d as nat, kp);
        lemma_pow2_pos(kp);
        lemma_pow2_pos(d as nat);
        assert(x.units() == (sh * pd) * unit) by (nonlinear_arith)
            requires
                x.units() == sh * pow2((d + kp) as nat),
                pow2((d + kp) as nat) == pd * unit,
        ;
        assert(y.units() == sl * unit);
        lemma2_to64();
    }
    if d <= 64 {
        let p: u128 = pow2_u128(d);
        proof {
            lemma_pow2_monotone(d as nat, 64);
        }
        assert(sh * p < 0x100_0000_0000_0000_0000_0000) by (nonlinear_arith)
            requires
                sh < 0x100_0000,
                p <= 0x1_0000_0000_0000_0000,
        ;
        let big: u128 = sh * p;
        if hi.negative == lo.negative {
            proof {
                assert(x.units() + y.units() == (big + sl) * unit) by (nonlinear_arith)
                    requires
                        x.units() == big * unit,
                        y.units() == sl * unit,
                ;
                lemma_round_scaled((big + sl) as nat, kp, lo.exponent as int);
            }
            round_pack(hi.negative, big + sl, lo.exponent, false)
        } else if big > sl {
            proof {
                assert(x.units() - y.units() == (big - sl) * unit) by (nonlinear_arith)
                    requires
                        x.units() == big * unit,
                        y.units() == sl * unit,
                ;
                assert((big - sl) * unit > 0) by (nonlinear_arith)
                    requires
                        big > sl,
                        unit > 0,
                ;
                lemma_round_scaled((big - sl) as nat, kp, lo.exponent as int);
            }
            round_pack(hi.negative, big - sl, lo.exponent, false)
        } else if big < sl {
            proof {
                assert(y.units() - x.units() == (sl - big) * unit) by (nonlinear_arith)
                    requires
                        x.units() == big * unit,
                        y.units() == sl * unit,
                ;
                assert((sl - big) * unit > 0) by (nonlinear_arith)
                    requires
                        big < sl,
                        unit > 0,
                ;
                lemma_round_scaled((sl - big) as nat, kp, lo.exponent as int);
            }
            round_pack(lo.negative, sl - big, lo.exponent, false)
        } else {
            Binary32 { bits: 0 }
        }
    } else {
        let ghost whole = sh * pd;
        if hi.negative == lo.negative {
            proof {
                assert(x.units() + y.units() == (whole + sl) * unit) by (nonlinear_arith)
                    requires
                        x.units() == whole * unit,
                        y.units() == sl * unit,
                ;
                lemma_round_scaled((whole + sl) as nat, kp, lo.exponent as int);
                lemma_far_sum(sh as nat, sl as nat, d as nat, lo.exponent as int);
            }
            round_pack(hi.negative, sh * 4, hi.exponent - 2, true)
        } else {
            proof {
                lemma_far_difference(sh as nat, sl as nat, d as nat, lo.exponent as int);
                assert(x.units() - y.units() == (whole - sl) * unit) by (nonlinear_arith)
                    requires
                        x.units() == whole * unit,
                        y.units() == sl * unit,
                ;
                assert((whole - sl) * unit > 0) by (nonlinear_arith)
                    requires
                        whole > sl,
                        unit > 0,
                ;
                lemma_round_scaled((whole - sl) as nat, kp, lo.exponent as int);
            }
            round_pack(hi.negative, sh * 8 - 1, hi.exponent - 3, true)
        }
    }
}

impl Binary32 {
    /// Flips the sign bit.
    pub fn negate(self) -> (r: Binary32)
        ensures
            r == self.negated(),
    {
        let b: u32 = self.bits;
        assert(b ^ 0x8000_0000 == (if b >= 0x8000_0000 {
            b % 0x8000_0000
        } else {
            (b % 0x8000_0000 + 0x8000_0000) as u32
        })) by (bit_vector);
        Binary32 { bits: b ^ 0x8000_0000 }
    }

    /// Adds two values.
    pub fn plus(self, rhs: Binary32) -> (r: Binary32)
        ensures
            r == self.spec_plus(rhs),
    {
        let a = self.unpack();
        let b = rhs.unpack();
        if a.magnitude > INFINITY_BITS || b.magnitude > INFINITY_BITS {
            return Binary32 { bits: NAN_BITS };
        }
        if a.magnitude == INFINITY_BITS {
            if b.magnitude == INFINITY_BITS && a.negative != b.negative {
                return Binary32 { bits: NAN_BITS };
            }
            return self;
        }
        if b.magnitude == INFINITY_BITS {
            return rhs;
        }
        if a.magnitude == 0 {
            proof {
                lemma_units_zero(self);
            }
            if b.magnitude == 0 {
                proof {
                    lemma_units_zero(rhs);
                }
                return Binary32::pack(a.negative && b.negative, 0);
            }
            proof {
                lemma_units_positive(rhs);
                lemma_round_exact(rhs);
            }
            return rhs;
        }
        if b.magnitude == 0 {
            proof {
                lemma_units_positive(self);
                lemma_round_exact(self);
                lemma_units_zero(rhs);
            }
            return self;
        }
        if a.exponent >= b.exponent {
            plus_ordered(self, rhs)
        } else {
            plus_ordered(rhs, self)
        }
    }

    /// Subtracts `rhs` from `self`.
    pub fn minus(self, rhs: Binary32) -> (r: Binary32)
        ensures
            r == self.spec_minus(rhs),
    {
        self.plus(rhs.negate())
    }
}

} // verus!

//! Comparison of binary32 values. NaN compares false with everything; the
//! two zeros are equal.

use crate::addition::{lemma_units_positive, lemma_units_zero};
use crate::binary32::{Binary32, INFINITY_BITS};
use crate::log2::lemma_pow2_monotone;
use vstd::arithmetic::power2::{lemma2_to64, lemma_pow2_pos, lemma_pow2_unfold, pow2};
use vstd::prelude::*;

verus! {

impl Binary32 {
    /// `self < rhs`.
    pub open spec fn spec_lt(self, rhs: Binary32) -> bool {
        !self.is_nan() && !rhs.is_nan() && self.key() < rhs.key()
    }

    /// `self <= rhs`.
    pub open spec fn spec_le(self, rhs: Binary32) -> bool {
        !self.is_nan() && !rhs.is_nan() && self.key() <= rhs.key()
    }

    /// The pattern is a NaN.
    pub fn is_nan_value(self) -> (b: bool)
        ensures
            b == self.is_nan(),
    {
        let a = self.unpack();
        a.magnitude > INFINITY_BITS
    }

    /// The ordering key of a value.
    pub fn ordering_key(self) -> (k: i64)
        ensures
            k == self.key(),
    {
        let a = self.unpack();
        if a.negative {
            -(a.magnitude as i64)
        } else {
            a.magnitude as i64
        }
    }

    /// Tests `self < rhs`.
    pub fn lt(self, rhs: Binary32) -> (b: bool)
        ensures
            b == self.spec_lt(rhs),
    {
        !self.is_nan_value() && !rhs.is_nan_value() && self.ordering_key() < rhs.ordering_key()
    }

    /// Tests `self <= rhs`.
    pub fn le(self, rhs: Binary32) -> (b: bool)
        ensures
            b == self.spec_le(rhs),
    {
        !self.is_nan_value() && !rhs.is_nan_value() && self.ordering_key() <= rhs.ordering_key()
    }
}

/// Among finite values the encoded magnitude grows with the absolute value.
pub proof fn lemma_units_monotone(a: Binary32, b: Binary32)
    requires
        a.is_finite(),
        b.is_finite(),
        a.magnitude() <= b.magnitude(),
    ensures
        a.units() <= b.units(),
        a.magnitude() < b.magnitude() ==> a.units() < b.units(),
{
    let ea = a.biased_exponent();
    let eb = b.biased_exponent();
    let sa = a.significand();
    let sb = b.significand();
    let ka = (a.exponent() + 149) as nat;
    let kb = (b.exponent() + 149) as nat;
    let pa = pow2(ka);
    let pb = pow2(kb);
    lemma_pow2_pos(ka);
    lemma_pow2_pos(kb);
    if ea == eb {
        assert(sa * pa <= sb * pb) by (nonlinear_arith)
            requires
                sa <= sb,
                pa == pb,
                pa > 0,
        ;
        if a.magnitude() < b.magnitude() {
            assert(sa * pa < sb * pb) by (nonlinear_arith)
                requires
                    sa < sb,
                    pa == pb,
                    pa > 0,
            ;
        }
    } else {
        assert(sb >= 0x80_0000);
        if ea == 0 {
            lemma2_to64();
            assert(sa * pa < 0x80_0000) by (nonlinear_arith)
                requires
                    sa < 0x80_0000,
                    pa == 1,
            ;
            assert(sb * pb >= 0x80_0000) by (nonlinear_arith)
                requires
                    sb >= 0x80_0000,
                    pb >= 1,
            ;
        } else {
            lemma_pow2_unfold(ka + 1);
            lemma_pow2_monotone(ka + 1, kb);
            assert(sa * pa < 0x80_0000 * (2 * pa)) by (nonlinear_arith)
                requires
                    sa < 0x100_0000,
                    pa > 0,
            ;
            assert(0x80_0000 * (2 * pa) <= sb * pb) by (nonlinear_arith)
                requires
                    2 * pa <= pb,
                    sb >= 0x80_0000,
                    pa > 0,
            ;
        }
    }
}

/// Comparison orders finite values as the reals order what they stand for.
pub proof fn theorem_order_is_value_order(a: Binary32, b: Binary32)
    requires
        a.is_finite(),
        b.is_finite(),
    ensures
        a.spec_lt(b) <==> a.signed_units() < b.signed_units(),
        a.spec_le(b) <==> a.signed_units() <= b.signed_units(),
{
    if a.magnitude() <= b.magnitude() {
        lemma_units_monotone(a, b);
    }
    if b.magnitude() <= a.magnitude() {
        lemma_units_monotone(b, a);
    }
    if a.is_zero() {
        lemma_units_zero(a);
    } else {
        lemma_units_positive(a);
    }
    if b.is_zero() {
        lemma_units_zero(b);
    } else {
        lemma_units_positive(b);
    }
}

} // verus!

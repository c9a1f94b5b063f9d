//! Facts about binary32 arithmetic: which results are not negative, which
//! operations keep the order of their arguments, and which are exact.

use crate::addition::{lemma_units_positive, lemma_units_zero};
use crate::binary32::{Binary32, ONE_BITS};
use crate::order::lemma_units_monotone;
use crate::rounding::{
    lemma_round_exact, lemma_round_magnitude_bound, lemma_round_monotone, lemma_round_scaled,
};
use crate::sqrt::isqrt;
use vstd::arithmetic::div_mod::{
    lemma_basic_div, lemma_div_by_multiple, lemma_div_is_ordered, lemma_div_pos_is_pos,
    lemma_mod_multiples_basic, lemma_small_mod,
};
use vstd::arithmetic::power2::{lemma2_to64, lemma_pow2_adds, lemma_pow2_pos, pow2};
use vstd::prelude::*;

verus! {

/// Not NaN, and the sign bit is clear.
pub open spec fn is_nonnegative(x: Binary32) -> bool {
    !x.is_nan() && !x.is_negative()
}

/// NaN, a zero of either sign, or a value with a clear sign bit: what a
/// square root, or its quotient by a value above zero, can be.
pub open spec fn not_below_zero(x: Binary32) -> bool {
    x.is_nan() || x.is_zero() || !x.is_negative()
}

/// Truncation to an integer keeps the order of values that are not
/// negative.
pub proof fn lemma_to_u32_monotone(x: Binary32, y: Binary32)
    requires
        is_nonnegative(x),
        is_nonnegative(y),
        x.magnitude() <= y.magnitude(),
    ensures
        x.spec_to_u32() <= y.spec_to_u32(),
{
    if y.is_finite() {
        lemma_units_monotone(x, y);
        lemma_pow2_pos(149);
        lemma_div_is_ordered(x.units() as int, y.units() as int, pow2(149) as int);
    }
}

/// A square root is never below zero.
pub proof fn lemma_sqrt_not_below_zero(x: Binary32)
    ensures
        not_below_zero(x.spec_sqrt()),
{
    if x.is_finite() && !x.is_zero() && !x.is_negative() {
        let e = x.exponent();
        let k: nat = if e % 2 == 0 {
            64
        } else {
            65
        };
        let root = isqrt(x.significand() * pow2(k));
        lemma_round_magnitude_bound(root, (e - k) / 2, root * root != x.significand() * pow2(k));
    }
}

/// The quotient of such a value by a value above zero is not below zero
/// either.
pub proof fn lemma_quotient_not_below_zero(x: Binary32, y: Binary32)
    requires
        not_below_zero(x),
        Binary32::zero().spec_lt(y),
    ensures
        not_below_zero(x.spec_divided_by(y)),
{
    if !x.is_nan() && x.is_finite() && y.is_finite() {
        let n = x.significand() * pow2(64);
        let d = y.significand();
        if x.is_negative() {
            assert(n == 0) by (nonlinear_arith)
                requires
                    n == x.significand() * pow2(64),
                    x.significand() == 0,
            ;
        }
        lemma_round_magnitude_bound(n / d, x.exponent() - y.exponent() - 64, n % d != 0);
    }
}

/// An integer converts to a finite value that is not negative, and to a
/// nonzero one unless it is zero.
pub proof fn lemma_from_u64_finite(n: u64)
    ensures
        is_nonnegative(Binary32::spec_from_u64(n)),
        Binary32::spec_from_u64(n).is_finite(),
        n >= 1 ==> !Binary32::spec_from_u64(n).is_zero(),
        Binary32::spec_from_u64(1) == (Binary32 { bits: ONE_BITS }),
{
    lemma2_to64();
    let big = Binary32 { bits: 0x5f80_0000 };
    assert(big.significand() == 0x80_0000 && big.exponent() == 41);
    lemma_round_exact(big);
    lemma_round_scaled(0x80_0000, 41, 41);
    lemma_pow2_adds(23, 41);
    lemma_round_monotone(n as nat, 0x80_0000 * pow2(41), 0);
    lemma_round_magnitude_bound(n as nat, 0, false);
    let one = Binary32 { bits: ONE_BITS };
    assert(one.significand() == 0x80_0000 && one.exponent() == -23);
    lemma_round_exact(one);
    lemma_round_scaled(1, 23, 0);
    assert(1 * pow2(23) == 0x80_0000);
    if n >= 1 {
        lemma_round_monotone(1, n as nat, 0);
    }
}

/// The sum of two values that are not negative is not negative.
pub proof fn lemma_plus_nonnegative(a: Binary32, b: Binary32)
    requires
        is_nonnegative(a),
        is_nonnegative(b),
    ensures
        is_nonnegative(a.spec_plus(b)),
{
    if a.is_finite() && b.is_finite() {
        lemma_round_magnitude_bound(a.units() + b.units(), -149, false);
    }
}

/// The product of two finite values that are not negative is not negative.
pub proof fn lemma_times_nonnegative(a: Binary32, b: Binary32)
    requires
        is_nonnegative(a),
        is_nonnegative(b),
        a.is_finite(),
        b.is_finite(),
    ensures
        is_nonnegative(a.spec_times(b)),
{
    lemma_round_magnitude_bound(a.units() * b.units(), -298, false);
}

/// Rounding to an integer keeps a value that is not negative so.
pub proof fn lemma_round_to_integer_nonnegative(x: Binary32)
    requires
        is_nonnegative(x),
    ensures
        is_nonnegative(x.spec_round()),
{
    let n = (2 * x.units() + pow2(149)) / pow2(150);
    lemma_pow2_pos(150);
    lemma_div_pos_is_pos((2 * x.units() + pow2(149)) as int, pow2(150) as int);
    lemma_round_magnitude_bound(n, 0, false);
}

/// Adding a larger term gives a sum that is not smaller, among values that
/// are not negative.
pub proof fn lemma_plus_monotone(a: Binary32, y1: Binary32, y2: Binary32)
    requires
        is_nonnegative(a),
        is_nonnegative(y1),
        is_nonnegative(y2),
        y1.magnitude() <= y2.magnitude(),
    ensures
        a.spec_plus(y1).magnitude() <= a.spec_plus(y2).magnitude(),
{
    lemma_plus_nonnegative(a, y1);
    lemma_plus_nonnegative(a, y2);
    let s1 = a.units() + y1.units();
    let s2 = a.units() + y2.units();
    lemma_round_magnitude_bound(s1, -149, false);
    lemma_round_magnitude_bound(s2, -149, false);
    if a.is_finite() && y2.is_finite() {
        lemma_units_monotone(y1, y2);
        lemma_round_monotone(s1, s2, -149);
    }
}

/// Rounding to an integer keeps the order of values that are not negative.
pub proof fn lemma_round_to_integer_monotone(x: Binary32, y: Binary32)
    requires
        is_nonnegative(x),
        is_nonnegative(y),
        x.magnitude() <= y.magnitude(),
    ensures
        is_nonnegative(x.spec_round()),
        is_nonnegative(y.spec_round()),
        x.spec_round().magnitude() <= y.spec_round().magnitude(),
{
    lemma_round_to_integer_nonnegative(x);
    lemma_round_to_integer_nonnegative(y);
    lemma_pow2_pos(150);
    lemma_div_pos_is_pos((2 * x.units() + pow2(149)) as int, pow2(150) as int);
    lemma_div_pos_is_pos((2 * y.units() + pow2(149)) as int, pow2(150) as int);
    lemma_round_magnitude_bound((2 * x.units() + pow2(149)) / pow2(150), 0, false);
    lemma_round_magnitude_bound((2 * y.units() + pow2(149)) / pow2(150), 0, false);
    if y.is_finite() {
        lemma_units_monotone(x, y);
        lemma_pow2_pos(150);
        lemma_div_is_ordered(
            (2 * x.units() + pow2(149)) as int,
            (2 * y.units() + pow2(149)) as int,
            pow2(150) as int,
        );
        lemma_round_monotone(
            (2 * x.units() + pow2(149)) / pow2(150),
            (2 * y.units() + pow2(149)) / pow2(150),
            0,
        );
    }
}

/// A value that is not NaN, divided by one, is itself.
pub proof fn lemma_divided_by_one(v: Binary32)
    requires
        !v.is_nan(),
    ensures
        v.spec_divided_by(Binary32 { bits: ONE_BITS }) == v,
{
    let one = Binary32 { bits: ONE_BITS };
    lemma2_to64();
    assert(one.significand() == 0x80_0000 && one.exponent() == -23);
    if v.is_finite() {
        let s = v.significand();
        let n = s * pow2(64);
        let t = s * pow2(41);
        lemma_pow2_adds(41, 23);
        assert(n == t * 0x80_0000) by (nonlinear_arith)
            requires
                n == s * pow2(64),
                t == s * pow2(41),
                pow2(64) == pow2(41) * 0x80_0000,
        ;
        lemma_div_by_multiple(t as int, 0x80_0000);
        lemma_mod_multiples_basic(t as int, 0x80_0000);
        lemma_round_scaled(s, 41, v.exponent());
        lemma_round_exact(v);
    }
}

/// Adding -0 changes no value that is not NaN.
pub proof fn lemma_plus_negative_zero(v: Binary32)
    requires
        !v.is_nan(),
    ensures
        Binary32::negative_zero().spec_plus(v) == v,
{
    lemma_units_zero(Binary32::negative_zero());
    if v.is_finite() {
        lemma_round_exact(v);
        if v.is_zero() {
            lemma_units_zero(v);
        } else {
            lemma_units_positive(v);
        }
    }
}

/// Zero over a value above zero is zero.
pub proof fn lemma_zero_divided(y: Binary32)
    requires
        Binary32::zero().spec_lt(y),
    ensures
        Binary32::zero().spec_divided_by(y) == Binary32::zero(),
{
    let zero = Binary32::zero();
    if y.is_finite() {
        let d = y.significand();
        lemma_units_positive(y);
        assert(zero.significand() * pow2(64) == 0) by (nonlinear_arith)
            requires
                zero.significand() == 0,
        ;
        lemma_basic_div(0, d as int);
        lemma_small_mod(0, d);
        lemma_round_magnitude_bound(0, zero.exponent() - y.exponent() - 64, false);
    }
}

} // verus!

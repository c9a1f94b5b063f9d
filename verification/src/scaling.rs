//! Exact scaling by powers of two.
//!
//! Multiplying a normal value by `2^j` only changes its exponent field, as
//! long as the result is normal too. Where no value on the way leaves the
//! normal range, every operation commutes with such a scaling; this is
//! what makes the consistency of a session independent of the unit of
//! time.

use crate::addition::{lemma_units_positive, lemma_units_zero};
use crate::binary32::{Binary32, INFINITY_BITS};
use crate::log2::{lemma_floor_log2_monotone, lemma_floor_log2_unique};
use crate::rounding::{
    lemma_round_exact, lemma_round_magnitude_bound, lemma_round_monotone, lemma_round_scaled,
    lemma_round_shift, lemma_round_shift_normal, lemma_round_subnormal_count,
    lemma_round_units_nonzero, round_magnitude,
};
use crate::sqrt::{isqrt, lemma_sqrt_is_normal, root_exponent};
use vstd::arithmetic::div_mod::{lemma_basic_div, lemma_small_mod};
use vstd::arithmetic::power2::{
    lemma2_to64, lemma_pow2_adds, lemma_pow2_pos, lemma_pow2_unfold, pow2,
};
use vstd::prelude::*;

verus! {

/// `x` times `2^j`: `j` added to the exponent field of `x`. A zero stays as
/// it is.
pub open spec fn scaled_by_power_of_two(x: Binary32, j: int) -> Binary32 {
    if x.is_zero() {
        x
    } else {
        Binary32 { bits: (x.bits + j * 0x80_0000) as u32 }
    }
}

/// `x` is zero, or `x` and `x` times `2^j` are both normal, so that the
/// scaling changes the exponent field alone.
pub open spec fn stays_normal(x: Binary32, j: int) -> bool {
    x.is_zero() || (1 <= x.biased_exponent() <= 254 && 1 <= x.biased_exponent() + j <= 254)
}

/// A result `x` stays normal, and neither `x` nor `x` times `2^j` is the
/// smallest normal value. Rounding reaches that value also from below the
/// normal range, where it works on a coarser grid and does not commute with
/// scaling; of every other normal result the exact value was normal too.
pub open spec fn scales_exactly(x: Binary32, j: int) -> bool {
    &&& stays_normal(x, j)
    &&& (x.is_zero() || (x.magnitude() != 0x80_0000 && x.magnitude() + j * 0x80_0000
        != 0x80_0000))
}

/// Exact scaling changes the exponent and nothing else.
pub proof fn lemma_scaled_fields(x: Binary32, j: int)
    requires
        stays_normal(x, j),
        !x.is_zero(),
    ensures
        scaled_by_power_of_two(x, j).is_finite(),
        !scaled_by_power_of_two(x, j).is_zero(),
        scaled_by_power_of_two(x, j).is_negative() == x.is_negative(),
        scaled_by_power_of_two(x, j).magnitude() == x.magnitude() + j * 0x80_0000,
        scaled_by_power_of_two(x, j).significand() == x.significand(),
        scaled_by_power_of_two(x, j).exponent() == x.exponent() + j,
{
    let m = x.magnitude();
    assert(m == x.biased_exponent() * 0x80_0000 + x.fraction());
    let scaled = scaled_by_power_of_two(x, j);
    assert(scaled.magnitude() == m + j * 0x80_0000);
}

/// Exact scaling multiplies the count of units by `2^j`.
pub proof fn lemma_scaled_units(x: Binary32, j: int)
    requires
        stays_normal(x, j),
    ensures
        x.is_finite(),
        scaled_by_power_of_two(x, j).is_finite(),
        scaled_by_power_of_two(x, j).is_zero() == x.is_zero(),
        scaled_by_power_of_two(x, j).is_negative() == x.is_negative(),
        j >= 0 ==> scaled_by_power_of_two(x, j).signed_units() == x.signed_units() * pow2(
            j as nat,
        ),
        j < 0 ==> x.signed_units() == scaled_by_power_of_two(x, j).signed_units() * pow2(
            (-j) as nat,
        ),
{
    let y = scaled_by_power_of_two(x, j);
    let t = if j >= 0 {
        j as nat
    } else {
        (-j) as nat
    };
    let pj = pow2(t);
    if x.is_zero() {
        lemma_units_zero(x);
        assert(0 * pj == 0) by (nonlinear_arith);
    } else {
        lemma_scaled_fields(x, j);
        let s = x.significand();
        let kx = (x.exponent() + 149) as nat;
        let ky = (y.exponent() + 149) as nat;
        let px = pow2(kx);
        let py = pow2(ky);
        if j >= 0 {
            lemma_pow2_adds(kx, t);
            assert(s * py == (s * px) * pj) by (nonlinear_arith)
                requires
                    py == px * pj,
            ;
            assert(-(s * py) == (-(s * px)) * pj) by (nonlinear_arith)
                requires
                    py == px * pj,
            ;
        } else {
            lemma_pow2_adds(ky, t);
            assert(s * px == (s * py) * pj) by (nonlinear_arith)
                requires
                    px == py * pj,
            ;
            assert(-(s * px) == (-(s * py)) * pj) by (nonlinear_arith)
                requires
                    px == py * pj,
            ;
        }
    }
}

/// The magnitude of a nonzero value that stays normal, and that of its
/// scaled value.
proof fn lemma_magnitude_is_normal(x: Binary32, j: int)
    requires
        stays_normal(x, j),
        !x.is_zero(),
    ensures
        0x80_0000 <= x.magnitude() < INFINITY_BITS,
        0x80_0000 <= x.magnitude() + j * 0x80_0000 < INFINITY_BITS,
{
    let m = x.magnitude();
    assert(m == x.biased_exponent() * 0x80_0000 + x.fraction());
}

/// The magnitude of a nonzero value that scales exactly, and that of its
/// scaled value, lie where rounding can be shifted.
proof fn lemma_magnitude_in_range(x: Binary32, j: int)
    requires
        scales_exactly(x, j),
        !x.is_zero(),
    ensures
        0x80_0000 < x.magnitude() < INFINITY_BITS,
        0x80_0000 < x.magnitude() + j * 0x80_0000 < INFINITY_BITS,
{
    let m = x.magnitude();
    assert(m == x.biased_exponent() * 0x80_0000 + x.fraction());
}

/// A count below the normal range, multiplied by `2^t`, rounds below the
/// power of two that the normal range would be multiplied to.
proof fn lemma_small_multiple_rounds_low(c: nat, t: nat)
    requires
        c < 0x80_0000,
        1 <= t <= 253,
    ensures
        round_magnitude(c * pow2(t), -149, false) < (t + 1) * 0x80_0000,
{
    let x = Binary32 { bits: (t * 0x80_0000 + 0x7f_fffe) as u32 };
    assert(x.magnitude() == t * 0x80_0000 + 0x7f_fffe);
    assert(x.biased_exponent() == t && x.fraction() == 0x7f_fffe);
    let half = pow2((t - 1) as nat);
    lemma_pow2_unfold(t);
    lemma_pow2_pos(t);
    assert(x.units() == 0x7f_ffff * pow2(t)) by (nonlinear_arith)
        requires
            x.units() == 0xff_fffe * half,
            pow2(t) == 2 * half,
    ;
    assert(c * pow2(t) <= 0x7f_ffff * pow2(t)) by (nonlinear_arith)
        requires
            c <= 0x7f_ffff,
            pow2(t) > 0,
    ;
    lemma_round_exact(x);
    lemma_round_monotone(c * pow2(t), x.units(), -149);
}

/// Rounding a count of units commutes with multiplying the count by a power
/// of two, where the rounded value is normal before and after. A sum of
/// counts that rounds to a normal value is itself in the normal range, so
/// the smallest normal value needs no exception here.
proof fn lemma_scaled_count_rounds(m: nat, m2: nat, j: int)
    requires
        m >= 1,
        j >= 0 ==> m2 == m * pow2(j as nat),
        j < 0 ==> m == m2 * pow2((-j) as nat),
        0x80_0000 <= round_magnitude(m, -149, false) < INFINITY_BITS,
        0x80_0000 <= round_magnitude(m, -149, false) + j * 0x80_0000 < INFINITY_BITS,
    ensures
        round_magnitude(m2, -149, false) == round_magnitude(m, -149, false) + j * 0x80_0000,
{
    lemma2_to64();
    if m < 0x80_0000 {
        lemma_round_subnormal_count(m);
    }
    lemma_floor_log2_monotone(0x80_0000, m);
    lemma_floor_log2_unique(0x80_0000, 23);
    if j >= 0 {
        lemma_round_scaled(m, j as nat, -149 + j);
        lemma_round_shift_normal(m, -149, false, j);
    } else {
        let t = (-j) as nat;
        if m2 < 0x80_0000 {
            lemma_small_multiple_rounds_low(m2, t);
        }
        lemma_floor_log2_monotone(0x80_0000, m2);
        lemma_round_scaled(m2, t, -149 + t);
        lemma_round_shift_normal(m2, -149 + t, false, j);
    }
}

/// The sum of the scaled counts is the scaled sum of the counts.
proof fn lemma_scaled_sum_of_units(a: Binary32, b: Binary32, j: int)
    requires
        stays_normal(a, j),
        stays_normal(b, j),
    ensures
        ({
            let s = a.signed_units() + b.signed_units();
            let s2 = scaled_by_power_of_two(a, j).signed_units() + scaled_by_power_of_two(
                b,
                j,
            ).signed_units();
            &&& (s > 0 <==> s2 > 0)
            &&& (s < 0 <==> s2 < 0)
            &&& (j >= 0 ==> s2 == s * pow2(j as nat) && -s2 == (-s) * pow2(j as nat))
            &&& (j < 0 ==> s == s2 * pow2((-j) as nat) && -s == (-s2) * pow2((-j) as nat))
        }),
{
    let a2 = scaled_by_power_of_two(a, j);
    let b2 = scaled_by_power_of_two(b, j);
    lemma_scaled_units(a, j);
    lemma_scaled_units(b, j);
    let x = a.signed_units();
    let y = b.signed_units();
    let x2 = a2.signed_units();
    let y2 = b2.signed_units();
    let t = if j >= 0 {
        j as nat
    } else {
        (-j) as nat
    };
    let pj = pow2(t);
    lemma_pow2_pos(t);
    if j >= 0 {
        assert(x2 + y2 == (x + y) * pj && -(x2 + y2) == (-(x + y)) * pj) by (nonlinear_arith)
            requires
                x2 == x * pj,
                y2 == y * pj,
        ;
        assert((x + y > 0 <==> (x + y) * pj > 0) && (x + y < 0 <==> (x + y) * pj < 0))
            by (nonlinear_arith)
            requires
                pj > 0,
        ;
    } else {
        assert(x + y == (x2 + y2) * pj && -(x + y) == (-(x2 + y2)) * pj) by (nonlinear_arith)
            requires
                x == x2 * pj,
                y == y2 * pj,
        ;
        assert((x2 + y2 > 0 <==> (x2 + y2) * pj > 0) && (x2 + y2 < 0 <==> (x2 + y2) * pj < 0))
            by (nonlinear_arith)
            requires
                pj > 0,
        ;
    }
}

/// A sum commutes with exact scaling of both terms, where the sum stays
/// normal too.
pub proof fn lemma_plus_scales(a: Binary32, b: Binary32, j: int)
    requires
        stays_normal(a, j),
        stays_normal(b, j),
        stays_normal(a.spec_plus(b), j),
    ensures
        scaled_by_power_of_two(a, j).spec_plus(scaled_by_power_of_two(b, j))
            == scaled_by_power_of_two(a.spec_plus(b), j),
{
    let a2 = scaled_by_power_of_two(a, j);
    let b2 = scaled_by_power_of_two(b, j);
    let r = a.spec_plus(b);
    lemma_scaled_units(a, j);
    lemma_scaled_units(b, j);
    lemma_scaled_sum_of_units(a, b, j);
    let s = a.signed_units() + b.signed_units();
    let s2 = a2.signed_units() + b2.signed_units();
    if s != 0 {
        let m = if s > 0 {
            s as nat
        } else {
            (-s) as nat
        };
        let m2 = if s2 > 0 {
            s2 as nat
        } else {
            (-s2) as nat
        };
        lemma_round_units_nonzero(m);
        lemma_round_magnitude_bound(m, -149, false);
        lemma_round_magnitude_bound(m2, -149, false);
        assert(r.magnitude() == round_magnitude(m, -149, false));
        lemma_magnitude_is_normal(r, j);
        lemma_scaled_count_rounds(m, m2, j);
    }
}

/// Negation commutes with exact scaling.
pub proof fn lemma_negated_scales(x: Binary32, j: int)
    requires
        stays_normal(x, j),
    ensures
        stays_normal(x.negated(), j),
        scaled_by_power_of_two(x.negated(), j) == scaled_by_power_of_two(x, j).negated(),
{
    let m = x.magnitude();
    assert(m == x.biased_exponent() * 0x80_0000 + x.fraction());
    if !x.is_zero() {
        lemma_scaled_fields(x, j);
    }
}

/// A difference commutes with exact scaling of both terms, where the
/// difference stays normal too.
pub proof fn lemma_minus_scales(a: Binary32, b: Binary32, j: int)
    requires
        stays_normal(a, j),
        stays_normal(b, j),
        stays_normal(a.spec_minus(b), j),
    ensures
        scaled_by_power_of_two(a, j).spec_minus(scaled_by_power_of_two(b, j))
            == scaled_by_power_of_two(a.spec_minus(b), j),
{
    lemma_negated_scales(b, j);
    lemma_plus_scales(a, b.negated(), j);
}

/// A product commutes with exact scaling of both factors: where neither is
/// zero and the product neither vanishes nor leaves the range, it scales
/// by the square of the factor.
pub proof fn lemma_times_scales(a: Binary32, b: Binary32, j: int)
    requires
        stays_normal(a, j),
        stays_normal(b, j),
        a.is_zero() || b.is_zero() || (!a.spec_times(b).is_zero() && scales_exactly(
            a.spec_times(b),
            2 * j,
        )),
    ensures
        scaled_by_power_of_two(a, j).spec_times(scaled_by_power_of_two(b, j))
            == scaled_by_power_of_two(a.spec_times(b), 2 * j),
        scales_exactly(a.spec_times(b), 2 * j),
{
    let a2 = scaled_by_power_of_two(a, j);
    let b2 = scaled_by_power_of_two(b, j);
    let r = a.spec_times(b);
    lemma_scaled_units(a, j);
    lemma_scaled_units(b, j);
    if a.is_zero() || b.is_zero() {
        if a.is_zero() {
            lemma_units_zero(a);
        } else {
            lemma_units_zero(b);
        }
        assert(a.units() * b.units() == 0) by (nonlinear_arith)
            requires
                a.units() == 0 || b.units() == 0,
        ;
        assert(a2.units() * b2.units() == 0) by (nonlinear_arith)
            requires
                a2.units() == 0 || b2.units() == 0,
        ;
        lemma_round_magnitude_bound(0, -298, false);
    } else {
        lemma_scaled_fields(a, j);
        lemma_scaled_fields(b, j);
        let sa = a.significand();
        let sb = b.significand();
        let ka = (a.exponent() + 149) as nat;
        let kb = (b.exponent() + 149) as nat;
        let ka2 = (a2.exponent() + 149) as nat;
        let kb2 = (b2.exponent() + 149) as nat;
        lemma_pow2_adds(ka, kb);
        lemma_pow2_adds(ka2, kb2);
        assert((sa * pow2(ka)) * (sb * pow2(kb)) == (sa * sb) * (pow2(ka) * pow2(kb)))
            by (nonlinear_arith);
        assert((sa * pow2(ka2)) * (sb * pow2(kb2)) == (sa * sb) * (pow2(ka2) * pow2(kb2)))
            by (nonlinear_arith);
        let e = a.exponent() + b.exponent();
        lemma_round_scaled(sa * sb, ka + kb, e);
        lemma_round_scaled(sa * sb, ka2 + kb2, e + 2 * j);
        lemma_round_magnitude_bound(sa * sb, e, false);
        assert(r.magnitude() == round_magnitude(sa * sb, e, false));
        lemma_magnitude_in_range(r, 2 * j);
        lemma_round_shift(sa * sb, e, false, 2 * j);
    }
}

/// A quotient by a value that stays as it is commutes with exact scaling
/// of the dividend, where the quotient neither vanishes nor leaves the
/// range.
pub proof fn lemma_divided_scales(x: Binary32, y: Binary32, j: int)
    requires
        stays_normal(x, j),
        y.is_finite(),
        !y.is_zero(),
        x.is_zero() || (!x.spec_divided_by(y).is_zero() && scales_exactly(
            x.spec_divided_by(y),
            j,
        )),
    ensures
        scaled_by_power_of_two(x, j).spec_divided_by(y) == scaled_by_power_of_two(
            x.spec_divided_by(y),
            j,
        ),
        scales_exactly(x.spec_divided_by(y), j),
{
    let r = x.spec_divided_by(y);
    let d = y.significand();
    lemma_units_positive(y);
    if x.is_zero() {
        lemma_units_zero(x);
        assert(x.significand() * pow2(64) == 0) by (nonlinear_arith)
            requires
                x.significand() == 0,
        ;
        lemma_basic_div(0, d as int);
        lemma_small_mod(0, d);
        lemma_round_magnitude_bound(0, x.exponent() - y.exponent() - 64, false);
    } else {
        lemma_scaled_fields(x, j);
        let n = x.significand() * pow2(64);
        let e = x.exponent() - y.exponent() - 64;
        lemma_round_magnitude_bound(n / d, e, n % d != 0);
        assert(r.magnitude() == round_magnitude(n / d, e, n % d != 0));
        lemma_magnitude_in_range(r, j);
        lemma_round_shift(n / d, e, n % d != 0, j);
    }
}

/// The same for a dividend that is not negative and a divisor above zero:
/// the quotient is then not negative either.
pub proof fn lemma_divided_by_positive_scales(x: Binary32, y: Binary32, j: int)
    requires
        stays_normal(x, j),
        !x.is_negative(),
        y.is_finite(),
        !y.is_zero(),
        !y.is_negative(),
        x.is_zero() || (!x.spec_divided_by(y).is_zero() && scales_exactly(
            x.spec_divided_by(y),
            j,
        )),
    ensures
        scaled_by_power_of_two(x, j).spec_divided_by(y) == scaled_by_power_of_two(
            x.spec_divided_by(y),
            j,
        ),
        scales_exactly(x.spec_divided_by(y), j),
        !x.spec_divided_by(y).is_negative(),
{
    lemma_divided_scales(x, y, j);
    let n = x.significand() * pow2(64);
    let d = y.significand();
    lemma_round_magnitude_bound(n / d, x.exponent() - y.exponent() - 64, n % d != 0);
}

/// A quotient does not change when both values are scaled exactly by the
/// same power of two.
pub proof fn lemma_quotient_is_scale_free(x: Binary32, y: Binary32, j: int)
    requires
        stays_normal(x, j),
        stays_normal(y, j),
        !y.is_zero(),
    ensures
        scaled_by_power_of_two(x, j).spec_divided_by(scaled_by_power_of_two(y, j))
            == x.spec_divided_by(y),
{
    lemma_scaled_fields(y, j);
    let d = y.significand();
    lemma_units_positive(y);
    if x.is_zero() {
        lemma_units_zero(x);
        assert(x.significand() * pow2(64) == 0) by (nonlinear_arith)
            requires
                x.significand() == 0,
        ;
        lemma_basic_div(0, d as int);
        lemma_small_mod(0, d);
        lemma_round_magnitude_bound(0, x.exponent() - y.exponent() - 64, false);
        lemma_round_magnitude_bound(0, x.exponent() - (y.exponent() + j) - 64, false);
    } else {
        lemma_scaled_fields(x, j);
    }
}

/// A square root commutes with exact scaling: the root of a value scaled
/// by the square of a factor is the root scaled by the factor. The root of
/// a normal value never leaves the normal range.
pub proof fn lemma_sqrt_scales(x: Binary32, j: int)
    requires
        stays_normal(x, 2 * j),
        x.is_zero() || !x.is_negative(),
    ensures
        scaled_by_power_of_two(x, 2 * j).spec_sqrt() == scaled_by_power_of_two(x.spec_sqrt(), j),
        scales_exactly(x.spec_sqrt(), j),
        x.spec_sqrt().is_zero() == x.is_zero(),
{
    let r = x.spec_sqrt();
    if !x.is_zero() {
        let y = scaled_by_power_of_two(x, 2 * j);
        lemma_scaled_fields(x, 2 * j);
        lemma_sqrt_is_normal(x);
        lemma_sqrt_is_normal(y);
        let e = x.exponent();
        let k: nat = if e % 2 == 0 {
            64
        } else {
            65
        };
        let v = x.significand() * pow2(k);
        let root = isqrt(v);
        assert(root_exponent(y) == root_exponent(x) + j);
        let m = r.magnitude();
        assert(m == r.biased_exponent() * 0x80_0000 + r.fraction());
        lemma_round_magnitude_bound(root, (e - k) / 2, root * root != v);
        assert(m == round_magnitude(root, (e - k) / 2, root * root != v));
        lemma_round_shift(root, (e - k) / 2, root * root != v, j);
    }
}

} // verus!

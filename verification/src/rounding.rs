//! Rounding of an exact magnitude to the nearest binary32, ties to even.
//!
//! The exact magnitude is handed over as `m * 2^e`, together with a flag
//! that says whether the true value lies strictly above that (a value
//! such as 0.75 is `3 * 2^-2`). The result is the floating-point pattern
//! nearest to the true value.

use crate::binary32::{Binary32, INFINITY_BITS};
use crate::log2::{
    floor_log2, ilog2_u128, lemma_floor_log2_bounds, lemma_floor_log2_div,
    lemma_floor_log2_monotone, lemma_floor_log2_unique, lemma_pow2_127, lemma_pow2_monotone,
    pow2_u128,
};
use vstd::arithmetic::div_mod::{
    lemma_basic_div, lemma_breakdown, lemma_div_by_multiple, lemma_div_denominator,
    lemma_div_is_ordered, lemma_fundamental_div_mod, lemma_mod_bound, lemma_mod_multiples_basic,
    lemma_small_mod,
};
use vstd::arithmetic::power2::{
    lemma2_to64, lemma_pow2_adds, lemma_pow2_pos, lemma_pow2_unfold, pow2,
};
use vstd::prelude::*;

verus! {

/// The exponent of the last place kept when `m * 2^e` is rounded: 23 below
/// the leading bit, but never below the subnormal grid of 2^-149.
pub open spec fn quantum(m: nat, e: int) -> int {
    let q = floor_log2(m) + e - 23;
    if q < -149 {
        -149
    } else {
        q
    }
}

/// The multiple of `2^q` nearest to the true value, as a count of `2^q`.
/// A value halfway between two multiples goes to the even one.
pub open spec fn round_significand(m: nat, e: int, above: bool, q: int) -> nat {
    if e >= q {
        m * pow2((e - q) as nat)
    } else {
        let p = pow2((q - e) as nat);
        let k = m / p;
        let r = m % p;
        if 2 * r > p || (2 * r == p && (above || k % 2 == 1)) {
            k + 1
        } else {
            k
        }
    }
}

/// The encoded magnitude nearest to the true value; infinity where the
/// rounded value is out of range.
#[verifier::opaque]
pub open spec fn round_magnitude(m: nat, e: int, above: bool) -> nat
    recommends
        above ==> m >= 0x100_0000,
{
    if m == 0 {
        0
    } else {
        let q = quantum(m, e);
        let enc = (q + 149) * 0x80_0000 + round_significand(m, e, above, q);
        if q > 104 || enc >= INFINITY_BITS {
            INFINITY_BITS as nat
        } else {
            enc as nat
        }
    }
}

/// The binary32 nearest to the true value, with the given sign.
pub open spec fn round_nearest_even(negative: bool, m: nat, e: int, above: bool) -> Binary32
    recommends
        above ==> m >= 0x100_0000,
{
    Binary32::with_sign(negative, round_magnitude(m, e, above))
}

/// The rounded significand has at most 24 bits, the carry out of a full
/// significand included, and has its leading bit where the exact value is
/// at least the smallest normal value.
pub proof fn lemma_round_significand_bounds(m: nat, e: int, above: bool)
    requires
        m >= 1,
    ensures
        round_significand(m, e, above, quantum(m, e)) <= 0x100_0000,
        floor_log2(m) + e >= -126 ==> round_significand(m, e, above, quantum(m, e))
            >= 0x80_0000,
{
    let l = floor_log2(m);
    let q = quantum(m, e);
    lemma_floor_log2_bounds(m);
    lemma2_to64();
    let lo = pow2(l);
    let hi = pow2(l + 1);
    if e >= q {
        let sh = (e - q) as nat;
        let ps = pow2(sh);
        lemma_pow2_pos(sh);
        lemma_pow2_adds(l + 1, sh);
        lemma_pow2_monotone(l + 1 + sh, 24);
        assert(m * ps < hi * ps) by (nonlinear_arith)
            requires
                m < hi,
                ps > 0,
        ;
        if l + e >= -126 {
            lemma_pow2_adds(l, sh);
            assert(lo * ps <= m * ps) by (nonlinear_arith)
                requires
                    lo <= m,
                    ps > 0,
            ;
        }
    } else {
        let d = (q - e) as nat;
        let p = pow2(d);
        lemma_pow2_pos(d);
        lemma_pow2_adds(d, 24);
        lemma_pow2_monotone(l + 1, d + 24);
        lemma_fundamental_div_mod(m as int, p as int);
        lemma_mod_bound(m as int, p as int);
        let k = m / p;
        assert(k < 0x100_0000) by (nonlinear_arith)
            requires
                m == p * k + m % p,
                0 <= m % p,
                m < p * 0x100_0000,
                p > 0,
        ;
        if l + e >= -126 {
            lemma_pow2_adds(d, 23);
            assert(k >= 0x80_0000) by (nonlinear_arith)
                requires
                    m == p * k + m % p,
                    m % p < p,
                    m >= p * 0x80_0000,
                    p > 0,
            ;
        }
    }
}

/// Rounds `m * 2^e`, or a value strictly between that and `(m + 1) * 2^e`
/// where `above` is set, to the nearest binary32.
pub fn round_pack(negative: bool, m: u128, e: i32, above: bool) -> (r: Binary32)
    requires
        above ==> m >= 0x100_0000,
    ensures
        r == round_nearest_even(negative, m as nat, e as int, above),
{
    proof {
        reveal(round_magnitude);
    }
    let sign: u32 = if negative {
        0x8000_0000
    } else {
        0
    };
    if m == 0 {
        return Binary32 { bits: sign };
    }
    let l: u32 = ilog2_u128(m);
    let raw: i64 = l as i64 + e as i64 - 23;
    let q: i64 = if raw < -149 {
        -149
    } else {
        raw
    };
    if q > 104 {
        return Binary32 { bits: sign + INFINITY_BITS };
    }
    proof {
        lemma_round_significand_bounds(m as nat, e as int, above);
        lemma_pow2_127();
    }
    let sig: u128;
    if e as i64 >= q {
        let shift: u32 = (e as i64 - q) as u32;
        let ps: u128 = pow2_u128(shift);
        sig = m * ps;
    } else {
        let d: i64 = q - e as i64;
        if d > 128 {
            proof {
                let p = pow2(d as nat);
                lemma_pow2_monotone(129, d as nat);
                lemma_pow2_adds(128, 1);
                lemma2_to64();
                lemma_basic_div(m as int, p as int);
                lemma_small_mod(m as nat, p);
            }
            sig = 0;
        } else if d == 128 {
            proof {
                let p = pow2(128);
                lemma_basic_div(m as int, p as int);
                lemma_small_mod(m as nat, p);
            }
            if m > 0x8000_0000_0000_0000_0000_0000_0000_0000 || (m
                == 0x8000_0000_0000_0000_0000_0000_0000_0000 && above) {
                sig = 1;
            } else {
                sig = 0;
            }
        } else {
            let p: u128 = pow2_u128(d as u32);
            let k: u128 = m / p;
            let r: u128 = m % p;
            if r > p - r || (r == p - r && (above || k % 2 == 1)) {
                sig = k + 1;
            } else {
                sig = k;
            }
        }
    }
    let enc: u32 = ((q + 149) as u32) * 0x80_0000 + sig as u32;
    if enc >= INFINITY_BITS {
        Binary32 { bits: sign + INFINITY_BITS }
    } else {
        Binary32 { bits: sign + enc }
    }
}

/// Where bits are dropped, the multiple of the quantum that is kept is a
/// nearest one. The exact value is `(m + rem / d) * 2^e`, a fraction with
/// `rem < d`, flagged where `rem` is not zero; an exact `m * 2^e` has
/// `rem == 0` and `d == 1`. The kept multiple lies within half a quantum of
/// it, and where the exact value is halfway between two multiples, the even
/// one is kept. Both sides are multiplied by `d` to stay among integers.
pub proof fn lemma_round_significand_nearest(m: nat, rem: nat, d: nat, e: int, q: int)
    requires
        q > e,
        rem < d,
    ensures
        ({
            let p = pow2((q - e) as nat);
            let s = round_significand(m, e, rem != 0, q);
            let exact = m * d + rem;
            let kept = s * (p * d);
            let distance = if kept >= exact {
                kept - exact
            } else {
                exact - kept
            };
            &&& 2 * distance <= p * d
            &&& (2 * distance == p * d ==> s % 2 == 0)
        }),
{
    let p = pow2((q - e) as nat);
    lemma_pow2_pos((q - e) as nat);
    lemma_pow2_unfold((q - e) as nat);
    let k = m / p;
    let r = m % p;
    lemma_fundamental_div_mod(m as int, p as int);
    lemma_mod_bound(m as int, p as int);
    let s = round_significand(m, e, rem != 0, q);
    let pd = p * d;
    let rd = r * d;
    let exact = m * d + rem;
    assert(exact == k * pd + rd + rem) by (nonlinear_arith)
        requires
            m == p * k + r,
            pd == p * d,
            rd == r * d,
            exact == m * d + rem,
    ;
    assert(rd + d <= pd) by (nonlinear_arith)
        requires
            r + 1 <= p,
            d > 0,
            pd == p * d,
            rd == r * d,
    ;
    if s == k {
        assert(s * pd == k * pd);
        if 2 * r < p {
            assert(2 * rd + 2 * d <= pd) by (nonlinear_arith)
                requires
                    2 * r + 2 <= p,
                    d > 0,
                    pd == p * d,
                    rd == r * d,
            ;
        } else {
            assert(2 * rd == pd) by (nonlinear_arith)
                requires
                    2 * r == p,
                    pd == p * d,
                    rd == r * d,
            ;
        }
    } else {
        assert(s * pd == k * pd + pd) by (nonlinear_arith)
            requires
                s == k + 1,
        ;
        assert(2 * rd >= pd) by (nonlinear_arith)
            requires
                2 * r >= p,
                d > 0,
                pd == p * d,
                rd == r * d,
        ;
        if 2 * r > p {
            assert(2 * rd >= pd + 2 * d) by (nonlinear_arith)
                requires
                    2 * r >= p + 2,
                    d > 0,
                    pd == p * d,
                    rd == r * d,
            ;
        }
    }
}

/// A finite rounded magnitude encodes the multiple that was kept: the value
/// with that magnitude counts `round_significand * 2^(quantum + 149)` units.
pub proof fn theorem_rounded_value(m: nat, e: int, above: bool)
    requires
        m >= 1,
        round_magnitude(m, e, above) < INFINITY_BITS,
    ensures
        Binary32::with_sign(false, round_magnitude(m, e, above)).units() == round_significand(
            m,
            e,
            above,
            quantum(m, e),
        ) * pow2((quantum(m, e) + 149) as nat),
{
    reveal(round_magnitude);
    lemma_round_significand_bounds(m, e, above);
    lemma2_to64();
    let q = quantum(m, e);
    let s = round_significand(m, e, above, q);
    let r = Binary32::with_sign(false, round_magnitude(m, e, above));
    let unit = pow2((q + 149) as nat);
    assert(r.magnitude() == (q + 149) * 0x80_0000 + s);
    if s == 0x100_0000 {
        assert(r.biased_exponent() == q + 151 && r.fraction() == 0);
        lemma_pow2_unfold((q + 150) as nat);
        assert(r.units() == s * unit) by (nonlinear_arith)
            requires
                r.units() == 0x80_0000 * pow2((q + 150) as nat),
                pow2((q + 150) as nat) == 2 * unit,
                s == 0x100_0000,
        ;
    } else if s >= 0x80_0000 {
        assert(r.biased_exponent() == q + 150 && r.fraction() == s - 0x80_0000);
    } else {
        assert(q == -149);
        assert(r.biased_exponent() == 0 && r.fraction() == s);
    }
}

/// Below the normal range the rounded significand has no leading bit,
/// unless rounding carried into the smallest normal value.
pub proof fn lemma_subnormal_significand(m: nat, e: int, above: bool)
    requires
        m >= 1,
        floor_log2(m) + e - 23 < -149,
    ensures
        round_significand(m, e, above, -149) <= 0x80_0000,
{
    let l = floor_log2(m);
    lemma_floor_log2_bounds(m);
    lemma2_to64();
    let hi = pow2(l + 1);
    if e >= -149 {
        let sh = (e + 149) as nat;
        let ps = pow2(sh);
        lemma_pow2_pos(sh);
        lemma_pow2_adds(l + 1, sh);
        lemma_pow2_monotone(l + 1 + sh, 23);
        assert(m * ps < hi * ps) by (nonlinear_arith)
            requires
                m < hi,
                ps > 0,
        ;
    } else {
        let d = (-149 - e) as nat;
        let p = pow2(d);
        lemma_pow2_pos(d);
        lemma_pow2_adds(d, 23);
        lemma_pow2_monotone(l + 1, d + 23);
        lemma_fundamental_div_mod(m as int, p as int);
        lemma_mod_bound(m as int, p as int);
        let k = m / p;
        assert(k < 0x80_0000) by (nonlinear_arith)
            requires
                m == p * k + m % p,
                0 <= m % p,
                m < p * 0x80_0000,
                p > 0,
        ;
    }
}

/// Within the normal range, adding `j` to the exponent of the exact value
/// adds `j` to the exponent field of the result and changes nothing else.
/// The smallest normal value is left out on both sides: rounding reaches it
/// from below the normal range too, on a coarser grid.
pub proof fn lemma_round_shift(m: nat, e: int, above: bool, j: int)
    requires
        0x80_0000 < round_magnitude(m, e, above) < INFINITY_BITS,
        0x80_0000 < round_magnitude(m, e, above) + j * 0x80_0000 < INFINITY_BITS,
    ensures
        round_magnitude(m, e + j, above) == round_magnitude(m, e, above) + j * 0x80_0000,
{
    reveal(round_magnitude);
    lemma_round_significand_bounds(m, e, above);
    let q = quantum(m, e);
    let s = round_significand(m, e, above, q);
    if floor_log2(m) + e - 23 < -149 {
        lemma_subnormal_significand(m, e, above);
    }
    assert(s >= 0x80_0000);
    assert(quantum(m, e + j) == q + j);
    assert(round_significand(m, e + j, above, q + j) == s);
}

/// The same, stated over the exact value: where it is at least the smallest
/// normal value before and after, and the result stays finite.
pub proof fn lemma_round_shift_normal(m: nat, e: int, above: bool, j: int)
    requires
        m >= 1,
        floor_log2(m) + e >= -126,
        floor_log2(m) + e + j >= -126,
        round_magnitude(m, e, above) < INFINITY_BITS,
        round_magnitude(m, e, above) + j * 0x80_0000 < INFINITY_BITS,
    ensures
        round_magnitude(m, e + j, above) == round_magnitude(m, e, above) + j * 0x80_0000,
{
    reveal(round_magnitude);
    lemma_round_significand_bounds(m, e, above);
    let q = quantum(m, e);
    let s = round_significand(m, e, above, q);
    assert(quantum(m, e + j) == q + j);
    assert(round_significand(m, e + j, above, q + j) == s);
}

/// A count of units below the normal range is kept as it is.
pub proof fn lemma_round_subnormal_count(m: nat)
    requires
        m < 0x80_0000,
    ensures
        round_magnitude(m, -149, false) == m,
{
    let x = Binary32 { bits: m as u32 };
    lemma2_to64();
    assert(x.significand() == m && x.exponent() == -149);
    assert(x.units() == m) by (nonlinear_arith)
        requires
            x.units() == m * pow2(0),
            pow2(0) == 1,
    ;
    lemma_round_exact(x);
}

/// A positive count of units does not round to zero.
pub proof fn lemma_round_units_nonzero(m: nat)
    requires
        m >= 1,
    ensures
        round_magnitude(m, -149, false) >= 1,
{
    let least = Binary32 { bits: 1 };
    assert(least.significand() == 1 && least.exponent() == -149);
    lemma_round_exact(least);
    lemma_round_monotone(1, m, -149);
}

/// A rounded magnitude is at most infinity, and zero rounds to zero.
pub proof fn lemma_round_magnitude_bound(m: nat, e: int, above: bool)
    ensures
        round_magnitude(m, e, above) <= INFINITY_BITS,
        m == 0 ==> round_magnitude(m, e, above) == 0,
{
    reveal(round_magnitude);
}

/// Rounding does not depend on how the exact value is written: `k` low bits
/// of `m` may be dropped and recorded in the flag, provided they are all
/// zero or at least 24 bits remain.
pub proof fn lemma_round_drop_bits(m: nat, k: nat, e: int, above: bool)
    requires
        m % pow2(k) == 0 || m / pow2(k) >= 0x100_0000,
    ensures
        round_magnitude(m, e, above) == round_magnitude(
            m / pow2(k),
            e + k,
            above || m % pow2(k) != 0,
        ),
{
    reveal(round_magnitude);
    let pk = pow2(k);
    lemma_pow2_pos(k);
    let m1 = m / pk;
    let r0 = m % pk;
    lemma_fundamental_div_mod(m as int, pk as int);
    lemma_mod_bound(m as int, pk as int);
    lemma2_to64();
    if m1 == 0 {
        assert(m == 0) by (nonlinear_arith)
            requires
                m == pk * m1 + r0,
                m1 == 0,
                r0 == 0,
        ;
    } else {
        assert(m >= 1) by (nonlinear_arith)
            requires
                m == pk * m1 + r0,
                m1 >= 1,
                pk >= 1,
                r0 >= 0,
        ;
        lemma_floor_log2_div(m, k);
        let q = quantum(m, e);
        assert(q == quantum(m1, e + k));
        if e + k >= q {
            if m1 >= 0x100_0000 {
                lemma_floor_log2_monotone(0x100_0000, m1);
                lemma_floor_log2_unique(0x100_0000, 24);
            }
            assert(r0 == 0);
            let j = (e + k - q) as nat;
            let pj = pow2(j);
            if e >= q {
                let sh = (e - q) as nat;
                let ps = pow2(sh);
                lemma_pow2_adds(k, sh);
                assert(m * ps == m1 * pj) by (nonlinear_arith)
                    requires
                        m == pk * m1,
                        pj == pk * ps,
                ;
            } else {
                let d = (q - e) as nat;
                let p = pow2(d);
                lemma_pow2_pos(d);
                lemma_pow2_adds(d, j);
                let t = m1 * pj;
                assert(m == t * p) by (nonlinear_arith)
                    requires
                        m == pk * m1,
                        pk == p * pj,
                        t == m1 * pj,
                ;
                lemma_div_by_multiple(t as int, p as int);
                lemma_mod_multiples_basic(t as int, p as int);
            }
        } else {
            let d_kept = (q - e - k) as nat;
            let p_kept = pow2(d_kept);
            lemma_pow2_pos(d_kept);
            let d = (q - e) as nat;
            let p = pow2(d);
            lemma_pow2_adds(k, d_kept);
            lemma_div_denominator(m as int, pk as int, p_kept as int);
            lemma_breakdown(m as int, pk as int, p_kept as int);
            lemma_mod_bound(m1 as int, p_kept as int);
            let rr = m1 % p_kept;
            let rl = m % p;
            assert(rl == pk * rr + r0);
            assert(m / p == m1 / p_kept);
            lemma_pow2_unfold(d_kept);
            let h = pow2((d_kept - 1) as nat);
            if r0 == 0 {
                assert((2 * rl > p) <==> (2 * rr > p_kept)) by (nonlinear_arith)
                    requires
                        rl == pk * rr,
                        p == pk * p_kept,
                        pk > 0,
                ;
                assert((2 * rl == p) <==> (2 * rr == p_kept)) by (nonlinear_arith)
                    requires
                        rl == pk * rr,
                        p == pk * p_kept,
                        pk > 0,
                ;
            } else {
                if rr >= h {
                    assert(2 * rl > p) by (nonlinear_arith)
                        requires
                            rl == pk * rr + r0,
                            0 < r0,
                            p == pk * p_kept,
                            p_kept == 2 * h,
                            rr >= h,
                            pk > 0,
                    ;
                } else {
                    assert(2 * rl < p) by (nonlinear_arith)
                        requires
                            rl == pk * rr + r0,
                            r0 < pk,
                            p == pk * p_kept,
                            p_kept == 2 * h,
                            rr + 1 <= h,
                            pk > 0,
                    ;
                }
            }
        }
    }
}

/// An exact value may be written to any lower exponent.
pub proof fn lemma_round_scaled(m: nat, k: nat, e: int)
    ensures
        round_magnitude(m * pow2(k), e - k, false) == round_magnitude(m, e, false),
{
    let pk = pow2(k);
    lemma_pow2_pos(k);
    lemma_div_by_multiple(m as int, pk as int);
    lemma_mod_multiples_basic(m as int, pk as int);
    lemma_round_drop_bits(m * pk, k, e - k, false);
}

/// A finite binary32 rounds to itself.
pub proof fn lemma_round_exact(x: Binary32)
    requires
        x.is_finite(),
    ensures
        round_magnitude(x.significand(), x.exponent(), false) == x.magnitude(),
        round_magnitude(x.units(), -149, false) == x.magnitude(),
{
    reveal(round_magnitude);
    let m = x.significand();
    let e = x.exponent();
    lemma2_to64();
    if m != 0 {
        if x.biased_exponent() == 0 {
            if m >= 2 {
                lemma_floor_log2_monotone(m, 0x7f_ffff);
            }
            lemma_floor_log2_unique(0x7f_ffff, 22);
        } else {
            lemma_floor_log2_unique(m, 23);
        }
        assert(quantum(m, e) == e);
        assert(m * pow2(0) == m);
    }
    let k = (e + 149) as nat;
    let pk = pow2(k);
    lemma_pow2_pos(k);
    lemma_div_by_multiple(m as int, pk as int);
    lemma_mod_multiples_basic(m as int, pk as int);
    lemma_round_drop_bits(x.units(), k, -149, false);
}

/// Rounding keeps the order of exact values written to the same exponent.
pub proof fn lemma_round_monotone(m1: nat, m2: nat, e: int)
    requires
        m1 <= m2,
    ensures
        round_magnitude(m1, e, false) <= round_magnitude(m2, e, false),
{
    reveal(round_magnitude);
    if m1 >= 1 {
        lemma_floor_log2_monotone(m1, m2);
        lemma_round_significand_bounds(m1, e, false);
        lemma_round_significand_bounds(m2, e, false);
        let q1 = quantum(m1, e);
        let q2 = quantum(m2, e);
        let s1 = round_significand(m1, e, false, q1);
        let s2 = round_significand(m2, e, false, q2);
        if q1 == q2 {
            if e >= q1 {
                let ps = pow2((e - q1) as nat);
                assert(m1 * ps <= m2 * ps) by (nonlinear_arith)
                    requires
                        m1 <= m2,
                        ps >= 0,
                ;
            } else {
                let p = pow2((q1 - e) as nat);
                lemma_pow2_pos((q1 - e) as nat);
                lemma_div_is_ordered(m1 as int, m2 as int, p as int);
                lemma_fundamental_div_mod(m1 as int, p as int);
                lemma_fundamental_div_mod(m2 as int, p as int);
                lemma_mod_bound(m1 as int, p as int);
                lemma_mod_bound(m2 as int, p as int);
                if m1 / p == m2 / p {
                    assert(m1 % p <= m2 % p);
                }
            }
            assert(s1 <= s2);
        }
    }
}

} // verus!

//! Square root of a binary32 value, correctly rounded.

use crate::binary32::{Binary32, INFINITY_BITS, NAN_BITS};
use crate::log2::{
    floor_log2, lemma_floor_log2_monotone, lemma_floor_log2_unique, pow2_u128,
};
use crate::rounding::{
    lemma_round_significand_bounds, quantum, round_magnitude, round_nearest_even, round_pack,
    round_significand,
};
use vstd::arithmetic::div_mod::{lemma_fundamental_div_mod, lemma_mod_bound};
use vstd::arithmetic::power2::{
    lemma2_to64, lemma_pow2_adds, lemma_pow2_pos, lemma_pow2_unfold, pow2,
};
use vstd::prelude::*;

verus! {

/// `s` is the integer part of the square root of `x`.
pub open spec fn is_isqrt(s: nat, x: nat) -> bool {
    s * s <= x < (s + 1) * (s + 1)
}

/// The integer part of the square root of `x`.
pub open spec fn isqrt(x: nat) -> nat {
    choose|s: nat| is_isqrt(s, x)
}

proof fn lemma_isqrt_exists(x: nat) -> (s: nat)
    ensures
        is_isqrt(s, x),
    decreases x,
{
    if x == 0 {
        assert(is_isqrt(0, 0)) by (nonlinear_arith);
        0
    } else {
        let y = x / 4;
        let r = lemma_isqrt_exists(y);
        let t = 2 * r;
        assert(t * t <= x) by (nonlinear_arith)
            requires
                r * r <= y,
                4 * y <= x,
                t == 2 * r,
        ;
        assert(x < (t + 2) * (t + 2)) by (nonlinear_arith)
            requires
                y < (r + 1) * (r + 1),
                x <= 4 * y + 3,
                t == 2 * r,
        ;
        if (t + 1) * (t + 1) <= x {
            let s = t + 1;
            assert((s + 1) * (s + 1) == (t + 2) * (t + 2)) by (nonlinear_arith)
                requires
                    s == t + 1,
            ;
            assert(s * s == (t + 1) * (t + 1)) by (nonlinear_arith)
                requires
                    s == t + 1,
            ;
            s
        } else {
            t
        }
    }
}

/// Every natural has an integer square root.
pub proof fn lemma_isqrt(x: nat)
    ensures
        is_isqrt(isqrt(x), x),
{
    let s = lemma_isqrt_exists(x);
}

/// Two integer square roots of one number are equal.
pub proof fn lemma_isqrt_unique(s: nat, t: nat, x: nat)
    requires
        is_isqrt(s, x),
        is_isqrt(t, x),
    ensures
        s == t,
{
    if s < t {
        assert((s + 1) * (s + 1) <= t * t) by (nonlinear_arith)
            requires
                s + 1 <= t,
        ;
    }
    if t < s {
        assert((t + 1) * (t + 1) <= s * s) by (nonlinear_arith)
            requires
                t + 1 <= s,
        ;
    }
}

/// The integer part of the square root of a machine word.
pub fn isqrt_u128(x: u128) -> (s: u128)
    ensures
        s == isqrt(x as nat),
        s < 0x1_0000_0000_0000_0000,
{
    let mut lo: u128 = 0;
    let mut hi: u128 = 0x1_0000_0000_0000_0000;
    assert(0x1_0000_0000_0000_0000u128 * 0x1_0000_0000_0000_0000u128 > x) by (nonlinear_arith);
    while hi - lo > 1
        invariant
            lo < hi <= 0x1_0000_0000_0000_0000,
            lo * lo <= x,
            x < hi * hi,
        decreases hi - lo,
    {
        let mid: u128 = lo + (hi - lo) / 2;
        assert(mid * mid <= u128::MAX) by (nonlinear_arith)
            requires
                mid <= 0xffff_ffff_ffff_ffff,
        ;
        if mid * mid <= x {
            lo = mid;
        } else {
            hi = mid;
        }
    }
    proof {
        lemma_isqrt(x as nat);
        lemma_isqrt_unique(lo as nat, isqrt(x as nat), x as nat);
    }
    lo
}

/// Where bits of an integer square root are dropped, the multiple of the
/// quantum that is kept is nearest to the exact root: with `p` the weight
/// of the last place kept, the kept value `s * p` differs from the root of
/// `x` by at most `p / 2`. Both sides are doubled and squared to stay among
/// integers.
pub proof fn theorem_root_is_nearest(root: nat, x: nat, e: int, q: int)
    requires
        q > e,
        is_isqrt(root, x),
    ensures
        ({
            let p = pow2((q - e) as nat);
            let s = round_significand(root, e, root * root != x, q);
            let twice = 2 * s * p;
            &&& 4 * x <= (twice + p) * (twice + p)
            &&& (twice >= p ==> (twice - p) * (twice - p) <= 4 * x)
        }),
{
    let p = pow2((q - e) as nat);
    lemma_pow2_pos((q - e) as nat);
    lemma_pow2_unfold((q - e) as nat);
    let h = pow2((q - e - 1) as nat);
    let k = root / p;
    let r = root % p;
    lemma_fundamental_div_mod(root as int, p as int);
    lemma_mod_bound(root as int, p as int);
    let s = round_significand(root, e, root * root != x, q);
    let twice = 2 * s * p;
    let base = k * p;
    assert(root == base + r) by (nonlinear_arith)
        requires
            root == p * k + r,
            base == k * p,
    ;
    if s == k {
        assert(twice == 2 * base) by (nonlinear_arith)
            requires
                twice == 2 * s * p,
                s == k,
                base == k * p,
        ;
        // The root lies at or below the midpoint `base + h`.
        if 2 * r < p {
            assert(4 * x <= (twice + p) * (twice + p)) by (nonlinear_arith)
                requires
                    x < (root + 1) * (root + 1),
                    root + 1 <= base + h,
                    twice == 2 * base,
                    p == 2 * h,
            ;
        } else {
            assert(4 * x <= (twice + p) * (twice + p)) by (nonlinear_arith)
                requires
                    x == root * root,
                    root == base + h,
                    twice == 2 * base,
                    p == 2 * h,
            ;
        }
        if twice >= p {
            assert((twice - p) * (twice - p) <= 4 * x) by (nonlinear_arith)
                requires
                    root * root <= x,
                    base - h <= root,
                    0 <= base - h,
                    twice == 2 * base,
                    p == 2 * h,
            ;
        }
    } else {
        assert(twice == 2 * base + 2 * p) by (nonlinear_arith)
            requires
                twice == 2 * s * p,
                s == k + 1,
                base == k * p,
        ;
        assert(4 * x <= (twice + p) * (twice + p)) by (nonlinear_arith)
            requires
                x < (root + 1) * (root + 1),
                root + 1 <= base + p,
                twice == 2 * base + 2 * p,
                p > 0,
                base >= 0,
        ;
        assert((twice - p) * (twice - p) <= 4 * x) by (nonlinear_arith)
            requires
                root * root <= x,
                base + h <= root,
                twice == 2 * base + 2 * p,
                p == 2 * h,
                base >= 0,
                h > 0,
        ;
    }
}

impl Binary32 {
    /// The square root: the exact root, rounded to nearest with ties to
    /// even. The root of the significand is taken to at least 32 binary
    /// places, with a flag for what lies beyond. The root of a negative
    /// value is NaN; a zero keeps its sign.
    pub open spec fn spec_sqrt(self) -> Binary32 {
        if self.is_nan() {
            Binary32::nan()
        } else if self.is_zero() {
            self
        } else if self.is_negative() {
            Binary32::nan()
        } else if self.is_infinite() {
            self
        } else {
            let e = self.exponent();
            let k: nat = if e % 2 == 0 {
                64
            } else {
                65
            };
            let x = self.significand() * pow2(k);
            let s = isqrt(x);
            round_nearest_even(false, s, (e - k) / 2, s * s != x)
        }
    }

    /// Takes the square root.
    pub fn sqrt(self) -> (r: Binary32)
        ensures
            r == self.spec_sqrt(),
    {
        let a = self.unpack();
        if a.magnitude > INFINITY_BITS {
            return Binary32 { bits: NAN_BITS };
        }
        if a.magnitude == 0 {
            return self;
        }
        if a.negative {
            return Binary32 { bits: NAN_BITS };
        }
        if a.magnitude == INFINITY_BITS {
            return self;
        }
        let t: u32 = (a.exponent + 150) as u32;
        let k: u32 = if t % 2 == 0 {
            64
        } else {
            65
        };
        let sig: u128 = a.significand as u128;
        let p: u128 = pow2_u128(k);
        proof {
            lemma2_to64();
            lemma_pow2_adds(64, 1);
        }
        assert(sig * p < 0x200_0000_0000_0000_0000_0000 && sig * p >= 0x1_0000_0000_0000_0000)
            by (nonlinear_arith)
            requires
                1 <= sig < 0x100_0000,
                0x1_0000_0000_0000_0000 <= p <= 0x2_0000_0000_0000_0000,
        ;
        let x: u128 = sig * p;
        let s: u128 = isqrt_u128(x);
        proof {
            lemma_isqrt(x as nat);
        }
        assert(s * s <= u128::MAX && s >= 0x1_0000_0000) by (nonlinear_arith)
            requires
                s < 0x1_0000_0000_0000_0000,
                x < (s + 1) * (s + 1),
                x >= 0x1_0000_0000_0000_0000,
        ;
        let e2: i32 = (t / 2) as i32 - 107;
        round_pack(false, s, e2, s * s != x)
    }
}

/// Half the exponent that the root of a finite value is rounded at.
pub open spec fn root_exponent(x: Binary32) -> int {
    let e = x.exponent();
    let k: nat = if e % 2 == 0 {
        64
    } else {
        65
    };
    (e - k) / 2
}

/// The root of a normal value above zero is normal, and far from both ends
/// of the range: its exponent field is half that of the value, up to the
/// bias.
pub proof fn lemma_sqrt_is_normal(x: Binary32)
    requires
        x.is_finite(),
        !x.is_negative(),
        x.biased_exponent() >= 1,
    ensures
        !x.spec_sqrt().is_negative(),
        -107 <= root_exponent(x) <= 20,
        (root_exponent(x) + 170) * 0x80_0000 <= x.spec_sqrt().magnitude() <= (root_exponent(x)
            + 172) * 0x80_0000,
{
    let e = x.exponent();
    let k: nat = if e % 2 == 0 {
        64
    } else {
        65
    };
    let h = (e - k) / 2;
    let sig = x.significand();
    let v = sig * pow2(k);
    let root = isqrt(v);
    let above = root * root != v;
    lemma_isqrt(v);
    lemma2_to64();
    lemma_pow2_adds(64, 1);
    lemma_pow2_adds(32, 11);
    lemma_pow2_adds(32, 12);
    lemma_pow2_adds(32, 13);
    assert(0x80_0000_0000_0000_0000_0000 <= v < 0x200_0000_0000_0000_0000_0000)
        by (nonlinear_arith)
        requires
            v == sig * pow2(k),
            0x80_0000 <= sig < 0x100_0000,
            0x1_0000_0000_0000_0000 <= pow2(k) <= 0x2_0000_0000_0000_0000,
    ;
    assert(0x800_0000_0000 <= root < 0x2000_0000_0000) by (nonlinear_arith)
        requires
            root * root <= v,
            v < (root + 1) * (root + 1),
            0x80_0000_0000_0000_0000_0000 <= v < 0x200_0000_0000_0000_0000_0000,
    ;
    lemma_floor_log2_unique(0x800_0000_0000, 43);
    lemma_floor_log2_unique(0x1fff_ffff_ffff, 44);
    lemma_floor_log2_monotone(0x800_0000_0000, root);
    lemma_floor_log2_monotone(root, 0x1fff_ffff_ffff);
    let l = floor_log2(root);
    assert(43 <= l <= 44);
    reveal(round_magnitude);
    lemma_round_significand_bounds(root, h, above);
    let q = quantum(root, h);
    assert(q == l + h - 23);
    let s = round_significand(root, h, above, q);
    let r = x.spec_sqrt();
    assert(r == round_nearest_even(false, root, h, above));
    assert(r.magnitude() == (q + 149) * 0x80_0000 + s);
}

} // verus!

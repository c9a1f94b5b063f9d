//! Powers of two and binary logarithms over the naturals, with the
//! executable helpers that compute them on machine words.

use vstd::arithmetic::div_mod::{lemma_fundamental_div_mod, lemma_mod_bound};
use vstd::arithmetic::power2::{
    lemma2_to64, lemma2_to64_rest, lemma_pow2_adds, lemma_pow2_pos, lemma_pow2_strictly_increases,
    lemma_pow2_unfold, pow2,
};
use vstd::prelude::*;

verus! {

/// The position of the highest set bit of `m`: the `l` with
/// `2^l <= m < 2^(l+1)`. Zero for `m == 0`.
pub open spec fn floor_log2(m: nat) -> nat
    decreases m,
{
    if m <= 1 {
        0
    } else {
        1 + floor_log2(m / 2)
    }
}

/// Powers of two grow with the exponent.
pub proof fn lemma_pow2_monotone(a: nat, b: nat)
    requires
        a <= b,
    ensures
        pow2(a) <= pow2(b),
{
    if a < b {
        lemma_pow2_strictly_increases(a, b);
    }
}

/// The two largest powers of two that bound a 128-bit word.
pub proof fn lemma_pow2_127()
    ensures
        pow2(127) == 0x8000_0000_0000_0000_0000_0000_0000_0000,
        pow2(128) == 0x1_0000_0000_0000_0000_0000_0000_0000_0000,
{
    lemma2_to64();
    lemma2_to64_rest();
    lemma_pow2_adds(64, 63);
    lemma_pow2_adds(64, 64);
}

/// A positive number lies between the power of two at its logarithm and
/// the next one.
pub proof fn lemma_floor_log2_bounds(m: nat)
    requires
        m >= 1,
    ensures
        pow2(floor_log2(m)) <= m,
        m < pow2(floor_log2(m) + 1),
    decreases m,
{
    if m == 1 {
        lemma2_to64();
    } else {
        lemma_floor_log2_bounds(m / 2);
        let l = floor_log2(m / 2);
        lemma_pow2_unfold(l + 1);
        lemma_pow2_unfold(l + 2);
    }
}

/// Only the logarithm has that property.
pub proof fn lemma_floor_log2_unique(m: nat, l: nat)
    requires
        pow2(l) <= m < pow2(l + 1),
    ensures
        floor_log2(m) == l,
{
    lemma_pow2_pos(l);
    lemma_floor_log2_bounds(m);
    let k = floor_log2(m);
    if k < l {
        lemma_pow2_monotone(k + 1, l);
    }
    if l < k {
        lemma_pow2_monotone(l + 1, k);
    }
}

/// The logarithm grows with its argument.
pub proof fn lemma_floor_log2_monotone(a: nat, b: nat)
    requires
        1 <= a <= b,
    ensures
        floor_log2(a) <= floor_log2(b),
{
    lemma_floor_log2_bounds(a);
    lemma_floor_log2_bounds(b);
    if floor_log2(b) < floor_log2(a) {
        lemma_pow2_monotone(floor_log2(b) + 1, floor_log2(a));
    }
}

/// Dropping `k` low bits lowers the logarithm by `k`, as long as something
/// is left.
pub proof fn lemma_floor_log2_div(m: nat, k: nat)
    requires
        m / pow2(k) >= 1,
    ensures
        floor_log2(m) == floor_log2(m / pow2(k)) + k,
{
    let p = pow2(k);
    lemma_pow2_pos(k);
    let mq = m / p;
    lemma_floor_log2_bounds(mq);
    let l = floor_log2(mq);
    let lo = pow2(l);
    let hi = pow2(l + 1);
    lemma_fundamental_div_mod(m as int, p as int);
    lemma_mod_bound(m as int, p as int);
    lemma_pow2_adds(l, k);
    lemma_pow2_adds(l + 1, k);
    assert(lo * p <= p * mq) by (nonlinear_arith)
        requires
            lo <= mq,
            p > 0,
    ;
    assert(p * mq + p <= hi * p) by (nonlinear_arith)
        requires
            mq + 1 <= hi,
            p > 0,
    ;
    lemma_floor_log2_unique(m, l + k);
}

/// Shifting one to the left by `k` places gives `2^k`.
pub proof fn lemma_shl_one_is_pow2(k: u32)
    requires
        k < 128,
    ensures
        (1u128 << k) == pow2(k as nat),
    decreases k,
{
    if k == 0 {
        assert((1u128 << 0u32) == 1) by (bit_vector);
        lemma2_to64();
    } else {
        let j: u32 = (k - 1) as u32;
        lemma_shl_one_is_pow2(j);
        lemma_pow2_unfold(k as nat);
        lemma_pow2_monotone(j as nat, 126);
        lemma_pow2_monotone(k as nat, 127);
        lemma_pow2_127();
        assert((1u128 << k) == 2 * (1u128 << j)) by (bit_vector)
            requires
                0 < k < 128,
                j == k - 1,
        ;
    }
}

/// `2^k` as a machine word.
pub fn pow2_u128(k: u32) -> (p: u128)
    requires
        k < 128,
    ensures
        p == pow2(k as nat),
        p >= 1,
{
    proof {
        lemma_shl_one_is_pow2(k);
        lemma_pow2_pos(k as nat);
    }
    1u128 << k
}

/// The position of the highest set bit of a nonzero word.
pub fn ilog2_u128(m: u128) -> (l: u32)
    requires
        m >= 1,
    ensures
        l == floor_log2(m as nat),
        l < 128,
{
    let mut l: u32 = 0;
    let mut t: u128 = m;
    proof {
        lemma_floor_log2_bounds(m as nat);
        lemma_pow2_127();
        if floor_log2(m as nat) >= 128 {
            lemma_pow2_monotone(128, floor_log2(m as nat));
        }
    }
    while t > 1
        invariant
            t >= 1,
            floor_log2(m as nat) == l + floor_log2(t as nat),
            floor_log2(m as nat) < 128,
        decreases t,
    {
        t = t / 2;
        l = l + 1;
    }
    l
}

} // verus!

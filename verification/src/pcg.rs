//! A permuted congruential generator with 64 bits of state and 32-bit output.

use vstd::prelude::*;

verus! {

/// Multiplier of the underlying linear congruential step.
pub const PCG_MULTIPLIER: u64 = 6364136223846793005;

/// `x` rotated right by `r` bit positions, `r` taken modulo 32.
pub open spec fn rotate_right_32(x: u32, r: u32) -> u32 {
    if r % 32 == 0 {
        x
    } else {
        (x >> (r % 32)) | (x << ((32 - r % 32) as u32))
    }
}

/// The state that follows `state` in the stream selected by `inc`.
pub open spec fn next_state(state: u64, inc: u64) -> u64 {
    ((state * PCG_MULTIPLIER + (inc | 1)) % 0x1_0000_0000_0000_0000) as u64
}

/// The 32-bit word that a step taken from `state` gives out: the high bits
/// of the state, folded by a xor-shift and rotated by its top five bits.
pub open spec fn output_word(state: u64) -> u32 {
    rotate_right_32((((state >> 18) ^ state) >> 27) as u32, (state >> 59) as u32)
}

/// Rotating right by `r` moves bit `(i + r) mod 32` of the input to bit `i`.
pub proof fn theorem_rotation_moves_bits(x: u32, r: u32, i: u32)
    requires
        i < 32,
    ensures
        (rotate_right_32(x, r) >> i) & 1 == (x >> ((i + r % 32) % 32) as u32) & 1,
{
    let k: u32 = r % 32;
    if k == 0 {
        assert((i + k) % 32 == i);
    } else {
        assert((((x >> k) | (x << ((32 - k) as u32))) >> i) & 1 == (x >> (((i + k) % 32) as u32)) & 1)
            by (bit_vector)
            requires
                0 < k < 32,
                i < 32,
        ;
    }
}

/// Generator state: the current position and the stream increment.
#[derive(Clone, Copy, Debug, PartialEq, Eq, Structural)]
pub struct Pcg32 {
    pub state: u64,
    pub inc: u64,
}

impl Pcg32 {
    /// A generator positioned at `seed` on the default stream.
    pub fn new(seed: u64) -> (g: Pcg32)
        ensures
            g.state == seed,
            g.inc == 1,
    {
        Pcg32 { state: seed, inc: 1 }
    }

    /// Advances the generator by one step and returns the word for the state
    /// it had on entry.
    pub fn next_u32(&mut self) -> (word: u32)
        ensures
            word == output_word(old(self).state),
            final(self).state == next_state(old(self).state, old(self).inc),
            final(self).inc == old(self).inc,
    {
        let old_state: u64 = self.state;
        self.state = old_state.wrapping_mul(PCG_MULTIPLIER).wrapping_add(self.inc | 1);
        proof {
            let a: u64 = old_state;
            let b: u64 = self.inc | 1;
            assert(a.wrapping_mul(PCG_MULTIPLIER).wrapping_add(b) == ((a * PCG_MULTIPLIER + b)
                % 0x1_0000_0000_0000_0000) as u64) by (bit_vector);
        }
        let xorshifted: u32 = #[verifier::truncate]
        ((((old_state >> 18) ^ old_state) >> 27) as u32);
        let rot: u32 = #[verifier::truncate]
        ((old_state >> 59) as u32);
        let k: u32 = rot % 32;
        if k == 0 {
            xorshifted
        } else {
            (xorshifted >> k) | (xorshifted << (32 - k))
        }
    }
}

} // verus!

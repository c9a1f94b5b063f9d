//! The scoring kernel: from the reaction times and perfect taps of one play
//! session to its published result.
//!
//! All arithmetic on timings is binary32 arithmetic in a fixed order, so
//! that every party that recomputes a result obtains the same bits.

use crate::binary32::{Binary32, ONE_BITS, SIGN_BIT};
use crate::facts::{lemma_sqrt_not_below_zero, not_below_zero};
use crate::theorems::{lemma_clamp_iq_bounds, lemma_consistency_bound};
use vstd::prelude::*;

verus! {

/// The binary32 nearest to four tenths.
pub const FOUR_TENTHS_BITS: u32 = 0x3ecc_cccd;

/// The value 70.
pub const SEVENTY_BITS: u32 = 0x428c_0000;

/// The value 80.
pub const EIGHTY_BITS: u32 = 0x42a0_0000;

/// The value 100.
pub const HUNDRED_BITS: u32 = 0x42c8_0000;

/// The value 150.
pub const HUNDRED_FIFTY_BITS: u32 = 0x4316_0000;

/// The value 180.
pub const HUNDRED_EIGHTY_BITS: u32 = 0x4334_0000;

/// The value 500.
pub const FIVE_HUNDRED_BITS: u32 = 0x43fa_0000;

/// The score of a session without rounds, and the floor of every score.
pub const BASE_IQ: u32 = 70;

/// The ceiling of every score.
pub const MAX_IQ: u32 = 180;

/// One tap of the player, in milliseconds since the session began. The
/// kernel carries taps along and does not read them.
#[derive(Clone, Copy, Debug, PartialEq, Eq, Structural)]
pub struct Click {
    pub timestamp_ms: u64,
}

/// What the host hands to the kernel.
#[derive(Clone, Debug)]
pub struct GameInputs {
    pub clicks: Vec<Click>,
    /// Reserved for deterministic spawning; the kernel does not read it.
    pub random_seed: u64,
    /// Reaction time of each round in milliseconds.
    pub reaction_times: Vec<Binary32>,
    /// Number of rounds that the host counted as perfect.
    pub total_perfects: u32,
}

/// What the kernel publishes.
#[derive(Clone, Copy, Debug, PartialEq, Eq, Structural)]
pub struct GameResult {
    pub avg_reaction: Binary32,
    pub iq_score: u32,
    pub consistency: u32,
    pub rounds: usize,
}

/// The sum of `xs`, added from the left. The empty sum is -0, the value
/// that changes no term it is added to, so the sum of one term is that
/// term.
pub open spec fn sum_of(xs: Seq<Binary32>) -> Binary32
    decreases xs.len(),
{
    if xs.len() == 0 {
        Binary32::negative_zero()
    } else {
        sum_of(xs.drop_last()).spec_plus(xs.last())
    }
}

/// The count of rounds as a binary32.
pub open spec fn count_of(xs: Seq<Binary32>) -> Binary32 {
    Binary32::spec_from_u64(xs.len() as u64)
}

/// The mean of `xs`: the left-to-right sum over the count.
pub open spec fn mean_of(xs: Seq<Binary32>) -> Binary32 {
    sum_of(xs).spec_divided_by(count_of(xs))
}

/// The square of the distance of `x` from `avg`.
pub open spec fn squared_deviation(avg: Binary32, x: Binary32) -> Binary32 {
    avg.spec_minus(x).spec_times(avg.spec_minus(x))
}

/// The squared deviations of `xs` from `avg`, added from the left in the
/// same way.
pub open spec fn sum_of_squared_deviations(xs: Seq<Binary32>, avg: Binary32) -> Binary32
    decreases xs.len(),
{
    if xs.len() == 0 {
        Binary32::negative_zero()
    } else {
        sum_of_squared_deviations(xs.drop_last(), avg).spec_plus(
            squared_deviation(avg, xs.last()),
        )
    }
}

/// The population variance of `xs`: the squared deviations from the mean,
/// added from the left, over the count.
pub open spec fn variance_of(xs: Seq<Binary32>) -> Binary32 {
    sum_of_squared_deviations(xs, mean_of(xs)).spec_divided_by(count_of(xs))
}

/// The population standard deviation of `xs`: the root of the variance;
/// zero for fewer than two rounds.
pub open spec fn std_dev_of(xs: Seq<Binary32>) -> Binary32 {
    if xs.len() <= 1 {
        Binary32::zero()
    } else {
        variance_of(xs).spec_sqrt()
    }
}

/// `x` where it is above zero, and +0 otherwise, NaN included.
pub open spec fn positive_part(x: Binary32) -> Binary32 {
    if Binary32::zero().spec_lt(x) {
        x
    } else {
        Binary32::zero()
    }
}

/// `100 * (1 - relative)`, not below zero.
pub open spec fn percent_remaining(relative: Binary32) -> Binary32 {
    positive_part(
        Binary32 { bits: HUNDRED_BITS }.spec_times(
            Binary32 { bits: ONE_BITS }.spec_minus(relative),
        ),
    )
}

/// The consistency score: the share of the mean that the standard
/// deviation leaves, in percent, truncated. Zero where the mean is not
/// above zero.
pub open spec fn consistency_of(avg: Binary32, std_dev: Binary32) -> u32 {
    if Binary32::zero().spec_lt(avg) {
        percent_remaining(std_dev.spec_divided_by(avg)).spec_to_u32()
    } else {
        0
    }
}

/// The speed component: 100 at a mean of 150 ms, falling to 0 at 650 ms.
pub open spec fn speed_component(avg: Binary32) -> Binary32 {
    percent_remaining(
        avg.spec_minus(Binary32 { bits: HUNDRED_FIFTY_BITS }).spec_divided_by(
            Binary32 { bits: FIVE_HUNDRED_BITS },
        ),
    )
}

/// Twice the perfect taps as a binary32. The doubling is that of the
/// integers: no count is so large that it wraps.
pub open spec fn perfects_component(total_perfects: u32) -> Binary32 {
    Binary32::spec_from_u64((2 * total_perfects) as u64)
}

/// What speed and consistency give: 80, plus the speed component, plus
/// four tenths of the consistency, added in this order.
#[verifier::opaque]
pub open spec fn iq_before_perfects(avg: Binary32, consistency: u32) -> Binary32 {
    Binary32 { bits: EIGHTY_BITS }.spec_plus(speed_component(avg)).spec_plus(
        Binary32::spec_from_u64(consistency as u64).spec_times(
            Binary32 { bits: FOUR_TENTHS_BITS },
        ),
    )
}

/// The score before rounding and clamping: what speed and consistency
/// give, plus the perfects component.
pub open spec fn base_iq(avg: Binary32, consistency: u32, total_perfects: u32) -> Binary32 {
    iq_before_perfects(avg, consistency).spec_plus(perfects_component(total_perfects))
}

/// `x` held to the range from 70 to 180 by ordered comparisons, the upper
/// bound first, and truncated. A NaN compares false and ends at 70.
pub open spec fn clamp_iq(x: Binary32) -> u32 {
    let capped = if (Binary32 { bits: HUNDRED_EIGHTY_BITS }).spec_lt(x) {
        Binary32 { bits: HUNDRED_EIGHTY_BITS }
    } else {
        x
    };
    let floored = if (Binary32 { bits: SEVENTY_BITS }).spec_lt(capped) {
        capped
    } else {
        Binary32 { bits: SEVENTY_BITS }
    };
    floored.spec_to_u32()
}

/// The score: the base score rounded to the nearest integer, halves away
/// from zero, and clamped.
pub open spec fn iq_of(avg: Binary32, consistency: u32, total_perfects: u32) -> u32 {
    clamp_iq(base_iq(avg, consistency, total_perfects).spec_round())
}

/// The result of a session with the given reaction times and perfect taps.
pub open spec fn score_of(times: Seq<Binary32>, total_perfects: u32) -> GameResult {
    if times.len() == 0 {
        GameResult { avg_reaction: Binary32::zero(), iq_score: BASE_IQ, consistency: 0, rounds: 0 }
    } else {
        let avg = mean_of(times);
        let consistency = consistency_of(avg, std_dev_of(times));
        GameResult {
            avg_reaction: avg,
            iq_score: iq_of(avg, consistency, total_perfects),
            consistency,
            rounds: times.len() as usize,
        }
    }
}

/// Adds `times` from the left.
pub fn sum(times: &Vec<Binary32>) -> (total: Binary32)
    ensures
        total == sum_of(times@),
{
    let mut total = Binary32::from_bits(SIGN_BIT);
    let mut i: usize = 0;
    while i < times.len()
        invariant
            i <= times.len(),
            total == sum_of(times@.subrange(0, i as int)),
        decreases times.len() - i,
    {
        proof {
            assert(times@.subrange(0, i + 1).drop_last() =~= times@.subrange(0, i as int));
        }
        total = total.plus(times[i]);
        i = i + 1;
    }
    proof {
        assert(times@.subrange(0, times.len() as int) =~= times@);
    }
    total
}

/// Adds the squared deviations of `times` from `avg` from the left.
pub fn sum_squared_deviations(times: &Vec<Binary32>, avg: Binary32) -> (total: Binary32)
    ensures
        total == sum_of_squared_deviations(times@, avg),
{
    let mut total = Binary32::from_bits(SIGN_BIT);
    let mut i: usize = 0;
    while i < times.len()
        invariant
            i <= times.len(),
            total == sum_of_squared_deviations(times@.subrange(0, i as int), avg),
        decreases times.len() - i,
    {
        proof {
            assert(times@.subrange(0, i + 1).drop_last() =~= times@.subrange(0, i as int));
        }
        let diff = avg.minus(times[i]);
        total = total.plus(diff.times(diff));
        i = i + 1;
    }
    proof {
        assert(times@.subrange(0, times.len() as int) =~= times@);
    }
    total
}

/// Mean and population standard deviation of a session with at least one
/// round, in two passes over the reaction times.
pub fn aggregate(times: &Vec<Binary32>) -> (stats: (Binary32, Binary32))
    requires
        times.len() > 0,
    ensures
        stats.0 == mean_of(times@),
        stats.1 == std_dev_of(times@),
        not_below_zero(stats.1),
{
    let count = Binary32::from_u64(times.len() as u64);
    let avg = sum(times).divided_by(count);
    let std_dev = if times.len() > 1 {
        let variance = sum_squared_deviations(times, avg).divided_by(count);
        proof {
            lemma_sqrt_not_below_zero(variance);
        }
        variance.sqrt()
    } else {
        Binary32::from_bits(0)
    };
    (avg, std_dev)
}

fn at_least_zero(x: Binary32) -> (r: Binary32)
    ensures
        r == positive_part(x),
{
    if Binary32::from_bits(0).lt(x) {
        x
    } else {
        Binary32::from_bits(0)
    }
}

fn percent_left(relative: Binary32) -> (r: Binary32)
    ensures
        r == percent_remaining(relative),
{
    at_least_zero(
        Binary32::from_bits(HUNDRED_BITS).times(Binary32::from_bits(ONE_BITS).minus(relative)),
    )
}

/// Maps mean and standard deviation to the consistency score. The score
/// is at most 100 for every deviation that is not below zero, as every
/// square root is.
pub fn consistency_score(avg: Binary32, std_dev: Binary32) -> (consistency: u32)
    ensures
        consistency == consistency_of(avg, std_dev),
        not_below_zero(std_dev) ==> consistency <= 100,
        !Binary32::zero().spec_lt(avg) ==> consistency == 0,
{
    proof {
        if not_below_zero(std_dev) {
            lemma_consistency_bound(avg, std_dev);
        }
    }
    if Binary32::from_bits(0).lt(avg) {
        percent_left(std_dev.divided_by(avg)).to_u32()
    } else {
        0
    }
}

/// Maps mean, consistency and perfect taps to the score.
pub fn iq_score(avg: Binary32, consistency: u32, total_perfects: u32) -> (iq: u32)
    ensures
        iq == iq_of(avg, consistency, total_perfects),
        BASE_IQ <= iq <= MAX_IQ,
{
    proof {
        lemma_clamp_iq_bounds(base_iq(avg, consistency, total_perfects).spec_round());
    }
    let speed = percent_left(
        avg.minus(Binary32::from_bits(HUNDRED_FIFTY_BITS)).divided_by(
            Binary32::from_bits(FIVE_HUNDRED_BITS),
        ),
    );
    let consistency_part = Binary32::from_u32(consistency).times(
        Binary32::from_bits(FOUR_TENTHS_BITS),
    );
    proof {
        reveal(iq_before_perfects);
    }
    let doubled: u64 = 2 * (total_perfects as u64);
    let perfects_part = Binary32::from_u64(doubled);
    let base = Binary32::from_bits(EIGHTY_BITS).plus(speed).plus(consistency_part).plus(
        perfects_part,
    );
    let rounded = base.round();
    let capped = if Binary32::from_bits(HUNDRED_EIGHTY_BITS).lt(rounded) {
        Binary32::from_bits(HUNDRED_EIGHTY_BITS)
    } else {
        rounded
    };
    let floored = if Binary32::from_bits(SEVENTY_BITS).lt(capped) {
        capped
    } else {
        Binary32::from_bits(SEVENTY_BITS)
    };
    floored.to_u32()
}

/// Scores one session. A session without rounds gets the base result; any
/// other gets the mean of its reaction times, the consistency that mean
/// and deviation give, and the score that follows from them and from the
/// perfect taps.
pub fn score(inputs: &GameInputs) -> (result: GameResult)
    ensures
        result == score_of(inputs.reaction_times@, inputs.total_perfects),
        result.rounds == inputs.reaction_times.len(),
        BASE_IQ <= result.iq_score <= MAX_IQ,
        result.consistency <= 100,
        inputs.reaction_times.len() == 0 ==> result == (GameResult {
            avg_reaction: Binary32::zero(),
            iq_score: BASE_IQ,
            consistency: 0,
            rounds: 0,
        }),
        inputs.reaction_times.len() > 0 ==> result.avg_reaction == mean_of(
            inputs.reaction_times@,
        ),
{
    let rounds: usize = inputs.reaction_times.len();
    if rounds == 0 {
        return GameResult {
            avg_reaction: Binary32::from_bits(0),
            iq_score: BASE_IQ,
            consistency: 0,
            rounds: 0,
        };
    }
    let (avg, std_dev) = aggregate(&inputs.reaction_times);
    let consistency: u32 = consistency_score(avg, std_dev);
    let iq: u32 = iq_score(avg, consistency, inputs.total_perfects);
    GameResult { avg_reaction: avg, iq_score: iq, consistency, rounds }
}

} // verus!

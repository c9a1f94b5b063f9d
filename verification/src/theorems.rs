//! What holds of every result of the scoring kernel.

use crate::addition::lemma_units_zero;
use crate::binary32::{Binary32, ONE_BITS};
use crate::convert::lemma_integer_part;
use crate::facts::{
    is_nonnegative, lemma_divided_by_one, lemma_from_u64_finite, lemma_plus_monotone,
    lemma_plus_negative_zero, lemma_plus_nonnegative, lemma_quotient_not_below_zero,
    lemma_round_to_integer_monotone, lemma_round_to_integer_nonnegative,
    lemma_sqrt_not_below_zero, lemma_times_nonnegative, lemma_to_u32_monotone,
    lemma_zero_divided, not_below_zero,
};
use crate::scaling::{
    lemma_divided_by_positive_scales, lemma_divided_scales, lemma_minus_scales,
    lemma_plus_scales, lemma_quotient_is_scale_free,
    lemma_scaled_fields, lemma_sqrt_scales, lemma_times_scales, scaled_by_power_of_two,
    scales_exactly, stays_normal,
};
use crate::order::lemma_units_monotone;
use crate::rounding::{
    lemma_round_exact, lemma_round_magnitude_bound, lemma_round_monotone, lemma_round_scaled,
    round_magnitude,
};
use crate::score::{
    base_iq, clamp_iq, consistency_of, count_of, iq_before_perfects, iq_of, mean_of,
    percent_remaining, perfects_component, score_of, speed_component, squared_deviation,
    std_dev_of, sum_of, sum_of_squared_deviations, variance_of, GameInputs, EIGHTY_BITS,
    FOUR_TENTHS_BITS, HUNDRED_BITS, HUNDRED_EIGHTY_BITS, SEVENTY_BITS,
};
use vstd::arithmetic::power2::{lemma2_to64, lemma_pow2_adds, lemma_pow2_pos, pow2};
use vstd::prelude::*;

verus! {

/// The integer part of a finite value with a negative exponent, worked
/// out from its fields.
proof fn lemma_integer_value(x: Binary32, sig: nat, shift: nat, value: nat)
    requires
        x.is_finite(),
        !x.is_negative(),
        x.significand() == sig,
        x.exponent() == -(shift as int),
        0 < shift <= 32,
        pow2(shift) * value <= sig < pow2(shift) * (value + 1),
        value <= 0xffff_ffff,
    ensures
        x.integer_part() == value,
        x.spec_to_u32() == value,
{
    lemma_integer_part(x);
    lemma_pow2_pos(shift);
    let p = pow2(shift);
    assert(sig / p == value) by (nonlinear_arith)
        requires
            p * value <= sig < p * (value + 1),
            p > 0,
    ;
}

/// The constants of the kernel as values.
pub proof fn lemma_constants()
    ensures
        (Binary32 { bits: ONE_BITS }).units() == pow2(149),
        (Binary32 { bits: SEVENTY_BITS }).spec_to_u32() == 70,
        (Binary32 { bits: HUNDRED_BITS }).spec_to_u32() == 100,
        (Binary32 { bits: HUNDRED_EIGHTY_BITS }).spec_to_u32() == 180,
        (Binary32 { bits: HUNDRED_BITS }).spec_times(Binary32 { bits: ONE_BITS }) == (Binary32 {
            bits: HUNDRED_BITS,
        }),
{
    lemma2_to64();
    let one = Binary32 { bits: ONE_BITS };
    let seventy = Binary32 { bits: SEVENTY_BITS };
    let hundred = Binary32 { bits: HUNDRED_BITS };
    let top = Binary32 { bits: HUNDRED_EIGHTY_BITS };
    assert(one.significand() == 0x80_0000 && one.exponent() == -23);
    lemma_pow2_adds(23, 126);
    assert(one.units() == pow2(149));
    assert(seventy.significand() == 0x8c_0000 && seventy.exponent() == -17);
    assert(hundred.significand() == 0xc8_0000 && hundred.exponent() == -17);
    assert(top.significand() == 0xb4_0000 && top.exponent() == -16);
    lemma_integer_value(seventy, 0x8c_0000, 17, 70);
    lemma_integer_value(hundred, 0xc8_0000, 17, 100);
    lemma_integer_value(top, 0xb4_0000, 16, 180);
    lemma_round_scaled(hundred.units(), 149, -149);
    lemma_round_exact(hundred);
}

/// The clamped score lies between 70 and 180, whatever is clamped.
pub proof fn lemma_clamp_iq_bounds(x: Binary32)
    ensures
        70 <= clamp_iq(x) <= 180,
{
    let top = Binary32 { bits: HUNDRED_EIGHTY_BITS };
    let bottom = Binary32 { bits: SEVENTY_BITS };
    let capped = if top.spec_lt(x) {
        top
    } else {
        x
    };
    let floored = if bottom.spec_lt(capped) {
        capped
    } else {
        bottom
    };
    lemma_constants();
    lemma_to_u32_monotone(bottom, floored);
    lemma_to_u32_monotone(floored, top);
}

/// What is left of 100 percent after a share that is not below zero lies
/// between 0 and 100.
pub proof fn lemma_percent_remaining_bounds(q: Binary32)
    requires
        not_below_zero(q),
    ensures
        is_nonnegative(percent_remaining(q)),
        percent_remaining(q).magnitude() <= HUNDRED_BITS,
        percent_remaining(q).spec_to_u32() <= 100,
{
    let one = Binary32 { bits: ONE_BITS };
    let hundred = Binary32 { bits: HUNDRED_BITS };
    let y = q.negated();
    let t = one.spec_plus(y);
    let raw = hundred.spec_times(t);
    lemma_constants();
    lemma2_to64();
    assert(one.is_finite() && !one.is_negative() && one.magnitude() == 0x3f80_0000);
    assert(hundred.is_finite() && !hundred.is_negative() && hundred.magnitude() == 0x42c8_0000);
    if !q.is_nan() {
        assert(!y.is_nan() && y.magnitude() == q.magnitude());
        if q.is_finite() {
            assert(y.units() == q.units());
            if q.is_zero() {
                lemma_units_zero(q);
            }
            let s = one.signed_units() + y.signed_units();
            assert(s <= one.units());
            if s > 0 {
                lemma_round_monotone(s as nat, one.units(), -149);
                lemma_round_exact(one);
                assert(t.magnitude() <= one.magnitude());
                assert(!t.is_negative());
            } else if s < 0 {
                lemma_round_magnitude_bound((-s) as nat, -149, false);
            }
        }
        assert(!t.is_nan());
        assert(t.is_negative() || t.magnitude() <= one.magnitude());
        if !t.is_negative() {
            lemma_units_monotone(t, one);
            let a = hundred.units();
            let b = t.units();
            let c = one.units();
            assert(a * b <= a * c) by (nonlinear_arith)
                requires
                    b <= c,
                    a >= 0,
            ;
            lemma_round_monotone(a * b, a * c, -298);
            lemma_round_magnitude_bound(a * b, -298, false);
            lemma_round_magnitude_bound(a * c, -298, false);
            assert(raw.magnitude() <= hundred.magnitude());
            assert(!raw.is_negative());
        } else if t.is_finite() {
            lemma_round_magnitude_bound(hundred.units() * t.units(), -298, false);
        }
    }
    lemma_to_u32_monotone(percent_remaining(q), hundred);
}

/// The consistency score is at most 100 where the deviation is not below
/// zero.
pub proof fn lemma_consistency_bound(avg: Binary32, std_dev: Binary32)
    requires
        not_below_zero(std_dev),
    ensures
        consistency_of(avg, std_dev) <= 100,
{
    if Binary32::zero().spec_lt(avg) {
        lemma_quotient_not_below_zero(std_dev, avg);
        lemma_percent_remaining_bounds(std_dev.spec_divided_by(avg));
    }
}

/// Every result has a score between 70 and 180 and a consistency between
/// 0 and 100, and counts the rounds it was given.
pub proof fn theorem_result_bounds(times: Seq<Binary32>, total_perfects: u32)
    requires
        times.len() <= usize::MAX,
    ensures
        70 <= score_of(times, total_perfects).iq_score <= 180,
        score_of(times, total_perfects).consistency <= 100,
        score_of(times, total_perfects).rounds == times.len(),
{
    if times.len() > 0 {
        let avg = mean_of(times);
        let std_dev = std_dev_of(times);
        if times.len() > 1 {
            lemma_sqrt_not_below_zero(
                sum_of_squared_deviations(times, avg).spec_divided_by(count_of(times)),
            );
        }
        lemma_consistency_bound(avg, std_dev);
        let c = consistency_of(avg, std_dev);
        lemma_clamp_iq_bounds(base_iq(avg, c, total_perfects).spec_round());
    }
}

/// What speed and consistency give is never NaN and never negative.
pub proof fn lemma_iq_before_perfects_nonnegative(avg: Binary32, consistency: u32)
    ensures
        is_nonnegative(iq_before_perfects(avg, consistency)),
{
    reveal(iq_before_perfects);
    let eighty = Binary32 { bits: EIGHTY_BITS };
    let tenths = Binary32 { bits: FOUR_TENTHS_BITS };
    let speed = speed_component(avg);
    let from_consistency = Binary32::spec_from_u64(consistency as u64);
    lemma_from_u64_finite(consistency as u64);
    assert(is_nonnegative(eighty));
    assert(is_nonnegative(tenths) && tenths.is_finite());
    assert(is_nonnegative(speed));
    lemma_times_nonnegative(from_consistency, tenths);
    lemma_plus_nonnegative(eighty, speed);
    lemma_plus_nonnegative(eighty.spec_plus(speed), from_consistency.spec_times(tenths));
}

/// The score before clamping is never NaN and never negative, whatever the
/// mean is.
pub proof fn theorem_base_iq_is_a_number(avg: Binary32, consistency: u32, total_perfects: u32)
    ensures
        is_nonnegative(base_iq(avg, consistency, total_perfects)),
        is_nonnegative(base_iq(avg, consistency, total_perfects).spec_round()),
{
    lemma_iq_before_perfects_nonnegative(avg, consistency);
    lemma_from_u64_finite((2 * total_perfects) as u64);
    lemma_plus_nonnegative(
        iq_before_perfects(avg, consistency),
        perfects_component(total_perfects),
    );
    lemma_round_to_integer_nonnegative(base_iq(avg, consistency, total_perfects));
}

/// Clamping keeps the order of values that are not negative.
pub proof fn lemma_clamp_iq_monotone(x: Binary32, y: Binary32)
    requires
        is_nonnegative(x),
        is_nonnegative(y),
        x.magnitude() <= y.magnitude(),
    ensures
        clamp_iq(x) <= clamp_iq(y),
{
    let top = Binary32 { bits: HUNDRED_EIGHTY_BITS };
    let bottom = Binary32 { bits: SEVENTY_BITS };
    let capped_x = if top.spec_lt(x) {
        top
    } else {
        x
    };
    let capped_y = if top.spec_lt(y) {
        top
    } else {
        y
    };
    let floored_x = if bottom.spec_lt(capped_x) {
        capped_x
    } else {
        bottom
    };
    let floored_y = if bottom.spec_lt(capped_y) {
        capped_y
    } else {
        bottom
    };
    assert(capped_x.magnitude() <= capped_y.magnitude());
    assert(floored_x.magnitude() <= floored_y.magnitude());
    lemma_to_u32_monotone(floored_x, floored_y);
}

/// With everything else fixed, more perfect taps never lower the score.
pub proof fn theorem_more_perfects_never_lower(
    avg: Binary32,
    consistency: u32,
    fewer: u32,
    more: u32,
)
    requires
        fewer <= more,
    ensures
        iq_of(avg, consistency, fewer) <= iq_of(avg, consistency, more),
{
    let rest = iq_before_perfects(avg, consistency);
    let few = perfects_component(fewer);
    let many = perfects_component(more);
    lemma_iq_before_perfects_nonnegative(avg, consistency);
    lemma_from_u64_finite((2 * fewer) as u64);
    lemma_from_u64_finite((2 * more) as u64);
    lemma_round_monotone((2 * fewer) as nat, (2 * more) as nat, 0);
    lemma_round_magnitude_bound((2 * fewer) as nat, 0, false);
    lemma_round_magnitude_bound((2 * more) as nat, 0, false);
    assert(few.magnitude() == round_magnitude((2 * fewer) as nat, 0, false));
    assert(many.magnitude() == round_magnitude((2 * more) as nat, 0, false));
    lemma_plus_monotone(rest, few, many);
    lemma_plus_nonnegative(rest, few);
    lemma_plus_nonnegative(rest, many);
    lemma_round_to_integer_monotone(rest.spec_plus(few), rest.spec_plus(many));
    lemma_clamp_iq_monotone(rest.spec_plus(few).spec_round(), rest.spec_plus(many).spec_round());
}

/// The same for whole sessions: only the score changes, and it does not
/// fall.
pub proof fn theorem_session_monotone_in_perfects(times: Seq<Binary32>, fewer: u32, more: u32)
    requires
        fewer <= more,
    ensures
        score_of(times, fewer).iq_score <= score_of(times, more).iq_score,
        score_of(times, fewer).avg_reaction == score_of(times, more).avg_reaction,
        score_of(times, fewer).consistency == score_of(times, more).consistency,
        score_of(times, fewer).rounds == score_of(times, more).rounds,
{
    if times.len() > 0 {
        let avg = mean_of(times);
        theorem_more_perfects_never_lower(
            avg,
            consistency_of(avg, std_dev_of(times)),
            fewer,
            more,
        );
    }
}

/// The mean of a single round that is not NaN is that round.
pub proof fn lemma_single_round_mean(v: Binary32)
    requires
        !v.is_nan(),
    ensures
        mean_of(seq![v]) == v,
{
    let xs = seq![v];
    assert(xs.drop_last() =~= Seq::<Binary32>::empty());
    assert(xs.last() == v);
    reveal_with_fuel(sum_of, 2);
    assert(sum_of(xs) == Binary32::negative_zero().spec_plus(v));
    lemma_plus_negative_zero(v);
    lemma_from_u64_finite(1);
    lemma_divided_by_one(v);
}

/// Rounds that all equal the mean have no squared deviation.
pub proof fn lemma_deviations_vanish(xs: Seq<Binary32>, v: Binary32)
    requires
        v.is_finite(),
        xs.len() >= 1,
        forall|i: int| 0 <= i < xs.len() ==> xs[i] == v,
    ensures
        sum_of_squared_deviations(xs, v) == Binary32::zero(),
    decreases xs.len(),
{
    let zero = Binary32::zero();
    lemma_units_zero(zero);
    lemma_units_zero(Binary32::negative_zero());
    let back = v.negated();
    assert(back.is_finite() && back.units() == v.units());
    assert(v.spec_minus(v) == zero);
    assert(zero.units() * zero.units() == 0) by (nonlinear_arith)
        requires
            zero.units() == 0,
    ;
    lemma_round_magnitude_bound(0, -298, false);
    assert(zero.spec_times(zero) == zero);
    assert(xs.last() == v);
    assert(squared_deviation(v, xs.last()) == zero);
    if xs.len() > 1 {
        lemma_deviations_vanish(xs.drop_last(), v);
        assert(zero.spec_plus(zero) == zero);
    } else {
        assert(xs.drop_last().len() == 0);
        assert(sum_of_squared_deviations(xs.drop_last(), v) == Binary32::negative_zero());
        assert(Binary32::negative_zero().spec_plus(zero) == zero);
    }
}

/// Where the deviation is zero and the mean is above zero, the consistency
/// is 100.
pub proof fn lemma_no_deviation_is_fully_consistent(avg: Binary32)
    requires
        Binary32::zero().spec_lt(avg),
    ensures
        consistency_of(avg, Binary32::zero()) == 100,
{
    let zero = Binary32::zero();
    let one = Binary32 { bits: ONE_BITS };
    let hundred = Binary32 { bits: HUNDRED_BITS };
    lemma_zero_divided(avg);
    lemma_constants();
    lemma_round_exact(one);
    lemma_pow2_pos(149);
    lemma_units_zero(zero.negated());
    assert(one.spec_minus(zero) == one);
    assert(percent_remaining(zero) == hundred);
}

/// A session of one round above zero has that round as its mean and a
/// consistency of 100.
pub proof fn theorem_single_round(v: Binary32, total_perfects: u32)
    requires
        Binary32::zero().spec_lt(v),
    ensures
        score_of(seq![v], total_perfects).avg_reaction == v,
        score_of(seq![v], total_perfects).consistency == 100,
        score_of(seq![v], total_perfects).rounds == 1,
{
    lemma_single_round_mean(v);
    lemma_no_deviation_is_fully_consistent(v);
}

/// A session whose mean is not above zero, NaN included, has a consistency
/// of 0.
pub proof fn theorem_no_consistency_without_positive_mean(
    times: Seq<Binary32>,
    total_perfects: u32,
)
    requires
        times.len() > 0,
        !Binary32::zero().spec_lt(mean_of(times)),
    ensures
        score_of(times, total_perfects).consistency == 0,
{
}

/// A session whose rounds all took the same finite time above zero has a
/// consistency of 100, provided it has one round or its mean comes out as
/// that time. (Adding the same time repeatedly can round, and then the mean
/// differs from it.)
pub proof fn theorem_constant_session(times: Seq<Binary32>, v: Binary32, total_perfects: u32)
    requires
        1 <= times.len() <= usize::MAX,
        forall|i: int| 0 <= i < times.len() ==> times[i] == v,
        v.is_finite(),
        Binary32::zero().spec_lt(v),
        times.len() == 1 || mean_of(times) == v,
    ensures
        score_of(times, total_perfects).consistency == 100,
        score_of(times, total_perfects).avg_reaction == v,
{
    let zero = Binary32::zero();
    if times.len() == 1 {
        assert(times =~= seq![v]);
        lemma_single_round_mean(v);
    } else {
        lemma_deviations_vanish(times, v);
        lemma_from_u64_finite(times.len() as u64);
        lemma_zero_divided(count_of(times));
        assert(zero.spec_sqrt() == zero);
    }
    assert(mean_of(times) == v);
    assert(std_dev_of(times) == zero);
    lemma_no_deviation_is_fully_consistent(v);
}

/// The consistency does not change when mean and deviation are both
/// multiplied by the same power of two and stay normal.
pub proof fn theorem_consistency_is_scale_free(avg: Binary32, std_dev: Binary32, j: int)
    requires
        stays_normal(avg, j),
        stays_normal(std_dev, j),
    ensures
        consistency_of(scaled_by_power_of_two(avg, j), scaled_by_power_of_two(std_dev, j))
            == consistency_of(avg, std_dev),
{
    if !avg.is_zero() {
        lemma_scaled_fields(avg, j);
        lemma_quotient_is_scale_free(std_dev, avg, j);
    }
}

/// The session with every reaction time multiplied by `2^j`.
pub open spec fn scaled_session(xs: Seq<Binary32>, j: int) -> Seq<Binary32> {
    Seq::new(xs.len(), |i: int| scaled_by_power_of_two(xs[i], j))
}

/// Every reaction time and every sum on the way to the total stays normal.
pub open spec fn sums_scale_exactly(xs: Seq<Binary32>, j: int) -> bool
    decreases xs.len(),
{
    xs.len() == 0 || {
        &&& sums_scale_exactly(xs.drop_last(), j)
        &&& stays_normal(xs.last(), j)
        &&& stays_normal(sum_of(xs), j)
    }
}

/// Every deviation from `avg` and every sum of squares on the way to the
/// total stays normal, and the square of every deviation that is not zero
/// scales exactly and does not vanish.
pub open spec fn deviations_scale_exactly(xs: Seq<Binary32>, avg: Binary32, j: int) -> bool
    decreases xs.len(),
{
    xs.len() == 0 || {
        let deviation = avg.spec_minus(xs.last());
        let square = deviation.spec_times(deviation);
        &&& deviations_scale_exactly(xs.drop_last(), avg, j)
        &&& stays_normal(xs.last(), j)
        &&& stays_normal(deviation, j)
        &&& (deviation.is_zero() || (!square.is_zero() && scales_exactly(square, 2 * j)))
        &&& stays_normal(sum_of_squared_deviations(xs, avg), 2 * j)
    }
}

/// No value that the aggregation of `xs` passes through leaves the normal
/// range or vanishes by rounding, with the times as they are or multiplied
/// by `2^j`: the sums, the mean, the deviations and their squares, and the
/// variance. (The standard deviation, a root, then stays normal by itself.)
pub open spec fn session_scales_exactly(xs: Seq<Binary32>, j: int) -> bool {
    let avg = mean_of(xs);
    let total = sum_of_squared_deviations(xs, avg);
    let variance = variance_of(xs);
    &&& sums_scale_exactly(xs, j)
    &&& (sum_of(xs).is_zero() || (!avg.is_zero() && scales_exactly(avg, j)))
    &&& (xs.len() > 1 ==> {
        &&& deviations_scale_exactly(xs, avg, j)
        &&& (total.is_zero() || (!variance.is_zero() && scales_exactly(variance, 2 * j)))
    })
}

/// The sum of the scaled times is the scaled sum.
pub proof fn lemma_sum_scales(xs: Seq<Binary32>, j: int)
    requires
        sums_scale_exactly(xs, j),
    ensures
        sum_of(scaled_session(xs, j)) == scaled_by_power_of_two(sum_of(xs), j),
        stays_normal(sum_of(xs), j),
    decreases xs.len(),
{
    let ys = scaled_session(xs, j);
    if xs.len() > 0 {
        lemma_sum_scales(xs.drop_last(), j);
        assert(ys.drop_last() =~= scaled_session(xs.drop_last(), j));
        assert(ys.last() == scaled_by_power_of_two(xs.last(), j));
        lemma_plus_scales(sum_of(xs.drop_last()), xs.last(), j);
    }
}

/// The squared deviations of the scaled times from the scaled mean add up
/// to the sum for the times as they are, scaled by the square of the
/// factor.
pub proof fn lemma_deviations_scale(xs: Seq<Binary32>, avg: Binary32, j: int)
    requires
        stays_normal(avg, j),
        deviations_scale_exactly(xs, avg, j),
    ensures
        sum_of_squared_deviations(scaled_session(xs, j), scaled_by_power_of_two(avg, j))
            == scaled_by_power_of_two(sum_of_squared_deviations(xs, avg), 2 * j),
        stays_normal(sum_of_squared_deviations(xs, avg), 2 * j),
    decreases xs.len(),
{
    let ys = scaled_session(xs, j);
    if xs.len() > 0 {
        lemma_deviations_scale(xs.drop_last(), avg, j);
        assert(ys.drop_last() =~= scaled_session(xs.drop_last(), j));
        assert(ys.last() == scaled_by_power_of_two(xs.last(), j));
        let deviation = avg.spec_minus(xs.last());
        lemma_minus_scales(avg, xs.last(), j);
        lemma_times_scales(deviation, deviation, j);
        lemma_plus_scales(
            sum_of_squared_deviations(xs.drop_last(), avg),
            squared_deviation(avg, xs.last()),
            2 * j,
        );
    }
}

/// Under the same conditions the sum of squared deviations of at least one
/// round is a number and not negative.
pub proof fn lemma_total_is_not_negative(xs: Seq<Binary32>, avg: Binary32, j: int)
    requires
        xs.len() >= 1,
        deviations_scale_exactly(xs, avg, j),
    ensures
        is_nonnegative(sum_of_squared_deviations(xs, avg)),
    decreases xs.len(),
{
    let deviation = avg.spec_minus(xs.last());
    let square = squared_deviation(avg, xs.last());
    lemma_round_magnitude_bound(deviation.units() * deviation.units(), -298, false);
    assert(is_nonnegative(square));
    if xs.len() > 1 {
        lemma_total_is_not_negative(xs.drop_last(), avg, j);
        lemma_plus_nonnegative(sum_of_squared_deviations(xs.drop_last(), avg), square);
    } else {
        assert(xs.drop_last().len() == 0);
        assert(sum_of_squared_deviations(xs.drop_last(), avg) == Binary32::negative_zero());
        lemma_plus_negative_zero(square);
    }
}

/// The mean of the scaled times is the scaled mean.
pub proof fn lemma_mean_scales(times: Seq<Binary32>, j: int)
    requires
        1 <= times.len() <= usize::MAX,
        session_scales_exactly(times, j),
    ensures
        mean_of(scaled_session(times, j)) == scaled_by_power_of_two(mean_of(times), j),
        scales_exactly(mean_of(times), j),
{
    let scaled = scaled_session(times, j);
    assert(count_of(scaled) == count_of(times));
    lemma_from_u64_finite(times.len() as u64);
    lemma_sum_scales(times, j);
    lemma_divided_scales(sum_of(times), count_of(times), j);
}

/// The variance of the scaled times is the variance scaled by the square
/// of the factor, and it is not negative.
pub proof fn lemma_variance_scales(times: Seq<Binary32>, j: int)
    requires
        2 <= times.len() <= usize::MAX,
        session_scales_exactly(times, j),
    ensures
        variance_of(scaled_session(times, j)) == scaled_by_power_of_two(
            variance_of(times),
            2 * j,
        ),
        scales_exactly(variance_of(times), 2 * j),
        !variance_of(times).is_negative(),
{
    let scaled = scaled_session(times, j);
    let count = count_of(times);
    let avg = mean_of(times);
    let total = sum_of_squared_deviations(times, avg);
    assert(count_of(scaled) == count);
    lemma_from_u64_finite(times.len() as u64);
    lemma_mean_scales(times, j);
    lemma_deviations_scale(times, avg, j);
    lemma_total_is_not_negative(times, avg, j);
    lemma_divided_by_positive_scales(total, count, 2 * j);
}

/// The standard deviation of the scaled times is the scaled standard
/// deviation.
pub proof fn lemma_std_dev_scales(times: Seq<Binary32>, j: int)
    requires
        1 <= times.len() <= usize::MAX,
        session_scales_exactly(times, j),
    ensures
        std_dev_of(scaled_session(times, j)) == scaled_by_power_of_two(std_dev_of(times), j),
        scales_exactly(std_dev_of(times), j),
{
    if times.len() > 1 {
        lemma_variance_scales(times, j);
        lemma_sqrt_scales(variance_of(times), j);
    }
}

/// Multiplying every reaction time by the same power of two multiplies the
/// mean and the standard deviation by it and leaves the consistency as it
/// is, in every session that scales exactly.
pub proof fn theorem_consistency_survives_scaling(
    times: Seq<Binary32>,
    j: int,
    total_perfects: u32,
)
    requires
        1 <= times.len() <= usize::MAX,
        session_scales_exactly(times, j),
    ensures
        mean_of(scaled_session(times, j)) == scaled_by_power_of_two(mean_of(times), j),
        std_dev_of(scaled_session(times, j)) == scaled_by_power_of_two(std_dev_of(times), j),
        score_of(scaled_session(times, j), total_perfects).avg_reaction
            == scaled_by_power_of_two(score_of(times, total_perfects).avg_reaction, j),
        score_of(scaled_session(times, j), total_perfects).consistency == score_of(
            times,
            total_perfects,
        ).consistency,
        score_of(scaled_session(times, j), total_perfects).rounds == score_of(
            times,
            total_perfects,
        ).rounds,
{
    lemma_mean_scales(times, j);
    lemma_std_dev_scales(times, j);
    theorem_consistency_is_scale_free(mean_of(times), std_dev_of(times), j);
}

/// The result depends on the reaction times and the perfect taps alone:
/// sessions that agree on both get the same result, whatever their clicks
/// and seeds are.
pub proof fn theorem_result_is_determined(a: GameInputs, b: GameInputs)
    requires
        a.reaction_times@ == b.reaction_times@,
        a.total_perfects == b.total_perfects,
    ensures
        score_of(a.reaction_times@, a.total_perfects) == score_of(
            b.reaction_times@,
            b.total_perfects,
        ),
{
}

} // verus!

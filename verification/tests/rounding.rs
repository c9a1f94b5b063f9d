use reaction_score::binary32::Binary32;
use reaction_score::log2::{ilog2_u128, pow2_u128};
use reaction_score::pcg::Pcg32;
use reaction_score::rounding::round_pack;
use reaction_score::sqrt::isqrt_u128;

#[test]
fn exact_values_are_kept() {
    assert_eq!(round_pack(false, 3, -2, false).to_bits(), 0.75f32.to_bits());
    assert_eq!(round_pack(true, 3, -2, false).to_bits(), (-0.75f32).to_bits());
    assert_eq!(round_pack(false, 1, 0, false).to_bits(), 1.0f32.to_bits());
    assert_eq!(round_pack(false, 1, 127, false).to_bits(), 0x7f00_0000);
    assert_eq!(round_pack(false, 0xff_ffff, 104, false).to_bits(), f32::MAX.to_bits());
    assert_eq!(round_pack(false, 1, -149, false).to_bits(), 1);
    assert_eq!(round_pack(false, 1, -126, false).to_bits(), f32::MIN_POSITIVE.to_bits());
    assert_eq!(round_pack(false, 0, 5, false).to_bits(), 0);
    assert_eq!(round_pack(true, 0, -700, false).to_bits(), 0x8000_0000);
}

#[test]
fn ties_go_to_the_even_neighbour() {
    // 2^24 + 1 lies halfway between 2^24 and 2^24 + 2.
    assert_eq!(round_pack(false, 0x100_0001, 0, false).to_bits(), 16_777_216f32.to_bits());
    assert_eq!(round_pack(false, 0x100_0003, 0, false).to_bits(), 16_777_220f32.to_bits());
    assert_eq!(round_pack(false, 0x100_0002, 0, false).to_bits(), 16_777_218f32.to_bits());
    // Half of the smallest subnormal goes to zero, three halves to two.
    assert_eq!(round_pack(false, 1, -150, false).to_bits(), 0);
    assert_eq!(round_pack(false, 3, -150, false).to_bits(), 2);
    assert_eq!(round_pack(false, 1, -151, false).to_bits(), 0);
    assert_eq!(round_pack(false, 3, -151, false).to_bits(), 1);
}

#[test]
fn the_flag_breaks_ties_upward() {
    assert_eq!(round_pack(false, 0x100_0001, 0, true).to_bits(), 16_777_218f32.to_bits());
    assert_eq!(round_pack(false, 0x100_0000, 0, true).to_bits(), 16_777_216f32.to_bits());
    assert_eq!(round_pack(false, 0x200_0001, 0, true).to_bits(), 33_554_432f32.to_bits());
    assert_eq!(round_pack(false, 0x200_0002, 0, true).to_bits(), 33_554_436f32.to_bits());
    assert_eq!(round_pack(false, 0x100_0000, -174, true).to_bits(), 1);
}

#[test]
fn values_out_of_range_become_infinite_or_zero() {
    assert_eq!(round_pack(false, 1, 128, false).to_bits(), 0x7f80_0000);
    assert_eq!(round_pack(true, 1, 128, false).to_bits(), 0xff80_0000);
    assert_eq!(round_pack(false, 0xff_ffff, 105, false).to_bits(), 0x7f80_0000);
    assert_eq!(round_pack(false, 0x1ff_ffff, 103, false).to_bits(), 0x7f80_0000);
    assert_eq!(round_pack(false, 0x1ff_fffe, 103, false).to_bits(), f32::MAX.to_bits());
    assert_eq!(round_pack(false, u128::MAX, i32::MAX, false).to_bits(), 0x7f80_0000);
    assert_eq!(round_pack(false, u128::MAX, i32::MIN, true).to_bits(), 0);
    assert_eq!(round_pack(false, u128::MAX, -277, false).to_bits(), 1);
    assert_eq!(round_pack(false, 1 << 127, -277, false).to_bits(), 0);
    assert_eq!(round_pack(false, 1 << 127, -277, true).to_bits(), 1);
    assert_eq!(round_pack(false, u128::MAX, -278, false).to_bits(), 0);
}

#[test]
fn rounding_matches_the_conversion_of_integers() {
    let mut g = Pcg32::new(31);
    for i in 0..60000u32 {
        let n = (((g.next_u32() as u64) << 32) | g.next_u32() as u64) >> (i % 64);
        assert_eq!(round_pack(false, n as u128, 0, false).to_bits(), (n as f32).to_bits());
        let half = round_pack(false, n as u128, -1, false);
        assert_eq!(half.to_bits(), ((n as f64 / 2.0) as f32).to_bits());
    }
}

#[test]
fn writing_a_value_with_more_bits_does_not_change_it() {
    let mut g = Pcg32::new(32);
    for _ in 0..20000 {
        let m = (g.next_u32() as u128) | ((g.next_u32() as u128) << 32);
        let e = (g.next_u32() % 300) as i32 - 200;
        let k = g.next_u32() % 60;
        let once = round_pack(false, m, e, false);
        let scaled = round_pack(false, m << k, e - k as i32, false);
        assert_eq!(once, scaled);
        let top = m | (1 << 63);
        let dropped = round_pack(false, top >> k, e + k as i32, top & ((1u128 << k) - 1) != 0);
        if top >> k >= 0x100_0000 {
            assert_eq!(round_pack(false, top, e, false), dropped);
        }
    }
}

#[test]
fn powers_and_logarithms_of_two() {
    assert_eq!(pow2_u128(0), 1);
    assert_eq!(pow2_u128(23), 0x80_0000);
    assert_eq!(pow2_u128(127), 1u128 << 127);
    assert_eq!(ilog2_u128(1), 0);
    assert_eq!(ilog2_u128(2), 1);
    assert_eq!(ilog2_u128(3), 1);
    assert_eq!(ilog2_u128(0xff_ffff), 23);
    assert_eq!(ilog2_u128(0x100_0000), 24);
    assert_eq!(ilog2_u128(u128::MAX), 127);
    for k in 0..128u32 {
        assert_eq!(ilog2_u128(pow2_u128(k)), k);
    }
}

#[test]
fn integer_square_roots() {
    assert_eq!(isqrt_u128(0), 0);
    assert_eq!(isqrt_u128(1), 1);
    assert_eq!(isqrt_u128(3), 1);
    assert_eq!(isqrt_u128(4), 2);
    assert_eq!(isqrt_u128(99), 9);
    assert_eq!(isqrt_u128(100), 10);
    assert_eq!(isqrt_u128(u128::MAX), u64::MAX as u128);
    let mut g = Pcg32::new(33);
    for _ in 0..20000 {
        let s = g.next_u32() as u128 * g.next_u32() as u128;
        assert_eq!(isqrt_u128(s * s), s);
        assert_eq!(isqrt_u128(s * s + 2 * s), s);
        if s > 0 {
            assert_eq!(isqrt_u128(s * s - 1), s - 1);
        }
    }
}

#[test]
fn unpack_splits_the_fields() {
    let p = Binary32::from_bits(0xc2c8_0000).unpack();
    assert!(p.negative);
    assert_eq!(p.magnitude, 0x42c8_0000);
    assert_eq!(p.significand, 0xc8_0000);
    assert_eq!(p.exponent, -17);
    let p = Binary32::from_bits(1).unpack();
    assert!(!p.negative);
    assert_eq!(p.significand, 1);
    assert_eq!(p.exponent, -149);
    let p = Binary32::from_bits(0x7f7f_ffff).unpack();
    assert_eq!(p.significand, 0xff_ffff);
    assert_eq!(p.exponent, 104);
}

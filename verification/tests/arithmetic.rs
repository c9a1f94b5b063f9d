use reaction_score::binary32::Binary32;
use reaction_score::pcg::Pcg32;

fn agrees(ours: Binary32, native: f32) -> bool {
    if native.is_nan() {
        ours.to_bits() == 0x7fc0_0000
    } else {
        ours.to_bits() == native.to_bits()
    }
}

fn specials() -> Vec<u32> {
    vec![
        0x0000_0000, 0x8000_0000, 0x0000_0001, 0x8000_0001, 0x0000_0002, 0x007f_ffff,
        0x0080_0000, 0x0080_0001, 0x00ff_ffff, 0x0100_0000, 0x3f00_0000, 0x3f7f_ffff,
        0x3f80_0000, 0x3f80_0001, 0xbf80_0000, 0x4000_0000, 0x4040_0000, 0x42c8_0000,
        0x3ecc_cccd, 0x4b00_0000, 0x4b7f_ffff, 0x4b80_0000, 0x4f00_0000, 0x4f80_0000,
        0x5f00_0000, 0x7f7f_ffff, 0xff7f_ffff, 0x7f80_0000, 0xff80_0000, 0x7fc0_0000,
        0xffc0_0000, 0x7f80_0001, 0x3300_0000, 0x3380_0000, 0x3400_0000, 0x1f80_0000,
        0x2000_0000, 0x0040_0000, 0x8040_0000, 0x3fc0_0000, 0x4020_0000, 0xc020_0000,
    ]
}

/// A pattern near `a`: same sign or not, exponent within a few steps.
fn neighbour(a: u32, g: &mut Pcg32) -> u32 {
    let r = g.next_u32();
    let exp = ((a >> 23) & 0xff) as i32;
    let shift = (r % 61) as i32 - 30;
    let mut e = exp + shift;
    if e < 0 {
        e = 0;
    }
    if e > 254 {
        e = 254;
    }
    let frac = match (r >> 8) % 4 {
        0 => a & 0x7f_ffff,
        1 => (a & 0x7f_ffff) ^ 1,
        2 => 0,
        _ => g.next_u32() & 0x7f_ffff,
    };
    let sign = if (r >> 16) % 2 == 0 { a & 0x8000_0000 } else { !a & 0x8000_0000 };
    sign | ((e as u32) << 23) | frac
}

#[test]
fn addition_matches_hardware_on_special_values() {
    for &x in specials().iter() {
        for &y in specials().iter() {
            let ours = Binary32::from_bits(x).plus(Binary32::from_bits(y));
            let native = f32::from_bits(x) + f32::from_bits(y);
            assert!(agrees(ours, native), "{:08x} + {:08x}: {:08x} vs {:08x}", x, y, ours.to_bits(), native.to_bits());
        }
    }
}

#[test]
fn subtraction_matches_hardware_on_special_values() {
    for &x in specials().iter() {
        for &y in specials().iter() {
            let ours = Binary32::from_bits(x).minus(Binary32::from_bits(y));
            let native = f32::from_bits(x) - f32::from_bits(y);
            assert!(agrees(ours, native), "{:08x} - {:08x}: {:08x} vs {:08x}", x, y, ours.to_bits(), native.to_bits());
        }
    }
}

#[test]
fn multiplication_matches_hardware_on_special_values() {
    for &x in specials().iter() {
        for &y in specials().iter() {
            let ours = Binary32::from_bits(x).times(Binary32::from_bits(y));
            let native = f32::from_bits(x) * f32::from_bits(y);
            assert!(agrees(ours, native), "{:08x} * {:08x}: {:08x} vs {:08x}", x, y, ours.to_bits(), native.to_bits());
        }
    }
}

#[test]
fn division_matches_hardware_on_special_values() {
    for &x in specials().iter() {
        for &y in specials().iter() {
            let ours = Binary32::from_bits(x).divided_by(Binary32::from_bits(y));
            let native = f32::from_bits(x) / f32::from_bits(y);
            assert!(agrees(ours, native), "{:08x} / {:08x}: {:08x} vs {:08x}", x, y, ours.to_bits(), native.to_bits());
        }
    }
}

#[test]
fn square_root_matches_hardware_on_special_values() {
    for &x in specials().iter() {
        let ours = Binary32::from_bits(x).sqrt();
        let native = f32::from_bits(x).sqrt();
        assert!(agrees(ours, native), "sqrt {:08x}: {:08x} vs {:08x}", x, ours.to_bits(), native.to_bits());
    }
}

#[test]
fn addition_matches_hardware_on_random_patterns() {
    let mut g = Pcg32::new(1);
    for _ in 0..60000 {
        let x = g.next_u32();
        let y = g.next_u32();
        let ours = Binary32::from_bits(x).plus(Binary32::from_bits(y));
        assert!(agrees(ours, f32::from_bits(x) + f32::from_bits(y)), "{:08x} + {:08x}", x, y);
    }
}

#[test]
fn addition_matches_hardware_on_close_exponents() {
    let mut g = Pcg32::new(2);
    for _ in 0..60000 {
        let x = g.next_u32();
        let y = neighbour(x, &mut g);
        let ours = Binary32::from_bits(x).plus(Binary32::from_bits(y));
        assert!(agrees(ours, f32::from_bits(x) + f32::from_bits(y)), "{:08x} + {:08x}", x, y);
        let diff = Binary32::from_bits(x).minus(Binary32::from_bits(y));
        assert!(agrees(diff, f32::from_bits(x) - f32::from_bits(y)), "{:08x} - {:08x}", x, y);
    }
}

#[test]
fn multiplication_matches_hardware_on_random_patterns() {
    let mut g = Pcg32::new(3);
    for i in 0..60000 {
        let x = g.next_u32();
        let y = if i % 2 == 0 { g.next_u32() } else { neighbour(0x3f80_0000, &mut g) };
        let ours = Binary32::from_bits(x).times(Binary32::from_bits(y));
        assert!(agrees(ours, f32::from_bits(x) * f32::from_bits(y)), "{:08x} * {:08x}", x, y);
    }
}

#[test]
fn multiplication_matches_hardware_near_underflow() {
    let mut g = Pcg32::new(4);
    for _ in 0..60000 {
        let x = (g.next_u32() & 0x807f_ffff) | ((g.next_u32() % 40 + 20) << 23);
        let y = (g.next_u32() & 0x807f_ffff) | ((g.next_u32() % 40 + 80) << 23);
        let ours = Binary32::from_bits(x).times(Binary32::from_bits(y));
        assert!(agrees(ours, f32::from_bits(x) * f32::from_bits(y)), "{:08x} * {:08x}", x, y);
    }
}

#[test]
fn division_matches_hardware_on_random_patterns() {
    let mut g = Pcg32::new(5);
    for i in 0..60000 {
        let x = g.next_u32();
        let y = if i % 2 == 0 { g.next_u32() } else { neighbour(x, &mut g) };
        let ours = Binary32::from_bits(x).divided_by(Binary32::from_bits(y));
        assert!(agrees(ours, f32::from_bits(x) / f32::from_bits(y)), "{:08x} / {:08x}", x, y);
    }
}

#[test]
fn division_by_small_integers_matches_hardware() {
    let mut g = Pcg32::new(6);
    for _ in 0..60000 {
        let x = g.next_u32();
        let n = (g.next_u32() % 1000 + 1) as f32;
        let ours = Binary32::from_bits(x).divided_by(Binary32::from_bits(n.to_bits()));
        assert!(agrees(ours, f32::from_bits(x) / n), "{:08x} / {}", x, n);
    }
}

#[test]
fn square_root_matches_hardware_on_random_patterns() {
    let mut g = Pcg32::new(7);
    for _ in 0..60000 {
        let x = g.next_u32() & 0x7fff_ffff;
        let ours = Binary32::from_bits(x).sqrt();
        assert!(agrees(ours, f32::from_bits(x).sqrt()), "sqrt {:08x}", x);
    }
}

#[test]
fn square_root_of_perfect_squares_is_exact() {
    for n in 0u32..3000 {
        let sq = (n * n) as f32;
        let ours = Binary32::from_bits(sq.to_bits()).sqrt();
        assert_eq!(ours.to_bits(), (n as f32).to_bits());
    }
}

#[test]
fn integer_conversion_matches_hardware() {
    let mut g = Pcg32::new(8);
    for i in 0..60000 {
        let hi = g.next_u32() as u64;
        let lo = g.next_u32() as u64;
        let n = ((hi << 32) | lo) >> (i % 64);
        assert_eq!(Binary32::from_u64(n).to_bits(), (n as f32).to_bits(), "{}", n);
        assert_eq!(Binary32::from_u32(lo as u32).to_bits(), (lo as u32 as f32).to_bits());
    }
    assert_eq!(Binary32::from_u64(0).to_bits(), 0);
    assert_eq!(Binary32::from_u64(16_777_217).to_bits(), 16_777_216f32.to_bits());
    assert_eq!(Binary32::from_u64(16_777_219).to_bits(), 16_777_220f32.to_bits());
    assert_eq!(Binary32::from_u64(u64::MAX).to_bits(), (u64::MAX as f32).to_bits());
}

#[test]
fn truncating_cast_matches_hardware() {
    let mut g = Pcg32::new(9);
    for &x in specials().iter() {
        assert_eq!(Binary32::from_bits(x).to_u32(), f32::from_bits(x) as u32, "{:08x}", x);
    }
    for _ in 0..60000 {
        let x = g.next_u32();
        assert_eq!(Binary32::from_bits(x).to_u32(), f32::from_bits(x) as u32, "{:08x}", x);
        let y = (x & 0x807f_ffff) | ((g.next_u32() % 50 + 110) << 23);
        assert_eq!(Binary32::from_bits(y).to_u32(), f32::from_bits(y) as u32, "{:08x}", y);
    }
    assert_eq!(Binary32::from_bits(99.9f32.to_bits()).to_u32(), 99);
    assert_eq!(Binary32::from_bits(100.0f32.to_bits()).to_u32(), 100);
}

#[test]
fn rounding_to_integer_matches_hardware() {
    let mut g = Pcg32::new(10);
    for &x in specials().iter() {
        assert!(agrees(Binary32::from_bits(x).round(), f32::from_bits(x).round()), "{:08x}", x);
    }
    for _ in 0..60000 {
        let x = g.next_u32();
        assert!(agrees(Binary32::from_bits(x).round(), f32::from_bits(x).round()), "{:08x}", x);
        let y = (x & 0x807f_ffff) | ((g.next_u32() % 40 + 110) << 23);
        assert!(agrees(Binary32::from_bits(y).round(), f32::from_bits(y).round()), "{:08x}", y);
    }
    assert_eq!(Binary32::from_bits(0.5f32.to_bits()).round().to_bits(), 1.0f32.to_bits());
    assert_eq!(Binary32::from_bits(2.5f32.to_bits()).round().to_bits(), 3.0f32.to_bits());
    assert_eq!(Binary32::from_bits((-2.5f32).to_bits()).round().to_bits(), (-3.0f32).to_bits());
    assert_eq!(Binary32::from_bits(182.4f32.to_bits()).round().to_bits(), 182.0f32.to_bits());
    assert_eq!(Binary32::from_bits((-0.3f32).to_bits()).round().to_bits(), 0x8000_0000);
}

#[test]
fn comparison_matches_hardware() {
    let mut g = Pcg32::new(11);
    for &x in specials().iter() {
        for &y in specials().iter() {
            let (a, b) = (Binary32::from_bits(x), Binary32::from_bits(y));
            assert_eq!(a.lt(b), f32::from_bits(x) < f32::from_bits(y));
            assert_eq!(a.le(b), f32::from_bits(x) <= f32::from_bits(y));
        }
    }
    for _ in 0..60000 {
        let x = g.next_u32();
        let y = neighbour(x, &mut g);
        let (a, b) = (Binary32::from_bits(x), Binary32::from_bits(y));
        assert_eq!(a.lt(b), f32::from_bits(x) < f32::from_bits(y));
        assert_eq!(a.le(b), f32::from_bits(x) <= f32::from_bits(y));
    }
}

#[test]
fn negate_flips_only_the_sign() {
    assert_eq!(Binary32::from_bits(0x3f80_0000).negate().to_bits(), 0xbf80_0000);
    assert_eq!(Binary32::from_bits(0x8000_0000).negate().to_bits(), 0);
    assert_eq!(Binary32::pack(true, 0x3f80_0000).to_bits(), 0xbf80_0000);
}

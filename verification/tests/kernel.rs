use reaction_score::binary32::Binary32;
use reaction_score::pcg::Pcg32;
use reaction_score::score::{
    aggregate, consistency_score, iq_score, score, sum, sum_squared_deviations, Click,
    GameInputs, GameResult,
};

fn value(x: f32) -> Binary32 {
    Binary32::from_bits(x.to_bits())
}

fn session(times: &[f32], total_perfects: u32) -> GameInputs {
    GameInputs {
        clicks: Vec::new(),
        random_seed: 0,
        reaction_times: times.iter().map(|t| value(*t)).collect(),
        total_perfects,
    }
}

/// The same computation on the machine's own binary32 arithmetic.
fn on_hardware(times: &[f32], total_perfects: u32) -> (f32, u32, u32, usize) {
    let rounds = times.len();
    if rounds == 0 {
        return (0.0, 70, 0, 0);
    }
    let sum: f32 = times.iter().sum();
    let avg = sum / rounds as f32;
    let std_dev = if rounds > 1 {
        let variance = times
            .iter()
            .map(|value| {
                let diff = avg - *value;
                diff * diff
            })
            .sum::<f32>()
            / rounds as f32;
        variance.sqrt()
    } else {
        0.0
    };
    let consistency = if avg > 0.0 {
        (100.0 * (1.0 - (std_dev / avg))).max(0.0) as u32
    } else {
        0
    };
    let speed_component = (100.0 * (1.0 - (avg - 150.0) / 500.0)).max(0.0);
    let consistency_component = consistency as f32 * 0.4;
    let perfects_component = (2 * total_perfects as u64) as f32;
    let base_iq = 80.0 + speed_component + consistency_component + perfects_component;
    let iq = base_iq.round().min(180.0).max(70.0) as u32;
    (avg, iq, consistency, rounds)
}

fn assert_matches_hardware(times: &[f32], total_perfects: u32) {
    let ours = score(&session(times, total_perfects));
    let (avg, iq, consistency, rounds) = on_hardware(times, total_perfects);
    if avg.is_nan() {
        assert_eq!(ours.avg_reaction.to_bits(), 0x7fc0_0000, "{:?}", times);
    } else {
        assert_eq!(ours.avg_reaction.to_bits(), avg.to_bits(), "{:?}", times);
    }
    assert_eq!(ours.iq_score, iq, "{:?} {}", times, total_perfects);
    assert_eq!(ours.consistency, consistency, "{:?}", times);
    assert_eq!(ours.rounds, rounds);
}

#[test]
fn empty_session_gets_the_base_result() {
    let r = score(&session(&[], 0));
    assert_eq!(r.avg_reaction.to_bits(), 0.0f32.to_bits());
    assert_eq!(r.iq_score, 70);
    assert_eq!(r.consistency, 0);
    assert_eq!(r.rounds, 0);
}

#[test]
fn empty_session_ignores_perfects_clicks_and_seed() {
    let inputs = GameInputs {
        clicks: vec![Click { timestamp_ms: 5 }, Click { timestamp_ms: 900 }],
        random_seed: 77,
        reaction_times: Vec::new(),
        total_perfects: 1000,
    };
    let r = score(&inputs);
    assert_eq!(
        r,
        GameResult { avg_reaction: Binary32::from_bits(0), iq_score: 70, consistency: 0, rounds: 0 }
    );
}

#[test]
fn single_perfect_round() {
    let r = score(&session(&[200.0], 1));
    assert_eq!(r.avg_reaction.to_bits(), 200.0f32.to_bits());
    assert_eq!(r.consistency, 100);
    assert_eq!(r.iq_score, 180);
    assert_eq!(r.rounds, 1);
}

#[test]
fn three_steady_rounds() {
    let r = score(&session(&[300.0, 300.0, 300.0], 0));
    assert_eq!(r.avg_reaction.to_bits(), 300.0f32.to_bits());
    assert_eq!(r.consistency, 100);
    assert_eq!(r.iq_score, 180);
    assert_eq!(r.rounds, 3);
    let times = vec![value(300.0), value(300.0), value(300.0)];
    let (avg, std_dev) = aggregate(&times);
    assert_eq!(avg.to_bits(), 300.0f32.to_bits());
    assert_eq!(std_dev.to_bits(), 0.0f32.to_bits());
}

#[test]
fn slow_player() {
    let r = score(&session(&[650.0, 650.0], 0));
    assert_eq!(r.avg_reaction.to_bits(), 650.0f32.to_bits());
    assert_eq!(r.consistency, 100);
    assert_eq!(r.iq_score, 120);
    assert_eq!(r.rounds, 2);
}

#[test]
fn very_slow_player_has_no_speed_component() {
    let r = score(&session(&[2000.0], 0));
    assert_eq!(r.avg_reaction.to_bits(), 2000.0f32.to_bits());
    assert_eq!(r.consistency, 100);
    assert_eq!(r.iq_score, 120);
    assert_eq!(r.rounds, 1);
}

#[test]
fn mixed_session_with_perfects() {
    let r = score(&session(&[200.0, 400.0], 3));
    assert_eq!(r.avg_reaction.to_bits(), 300.0f32.to_bits());
    assert_eq!(r.consistency, 66);
    assert_eq!(r.iq_score, 180);
    assert_eq!(r.rounds, 2);
    let times = vec![value(200.0), value(400.0)];
    let (avg, std_dev) = aggregate(&times);
    assert_eq!(avg.to_bits(), 300.0f32.to_bits());
    assert_eq!(std_dev.to_bits(), 100.0f32.to_bits());
}

#[test]
fn scores_below_the_ceiling_are_exact() {
    let r = score(&session(&[900.0, 100.0, 500.0, 420.5], 0));
    assert_eq!(r.avg_reaction.to_bits(), 480.125f32.to_bits());
    assert_eq!(r.consistency, 40);
    assert_eq!(r.iq_score, 130);
    let r = score(&session(&[640.0, 600.0], 0));
    assert_eq!(r.avg_reaction.to_bits(), 620.0f32.to_bits());
    assert_eq!(r.consistency, 96);
    assert_eq!(r.iq_score, 124);
    let r = score(&session(&[1000.0, 200.0, 3000.0], 1));
    assert_eq!(r.avg_reaction.to_bits(), 1400.0f32.to_bits());
    assert_eq!(r.consistency, 15);
    assert_eq!(r.iq_score, 88);
}

#[test]
fn more_perfects_never_lower_the_score() {
    let r2 = score(&session(&[700.0, 500.0], 2));
    let r3 = score(&session(&[700.0, 500.0], 3));
    assert_eq!(r2.iq_score, 127);
    assert_eq!(r3.iq_score, 129);
    let first = score(&session(&[700.0, 500.0, 810.0], 0));
    let mut last = first.iq_score;
    for p in 1..200u32 {
        let r = score(&session(&[700.0, 500.0, 810.0], p));
        assert!(r.iq_score >= last);
        assert_eq!(r.consistency, first.consistency);
        assert_eq!(r.avg_reaction, first.avg_reaction);
        last = r.iq_score;
    }
    assert_eq!(last, 180);
}

#[test]
fn doubled_perfects_never_wrap() {
    let times = [1400.0f32, 1400.0];
    assert_eq!(score(&session(&times, 0)).iq_score, 120);
    assert_eq!(score(&session(&times, 3)).iq_score, 126);
    assert_eq!(score(&session(&times, 30)).iq_score, 180);
    assert_eq!(score(&session(&times, 0x7fff_ffff)).iq_score, 180);
    assert_eq!(score(&session(&times, 0x8000_0000)).iq_score, 180);
    assert_eq!(score(&session(&times, 0x8000_0003)).iq_score, 180);
    assert_eq!(score(&session(&times, u32::MAX)).iq_score, 180);
    assert_eq!(score(&session(&[650.0], 30)).iq_score, 180);
    assert_eq!(score(&session(&[650.0], 2_147_483_648)).iq_score, 180);
    assert_eq!(score(&session(&[2000.0], 30)).iq_score, 180);
    assert_eq!(score(&session(&[2000.0], 2_147_483_648)).iq_score, 180);
    assert_eq!(iq_score(value(650.0), 0, 0x8000_0001), 180);
}

#[test]
fn constant_session_is_fully_consistent() {
    for &v in [1.0f32, 150.0, 300.0, 333.3, 650.0, 1e-30, 3.0e38].iter() {
        for n in 1..4usize {
            let times = vec![v; n];
            let (avg, _, _, _) = on_hardware(&times, 0);
            let r = score(&session(&times, 0));
            if avg == v {
                assert_eq!(r.consistency, 100, "{} x {}", v, n);
            }
        }
    }
    assert_eq!(score(&session(&[300.0; 12], 0)).consistency, 100);
}

#[test]
fn constant_session_whose_mean_rounds_is_not() {
    let r = score(&session(&[0.1; 10], 0));
    assert_eq!(r.avg_reaction.to_bits(), 0x3dcc_ccce);
    assert_eq!(r.consistency, 99);
    let r = score(&session(&[250.3; 7], 0));
    assert_eq!(r.consistency, 99);
}

#[test]
fn scaling_by_a_power_of_two_keeps_consistency() {
    let base = [210.5f32, 340.25, 275.0, 498.75, 301.5];
    let r1 = score(&session(&base, 0));
    for k in [2.0f32, 4.0, 0.5, 1024.0] {
        let scaled: Vec<f32> = base.iter().map(|t| t * k).collect();
        let r2 = score(&session(&scaled, 0));
        assert_eq!(r1.consistency, r2.consistency);
    }
    let tripled: Vec<f32> = base.iter().map(|t| t * 3.0).collect();
    let r3 = score(&session(&tripled, 0));
    assert!(r3.consistency + 1 >= r1.consistency && r3.consistency <= r1.consistency + 1);
}

#[test]
fn scoring_twice_gives_the_same_result() {
    let inputs = session(&[231.0, 415.5, 388.25, 197.0], 2);
    let first = score(&inputs);
    let second = score(&inputs);
    assert_eq!(first, second);
    assert_eq!(first.avg_reaction.to_bits(), second.avg_reaction.to_bits());
    let mut other = session(&[231.0, 415.5, 388.25, 197.0], 2);
    other.random_seed = 991;
    other.clicks.push(Click { timestamp_ms: 12 });
    assert_eq!(score(&other), first);
}

#[test]
fn rounds_counts_the_reaction_times() {
    for n in 0..40usize {
        let times = vec![250.0f32; n];
        assert_eq!(score(&session(&times, 0)).rounds, n);
    }
}

#[test]
fn mean_that_is_not_above_zero_has_no_consistency() {
    let r = score(&session(&[0.0, 0.0], 0));
    assert_eq!(r.consistency, 0);
    assert_eq!(r.iq_score, 180);
    let r = score(&session(&[-100.0, -300.0], 0));
    assert_eq!(r.avg_reaction.to_bits(), (-200.0f32).to_bits());
    assert_eq!(r.consistency, 0);
    assert_eq!(r.iq_score, 180);
    let r = score(&session(&[f32::NAN, 200.0], 5));
    assert_eq!(r.avg_reaction.to_bits(), 0x7fc0_0000);
    assert_eq!(r.consistency, 0);
    assert_eq!(r.iq_score, 90);
}

#[test]
fn widely_spread_session_has_no_consistency() {
    let r = score(&session(&[1.0, 1.0, 1.0, 1.0, 1.0, 1.0, 1.0, 1.0, 1.0, 5000.0], 0));
    assert_eq!(r.consistency, 0);
    assert_matches_hardware(&[1.0, 1.0, 1.0, 1.0, 1.0, 1.0, 1.0, 1.0, 1.0, 5000.0], 0);
}

#[test]
fn unusual_values_match_hardware() {
    assert_matches_hardware(&[f32::INFINITY], 0);
    assert_matches_hardware(&[f32::INFINITY, f32::INFINITY], 4);
    assert_matches_hardware(&[f32::NEG_INFINITY], 0);
    assert_matches_hardware(&[f32::INFINITY, f32::NEG_INFINITY], 0);
    assert_matches_hardware(&[f32::NAN], 0);
    assert_matches_hardware(&[f32::MAX, f32::MAX], 0);
    assert_matches_hardware(&[f32::MIN_POSITIVE, 1.0e-45], 0);
    assert_matches_hardware(&[0.0], 0);
    assert_matches_hardware(&[-0.0], 0);
    assert_matches_hardware(&[-0.0, -0.0], 0);
    assert_matches_hardware(&[-0.0, 0.0], 0);
    assert_matches_hardware(&[1.0e-30; 3], 0);
    assert_matches_hardware(&[-5.0, 10.0], 1);
}

#[test]
fn plausible_sessions_match_hardware() {
    let mut g = Pcg32::new(2024);
    for _ in 0..3000 {
        let n = (g.next_u32() % 24) as usize;
        let spread = g.next_u32() % 900_000 + 1;
        let floor = g.next_u32() % 700;
        let times: Vec<f32> = (0..n)
            .map(|_| floor as f32 + (g.next_u32() % spread) as f32 / 1000.0)
            .collect();
        let perfects = g.next_u32() % 30;
        assert_matches_hardware(&times, perfects);
    }
}

#[test]
fn arbitrary_patterns_match_hardware() {
    let mut g = Pcg32::new(4048);
    for _ in 0..3000 {
        let n = (g.next_u32() % 6) as usize;
        let times: Vec<f32> = (0..n).map(|_| f32::from_bits(g.next_u32())).collect();
        assert_matches_hardware(&times, g.next_u32());
    }
}

#[test]
fn positive_patterns_of_similar_size_match_hardware() {
    let mut g = Pcg32::new(8096);
    for _ in 0..3000 {
        let n = (g.next_u32() % 9 + 1) as usize;
        let exponent = g.next_u32() % 250 + 2;
        let times: Vec<f32> = (0..n)
            .map(|_| {
                let shift = g.next_u32() % 3;
                f32::from_bits(((exponent - shift) << 23) | (g.next_u32() & 0x7f_ffff))
            })
            .collect();
        assert_matches_hardware(&times, g.next_u32() % 10);
    }
}

#[test]
fn results_stay_in_range() {
    let mut g = Pcg32::new(5);
    for _ in 0..3000 {
        let n = (g.next_u32() % 5) as usize;
        let times: Vec<Binary32> = (0..n).map(|_| Binary32::from_bits(g.next_u32())).collect();
        let inputs = GameInputs {
            clicks: Vec::new(),
            random_seed: 0,
            reaction_times: times,
            total_perfects: g.next_u32(),
        };
        let r = score(&inputs);
        assert!(70 <= r.iq_score && r.iq_score <= 180);
        assert!(r.consistency <= 100);
        assert_eq!(r.rounds, n);
    }
}

#[test]
fn sums_run_from_the_left() {
    let times = vec![value(1.0e8), value(1.0), value(-1.0e8), value(1.0)];
    let expect = ((1.0e8f32 + 1.0) + -1.0e8) + 1.0;
    assert_eq!(sum(&times).to_bits(), expect.to_bits());
    assert_eq!(expect, 1.0);
    let one = vec![value(-0.0)];
    assert_eq!(sum(&one).to_bits(), 0x8000_0000);
    let none: Vec<Binary32> = Vec::new();
    assert_eq!(sum(&none).to_bits(), 0x8000_0000);
    let devs = sum_squared_deviations(&vec![value(1.0), value(4.0)], value(2.0));
    assert_eq!(devs.to_bits(), 5.0f32.to_bits());
}

#[test]
fn consistency_is_truncated_not_rounded() {
    assert_eq!(consistency_score(value(300.0), value(100.0)), 66);
    assert_eq!(consistency_score(value(1000.0), value(1.0)), 99);
    assert_eq!(consistency_score(value(1000.0), value(0.0)), 100);
    assert_eq!(consistency_score(value(100.0), value(150.0)), 0);
    assert_eq!(consistency_score(value(0.0), value(0.0)), 0);
    assert_eq!(consistency_score(value(-3.0), value(1.0)), 0);
    assert_eq!(consistency_score(value(f32::NAN), value(1.0)), 0);
    assert_eq!(consistency_score(value(10.0), value(f32::NAN)), 0);
}

#[test]
fn iq_is_rounded_then_clamped() {
    assert_eq!(iq_score(value(650.0), 100, 0), 120);
    assert_eq!(iq_score(value(650.0), 0, 0), 80);
    assert_eq!(iq_score(value(650.0), 1, 0), 80);
    assert_eq!(iq_score(value(650.0), 2, 0), 81);
    assert_eq!(iq_score(value(650.0), 4, 0), 82);
    assert_eq!(iq_score(value(300.0), 66, 3), 180);
    assert_eq!(iq_score(value(400.0), 0, 0), 130);
    assert_eq!(iq_score(value(402.5), 0, 0), 130);
    assert_eq!(iq_score(value(397.5), 0, 0), 131);
    assert_eq!(iq_score(value(5000.0), 0, 0), 80);
    assert_eq!(iq_score(value(f32::NAN), 0, 0), 80);
    assert_eq!(iq_score(value(f32::NEG_INFINITY), 0, 0), 180);
    assert_eq!(iq_score(value(650.0), 0, 50), 180);
}

#[test]
fn consistency_ignores_a_common_power_of_two() {
    let mut g = Pcg32::new(77);
    for _ in 0..2000 {
        let avg = (g.next_u32() % 2_000_000) as f32 / 1000.0 + 1.0;
        let std_dev = (g.next_u32() % 3_000_000) as f32 / 1000.0;
        let plain = consistency_score(value(avg), value(std_dev));
        for k in [0.25f32, 2.0, 64.0, 1048576.0] {
            assert_eq!(consistency_score(value(avg * k), value(std_dev * k)), plain);
        }
    }
}

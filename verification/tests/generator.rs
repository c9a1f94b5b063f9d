use reaction_score::pcg::Pcg32;

#[test]
fn new_starts_at_the_seed_on_stream_one() {
    let g = Pcg32::new(42);
    assert_eq!(g.state, 42);
    assert_eq!(g.inc, 1);
}

#[test]
fn first_word_from_zero_seed_is_zero() {
    let mut g = Pcg32::new(0);
    assert_eq!(g.next_u32(), 0);
    assert_eq!(g.state, 1);
    assert_eq!(g.inc, 1);
}

#[test]
fn next_u32_follows_the_recurrence() {
    let mut g = Pcg32::new(12345);
    let mut state: u64 = 12345;
    for _ in 0..1000 {
        let xorshifted = (((state >> 18) ^ state) >> 27) as u32;
        let rot = (state >> 59) as u32;
        let expected = xorshifted.rotate_right(rot);
        assert_eq!(g.next_u32(), expected);
        state = state.wrapping_mul(6364136223846793005).wrapping_add(1);
        assert_eq!(g.state, state);
    }
}

#[test]
fn second_state_from_seed_one() {
    let mut g = Pcg32::new(1);
    g.next_u32();
    assert_eq!(g.state, 6364136223846793006);
    g.next_u32();
    assert_eq!(g.state, 6364136223846793006u64.wrapping_mul(6364136223846793005).wrapping_add(1));
}

#[test]
fn even_increment_is_made_odd() {
    let mut g = Pcg32 { state: 7, inc: 4 };
    g.next_u32();
    assert_eq!(g.state, 7u64.wrapping_mul(6364136223846793005).wrapping_add(5));
    assert_eq!(g.inc, 4);
}

#[test]
fn same_seed_gives_same_stream() {
    let mut a = Pcg32::new(99);
    let mut b = Pcg32::new(99);
    for _ in 0..100 {
        assert_eq!(a.next_u32(), b.next_u32());
    }
}

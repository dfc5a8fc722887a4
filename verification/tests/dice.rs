use rapier_bevy::timeline::Dice;

fn reference_splitmix(state: &mut u64) -> u64 {
    *state = state.wrapping_add(0x9e3779b97f4a7c15);
    let mut z = *state;
    z = (z ^ (z >> 30)).wrapping_mul(0xbf58476d1ce4e5b9);
    z = (z ^ (z >> 27)).wrapping_mul(0x94d049bb133111eb);
    z ^ (z >> 31)
}

#[test]
fn dice_first_draw_from_zero_seed() {
    let mut d = Dice::new(0);
    assert_eq!(d.next_u64(), 0xe220a8397b1dcdaf);
}

#[test]
fn dice_matches_splitmix64_stream() {
    for seed in [0u64, 1, 42, u64::MAX, 0x9e3779b97f4a7c15] {
        let mut d = Dice::new(seed);
        let mut s = seed;
        for _ in 0..100 {
            assert_eq!(d.next_u64(), reference_splitmix(&mut s));
        }
    }
}

#[test]
fn dice_same_seed_same_stream() {
    let mut a = Dice::new(7);
    let mut b = Dice::new(7);
    for _ in 0..50 {
        assert_eq!(a.roll(6), b.roll(6));
    }
}

#[test]
fn dice_state_progression_law_example() {
    // After k draws, the (k+1)-th value is the mix of seed + (k+1) gammas.
    let seed = 123u64;
    let mut d = Dice::new(seed);
    for _ in 0..9 {
        d.next_u64();
    }
    let mut fresh = Dice::new(seed.wrapping_add(9u64.wrapping_mul(0x9e3779b97f4a7c15)));
    assert_eq!(d.next_u64(), fresh.next_u64());
}

#[test]
fn dice_roll_in_range() {
    let mut d = Dice::new(99);
    for n in 1..40usize {
        for _ in 0..20 {
            assert!(d.roll(n) < n);
        }
    }
    let mut one = Dice::new(5);
    assert_eq!(one.roll(1), 0);
}

#[test]
fn dice_roll_is_draw_modulo_faces() {
    let mut a = Dice::new(11);
    let mut b = Dice::new(11);
    let x = a.next_u64();
    assert_eq!(b.roll(7), (x % 7) as usize);
}

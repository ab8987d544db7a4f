//! Seeds, and the settings each one is checked under.

use quench::conf::{Division, Engine, Optimise, Settings};
use quench::gen::{name_of, settings_for, Seeded};

#[test]
fn a_seed_picks_a_configuration_as_well_as_a_program() {
    let mut seen_truncated = false;
    let mut seen_floored = false;
    for seed in 1..200u64 {
        match settings_for(seed).division {
            Division::Truncated => seen_truncated = true,
            Division::Floored => seen_floored = true,
        }
    }
    assert!(seen_truncated && seen_floored, "the oracle only ever checked one language");

    for seed in [1u64, 42, 9999] {
        assert_eq!(settings_for(seed), settings_for(seed));
    }
}

#[test]
fn only_the_semantic_settings_are_picked() {
    let defaults = Settings::default();
    for seed in 0..100u64 {
        let s = settings_for(seed);
        assert_eq!(s.optimise, defaults.optimise);
        assert_eq!(s.engine, defaults.engine);
    }
    assert_eq!(defaults.optimise, Optimise::Speed);
    assert_eq!(defaults.engine, Engine::DevJit);
}

#[test]
fn the_scrambler_is_a_xorshift_that_never_stops() {
    let mut rng = Seeded::from(0);
    // Nought becomes one, which scrambles to this.
    let first = rng.next();
    let mut x: u64 = 1;
    x ^= x << 13;
    x ^= x >> 7;
    x ^= x << 17;
    assert_eq!(first, x);
    assert_eq!(first, 1082269761);
    for _ in 0..1000 {
        assert_ne!(rng.next(), 0);
    }
}

#[test]
fn upto_and_pick_stay_in_range() {
    let mut a = Seeded::from(7);
    let mut b = Seeded::from(7);
    for _ in 0..100 {
        let n = a.upto(5);
        assert!(n < 5);
        assert_eq!(n as u64, b.next() % 5);
    }
    let items = [10, 20, 30];
    let mut c = Seeded::from(99);
    for _ in 0..50 {
        assert!(items.contains(&c.pick(&items)));
    }
}

#[test]
fn a_program_is_named_by_its_seed() {
    assert_eq!(name_of(0), "p0");
    assert_eq!(name_of(42), "p42");
    assert_eq!(name_of(u64::MAX), "p18446744073709551615");
}

#[test]
fn settings_follow_the_scrambled_seed() {
    // The first pick is the low bit of the first scrambled state after `seed * k | 1`.
    for seed in [0u64, 3, 17, 1 << 40] {
        let mut rng = Seeded::from(seed.wrapping_mul(0x9E37_79B9_7F4A_7C15));
        let expected = if rng.next() % 2 == 0 { Division::Truncated } else { Division::Floored };
        assert_eq!(settings_for(seed).division, expected, "seed {seed}");
    }
}

#[test]
fn different_seeds_name_different_programs() {
    let names: Vec<String> = (0..2000u64).map(name_of).collect();
    let mut sorted = names.clone();
    sorted.sort();
    sorted.dedup();
    assert_eq!(sorted.len(), names.len());
    assert_ne!(name_of(1), name_of(10));
}

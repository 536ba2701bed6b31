use better_rng::entropy::{os_entropy_u64, seed_from_sources};
use better_rng::splitmix::splitmix64;
use better_rng::{BetterRng, FallbackEntropy};
use rand_core::{RngCore, SeedableRng};
use rand_pcg::Pcg64Mcg;

fn no_fallback() -> FallbackEntropy {
    FallbackEntropy { nanos: Some(0), counter: 0, stack_addr: 0 }
}

#[test]
fn splitmix64_of_known_integers() {
    assert_eq!(splitmix64(0), 0xe220a8397b1dcdaf);
    assert_eq!(splitmix64(1), 0x910a2dec89025cc1);
    assert_eq!(splitmix64(u64::MAX), 0xe4d971771b652c20);
}

#[test]
fn splitmix64_has_no_collisions() {
    let mut mixed: Vec<u64> = (0..5000).map(splitmix64).collect();
    mixed.sort();
    mixed.dedup();
    assert_eq!(mixed.len(), 5000);
}

#[test]
fn os_bytes_are_read_little_endian() {
    let bytes = [0x01, 0x23, 0x45, 0x67, 0x89, 0xab, 0xcd, 0xef];
    assert_eq!(seed_from_sources(Some(bytes), no_fallback), 0xefcdab8967452301);
    assert_eq!(seed_from_sources(Some([0xff; 8]), no_fallback), u64::MAX);
}

#[test]
fn fallback_is_left_alone_while_the_os_delivers() {
    let mut called = false;
    let seed = seed_from_sources(Some([1, 0, 0, 0, 0, 0, 0, 0]), || {
        called = true;
        no_fallback()
    });
    assert_eq!(seed, 1);
    assert!(!called);
}

#[test]
fn fallback_mixes_time_counter_and_address() {
    let seed = seed_from_sources(None, || FallbackEntropy {
        nanos: Some((7u128 << 64) + 123456789),
        counter: 3,
        stack_addr: 0x7fff0000,
    });
    assert_eq!(seed, 0xb3e1c7c08e0dc877);
    let first = FallbackEntropy { nanos: Some(5), counter: 1, stack_addr: 0 };
    assert_eq!(first.seed(), 0x8ebb778c6d801508);
}

#[test]
fn clock_before_the_epoch_counts_as_zero() {
    let before = FallbackEntropy { nanos: None, counter: 0, stack_addr: 0 };
    assert_eq!(before.seed(), 0xe220a8397b1dcdaf);
    assert_eq!(before.seed(), no_fallback().seed());
}

#[test]
fn counters_separate_fallback_seeds() {
    let mut seeds: Vec<u64> = (0..5000)
        .map(|counter| FallbackEntropy { nanos: Some(99), counter, stack_addr: 1234 }.seed())
        .collect();
    seeds.sort();
    seeds.dedup();
    assert_eq!(seeds.len(), 5000);
}

#[test]
fn os_entropy_differs_from_call_to_call() {
    let first = os_entropy_u64(no_fallback);
    let second = os_entropy_u64(no_fallback);
    assert_ne!(first, second);
    assert_ne!(first, 0);
}

#[test]
fn seeding_is_that_of_the_generator_crate() {
    for seed in [0u64, 1, 42, u64::MAX] {
        let mut rng = BetterRng::from_seed(seed);
        let mut reference = Pcg64Mcg::seed_from_u64(seed);
        for _ in 0..100 {
            assert_eq!(rng.randi(), reference.next_u32() as i64);
        }
    }
}

#[test]
fn fresh_generators_have_distinct_seeds() {
    let mut seeds: Vec<i64> = (0..1000).map(|_| BetterRng::init(no_fallback).get_seed()).collect();
    seeds.sort();
    seeds.dedup();
    assert_eq!(seeds.len(), 1000);
}

#[test]
fn fresh_generators_roll_like_fair_dice() {
    let mut matches = 0;
    let mut previous = -1;
    for _ in 0..6000 {
        let roll = BetterRng::init(no_fallback).randi_range(1, 6);
        if roll == previous {
            matches += 1;
        }
        previous = roll;
    }
    assert!(700 < matches && matches < 1300);
}

#[test]
fn fresh_generators_do_not_repeat_five_dice() {
    let mut ties = 0;
    let mut previous = [0i64; 5];
    for _ in 0..5000 {
        let mut rng = BetterRng::init(no_fallback);
        let mut rolls = [0i64; 5];
        for roll in rolls.iter_mut() {
            *roll = rng.randi_range(1, 6);
        }
        if rolls == previous {
            ties += 1;
        }
        previous = rolls;
    }
    assert!(ties < 20);
}

#[test]
fn randomize_replaces_seed_and_stream() {
    let mut rng = BetterRng::from_seed(42);
    rng.randomize(no_fallback);
    let seed = rng.get_seed();
    assert_ne!(seed, 42);
    let mut replay = BetterRng::from_seed(0);
    replay.set_seed(seed);
    for _ in 0..100 {
        assert_eq!(rng.randi(), replay.randi());
    }
}

#[test]
fn seeds_come_back_as_they_were_set() {
    let mut rng = BetterRng::from_seed(5);
    for seed in [0i64, 1, -1, 42, i64::MAX, i64::MIN] {
        rng.set_seed(seed);
        assert_eq!(rng.get_seed(), seed);
    }
    assert_eq!(BetterRng::from_seed(u64::MAX).get_seed(), -1);
}

#[test]
fn negative_seeds_keep_their_bits() {
    let mut rng = BetterRng::from_seed(5);
    rng.set_seed(-1);
    assert_eq!(rng.randi(), 1655520907);
    assert_eq!(rng.randi(), 3289188796);
}

#[test]
fn draws_leave_the_seed_alone() {
    let mut rng = BetterRng::from_seed(42);
    rng.randi();
    rng.randf_bits();
    rng.randfn_bits();
    rng.randi_range(1, 100);
    rng.rand_weighted(3, false);
    assert_eq!(rng.get_seed(), 42);
}

#[test]
fn the_same_seed_replays_the_same_run() {
    let mut rng = BetterRng::from_seed(9);
    rng.set_seed(1234);
    let first: Vec<i64> = (0..50).map(|_| rng.randi_range(-1000, 1000)).collect();
    rng.set_seed(1234);
    let second: Vec<i64> = (0..50).map(|_| rng.randi_range(-1000, 1000)).collect();
    assert_eq!(first, second);
}

#[test]
fn seeds_expand_to_four_pieces_of_a_state() {
    for seed in [0u64, 1, 42, 0x0123456789abcdef, u64::MAX] {
        let mut x = seed;
        let mut state = 0u128;
        for i in 0..4 {
            x = x.wrapping_mul(6364136223846793005).wrapping_add(11634580027462260723);
            let cut = (((x >> 18) ^ x) >> 27) as u32;
            state |= (cut.rotate_right((x >> 59) as u32) as u128) << (32 * i);
        }
        let mut rng = BetterRng::from_seed(seed);
        let mut reference = Pcg64Mcg::new(state | 1);
        for _ in 0..10 {
            assert_eq!(rng.randf_bits(), reference.next_u64() >> 11);
        }
    }
}

#[test]
fn a_fresh_generator_can_be_had_again() {
    let mut fresh = BetterRng::init(no_fallback);
    let mut replay = BetterRng::from_seed(0);
    replay.set_seed(fresh.get_seed());
    for _ in 0..100 {
        assert_eq!(fresh.randi(), replay.randi());
    }
}

use better_rng::better_rng::{fraction_bits, guard_fraction, range_span, range_value};
use better_rng::bounded::{accept_word, bounded_u64};
use better_rng::BetterRng;
use rand_core::RngCore;
use rand_pcg::Pcg64Mcg;

#[test]
fn bound_zero_draws_nothing() {
    let mut rng = Pcg64Mcg::new(42);
    assert_eq!(bounded_u64(&mut rng, 0), 0);
    assert!(rng == Pcg64Mcg::new(42));
}

#[test]
fn bound_one_draws_once() {
    let mut rng = Pcg64Mcg::new(42);
    assert_eq!(bounded_u64(&mut rng, 1), 0);
    assert_eq!(rng.next_u64(), 0x382954200617ab24);
}

#[test]
fn bounded_draws_reduce_the_words_of_the_generator() {
    let mut rng = Pcg64Mcg::new(42);
    let expected: [u64; 6] = [
        0x63b4a3a813ce700a,
        0x382954200617ab24,
        0xa7fd85ae3fe950ce,
        0xd715286aa2887737,
        0x60c92fee2e59f32c,
        0x84c4e96beff30017,
    ];
    for w in expected {
        assert_eq!(bounded_u64(&mut rng, 1000), w % 1000);
    }
}

#[test]
fn low_words_are_passed_over() {
    let mut rng = Pcg64Mcg::new(42);
    let bound = (1u64 << 63) + 1;
    let threshold = (1u64 << 63) - 1;
    let mut words = Pcg64Mcg::new(42);
    for _ in 0..200 {
        let mut w = words.next_u64();
        while w < threshold {
            w = words.next_u64();
        }
        assert_eq!(bounded_u64(&mut rng, bound), w % bound);
    }
    assert!(rng == words);
}

#[test]
fn words_below_the_threshold_are_rejected() {
    assert_eq!(accept_word(15, 100), None);
    assert_eq!(accept_word(16, 100), Some(16));
    assert_eq!(accept_word(u64::MAX, 100), Some(15));
    assert_eq!(accept_word(3, 6), None);
    assert_eq!(accept_word(4, 6), Some(4));
    assert_eq!(accept_word(0, 64), Some(0));
    assert_eq!(accept_word((1 << 63) - 2, (1 << 63) + 1), None);
    assert_eq!(accept_word((1 << 63) - 1, (1 << 63) + 1), Some((1 << 63) - 1));
    assert_eq!(accept_word(u64::MAX, u64::MAX), Some(0));
    assert_eq!(accept_word(0, u64::MAX), None);
}

#[test]
fn every_step_of_the_generator_is_a_multiplication() {
    let mut state: u128 = 43;
    let mut rng = Pcg64Mcg::new(43);
    for _ in 0..1000 {
        state = state.wrapping_mul(0x2360ED051FC65DA44385DF649FCCF645);
        assert_eq!(state % 4, 3);
        let folded = ((state >> 64) as u64) ^ (state as u64);
        let word = folded.rotate_right((state >> 122) as u32);
        assert_eq!(bounded_u64(&mut rng, 1 << 63), word % (1 << 63));
    }
}

#[test]
fn randi_gives_the_lower_half_of_a_word() {
    let mut rng = BetterRng::from_seed(42);
    assert_eq!(rng.randi(), 1123331483);
    assert_eq!(rng.randi(), 4064177775);
    assert_eq!(rng.randi(), 2130306854);
    assert_eq!(rng.randi(), 3320669623);
}

#[test]
fn randf_bits_are_the_upper_bits_of_a_word() {
    let mut rng = BetterRng::from_seed(42);
    assert_eq!(rng.randf_bits(), 5166453660081813);
    assert_eq!(rng.randf_bits(), 1200719400945613);
    assert_eq!(rng.randf_bits(), 3205985035345724);
    assert_eq!(rng.randf_bits(), 2030282531716524);
}

#[test]
fn fractions_have_53_bits() {
    assert_eq!(fraction_bits(0), 0);
    assert_eq!(fraction_bits(2047), 0);
    assert_eq!(fraction_bits(2048), 1);
    assert_eq!(fraction_bits(u64::MAX), (1 << 53) - 1);
    let scale = 1.0_f64 / ((1u64 << 53) as f64);
    assert!((fraction_bits(u64::MAX) as f64) * scale < 1.0);
}

#[test]
fn guarded_fractions_have_a_logarithm() {
    assert_eq!(guard_fraction(0), 2);
    assert_eq!(guard_fraction(1), 3);
    assert_eq!(guard_fraction(2), 2);
    assert_eq!(guard_fraction((1 << 53) - 1), (1 << 53) - 1);
    let scale = 1.0_f64 / ((1u64 << 53) as f64);
    for fraction in [0u64, 1, 2, 3, 1 << 20, (1 << 53) - 1] {
        let mut u = fraction as f64 * scale;
        if u < f64::EPSILON {
            u += f64::EPSILON;
        }
        assert_eq!(guard_fraction(fraction) as f64 * scale, u);
        assert!(u.ln().is_finite());
    }
}

#[test]
fn randfn_bits_takes_two_words() {
    let mut rng = BetterRng::from_seed(42);
    assert_eq!(rng.randfn_bits(), (5166453660081813, 1200719400945613));
    assert_eq!(rng.randi(), 2130306854);
}

#[test]
fn dice_of_a_fixed_seed() {
    let mut rng = BetterRng::from_seed(42);
    for expected in [2, 6, 5, 6, 2, 2, 2, 5, 6, 6] {
        assert_eq!(rng.randi_range(1, 6), expected);
    }
}

#[test]
fn reversed_bounds_make_no_difference() {
    let mut rng = BetterRng::from_seed(7);
    let mut reversed = BetterRng::from_seed(7);
    for _ in 0..100 {
        let value = rng.randi_range(-20, 30);
        assert!(-20 <= value && value <= 30);
        assert_eq!(reversed.randi_range(30, -20), value);
    }
}

#[test]
fn equal_bounds_draw_nothing() {
    let mut rng = BetterRng::from_seed(42);
    assert_eq!(rng.randi_range(-5, -5), -5);
    assert_eq!(rng.randi_range(i64::MIN, i64::MIN), i64::MIN);
    assert_eq!(rng.randi(), 1123331483);
}

#[test]
fn bounds_may_lie_further_apart_than_an_i64_can_tell() {
    let mut rng = BetterRng::from_seed(42);
    assert_eq!(rng.randi_range(i64::MIN, 1 << 62), 1357525058992778651);
    assert_eq!(rng.randi_range(i64::MIN, 1 << 62), -2657514684466731226);
    assert_eq!(rng.randi_range(i64::MIN, 1 << 62), -2671883874895024135);
    let mut whole = BetterRng::from_seed(42);
    assert_eq!(whole.randi_range(i64::MIN, i64::MAX), 1357525058992778651);
    assert_eq!(whole.randi_range(i64::MAX, i64::MIN), -6764298703718158737);
    assert_eq!(whole.randi_range(i64::MIN, i64::MAX), -2657514684466731226);
}

#[test]
fn spans_and_values_of_ranges() {
    assert_eq!(range_span(1, 6), (1, 5));
    assert_eq!(range_span(6, 1), (1, 5));
    assert_eq!(range_span(i64::MIN, i64::MAX), (i64::MIN, u64::MAX));
    assert_eq!(range_value(1, 5), 6);
    assert_eq!(range_value(i64::MIN, u64::MAX), i64::MAX);
    assert_eq!(range_value(-3, 0), -3);
}

#[test]
fn every_face_of_a_die_comes_about_equally_often() {
    let mut rng = BetterRng::from_seed(1);
    let mut counts = [0u32; 6];
    for _ in 0..60_000 {
        counts[(rng.randi_range(1, 6) - 1) as usize] += 1;
    }
    for count in counts {
        assert!(9_500 < count && count < 10_500);
    }
}

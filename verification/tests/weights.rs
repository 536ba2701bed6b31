use better_rng::{BetterRng, WeightedPick};

fn walk(pick: WeightedPick, negative: &[bool]) -> Option<i64> {
    let mut pick = pick;
    for n in negative {
        pick = pick.subtracted(*n);
    }
    match pick {
        WeightedPick::Done { index } => Some(index),
        WeightedPick::Walk { .. } => None,
    }
}

fn start(len: usize) -> WeightedPick {
    BetterRng::from_seed(42).rand_weighted(len, false)
}

#[test]
fn no_weights_pick_nothing() {
    let mut rng = BetterRng::from_seed(42);
    assert!(matches!(rng.rand_weighted(0, false), WeightedPick::Done { index: -1 }));
    assert!(matches!(rng.rand_weighted(0, true), WeightedPick::Done { index: -1 }));
    assert_eq!(rng.randi(), 1123331483);
}

#[test]
fn weights_without_a_positive_sum_pick_nothing() {
    let mut rng = BetterRng::from_seed(42);
    assert!(matches!(rng.rand_weighted(4, true), WeightedPick::Done { index: -1 }));
    assert_eq!(rng.randi(), 1123331483);
}

#[test]
fn a_pick_draws_one_fraction() {
    let mut rng = BetterRng::from_seed(42);
    match rng.rand_weighted(4, false) {
        WeightedPick::Walk { fraction, len, next } => {
            assert_eq!(fraction, 5166453660081813);
            assert_eq!(len, 4);
            assert_eq!(next, 0);
        }
        WeightedPick::Done { .. } => panic!("the pick is made too early"),
    }
    assert_eq!(rng.randi(), 4064177775);
}

#[test]
fn the_first_negative_remainder_is_picked() {
    assert_eq!(walk(start(3), &[true]), Some(0));
    assert_eq!(walk(start(3), &[false, true]), Some(1));
    assert_eq!(walk(start(3), &[false, true, true]), Some(1));
    assert_eq!(walk(start(3), &[false, false, true]), Some(2));
}

#[test]
fn the_last_index_is_picked_where_no_remainder_is_negative() {
    assert_eq!(walk(start(3), &[false, false]), None);
    assert_eq!(walk(start(3), &[false, false, false]), Some(2));
    assert_eq!(walk(start(1), &[false]), Some(0));
}

#[test]
fn a_pick_that_is_made_stays() {
    assert_eq!(walk(WeightedPick::Done { index: -1 }, &[true, false]), Some(-1));
}

#[test]
fn indices_come_in_proportion_to_the_weights() {
    let weights = [1.0f32, 2.0, 0.0, 5.0];
    let mut rng = BetterRng::from_seed(3);
    let mut counts = [0u32; 4];
    let sum: f32 = weights.iter().sum();
    for _ in 0..80_000 {
        let mut pick = rng.rand_weighted(weights.len(), sum <= 0.0);
        let mut remaining = 0.0f32;
        loop {
            match pick {
                WeightedPick::Done { index } => {
                    counts[index as usize] += 1;
                    break;
                }
                WeightedPick::Walk { fraction, next, .. } => {
                    if next == 0 {
                        let scale = 1.0_f64 / ((1u64 << 53) as f64);
                        remaining = ((fraction as f64 * scale) as f32) * sum;
                    }
                    remaining -= weights[next];
                }
            }
            pick = pick.subtracted(remaining < 0.0);
        }
    }
    assert!(9_500 < counts[0] && counts[0] < 10_500);
    assert!(19_400 < counts[1] && counts[1] < 20_600);
    assert_eq!(counts[2], 0);
    assert!(49_400 < counts[3] && counts[3] < 50_600);
}

#[test]
fn a_zero_weight_in_front_shifts_the_index() {
    for negative in [[true, false, false], [false, true, false], [false, false, false]] {
        let index = walk(start(3), &negative).unwrap();
        let longer = [false, negative[0], negative[1], negative[2]];
        assert_eq!(walk(start(4), &longer), Some(index + 1));
    }
    let mut rng = BetterRng::from_seed(42);
    assert_eq!(walk(rng.rand_weighted(0, true), &[]), Some(-1));
    assert_eq!(walk(rng.rand_weighted(1, true), &[false]), Some(-1));
}

//! How often a generator gives out each word.
use vstd::arithmetic::div_mod::{lemma_mod_mod, lemma_mod_multiples_vanish};
use vstd::arithmetic::power2::{lemma2_to64, lemma2_to64_rest, lemma_pow2_pos, pow2};
use vstd::prelude::*;
use vstd::relations::injective_on;
use vstd::set_lib::{lemma_int_range, lemma_map_size, set_int_range};

use crate::orbit::{lemma_period, lemma_reaches_state};
use crate::pcg::{
    lemma_nth_state_adds, lemma_nth_state_odd, nth_state, output, states, step, word, MULTIPLIER,
};

verus! {

/// The draws of one period, counted from 1, in which a generator in `state` gives out
/// `w`.
pub open spec fn draws_of(state: u128, w: u64) -> Set<nat> {
    Set::new(|n: nat| 1 <= n <= pow2(126) && word(state, n) == w)
}

/// The state that is `low` modulo 4, has `high` for its highest 62 bits, and gives out
/// `w`.
spec fn state_giving(w: u64, low: u64, high: u64) -> u128 {
    let count: u64 = high >> 56;
    let x: u64 = (w << count) | (w >> (64 - count) as u64);
    let upper: u64 = (high << 2) | ((x ^ low) & 3);
    ((upper as u128) << 64) | ((upper ^ x) as u128)
}

/// There is such a state, and no other one.
proof fn lemma_state_giving(w: u64, low: u64, high: u64, state: u128)
    requires
        low < 4,
        high < 0x4000_0000_0000_0000,
    ensures
        output(state_giving(w, low, high)) == w,
        state_giving(w, low, high) % 4 == low,
        state_giving(w, low, high) >> 66 == high,
        state % 4 == low && output(state) == w && state >> 66 == high ==> state == state_giving(
            w,
            low,
            high,
        ),
{
    reveal(output);
    assert(output(state_giving(w, low, high)) == w && state_giving(w, low, high) % 4 == low
        && state_giving(w, low, high) >> 66 == high) by (bit_vector)
        requires
            low < 4,
            high < 0x4000_0000_0000_0000,
    ;
    assert(state % 4 == low && output(state) == w && state >> 66 == high ==> state
        == state_giving(w, low, high)) by (bit_vector)
        requires
            low < 4,
            high < 0x4000_0000_0000_0000,
    ;
}

/// The draw of the first period in which an odd `state` leads to `target`, where the two
/// agree modulo 4.
proof fn lemma_reaches_in_period(state: u128, target: u128) -> (n: nat)
    requires
        state % 2 == 1,
        state % 4 == target % 4,
    ensures
        1 <= n <= pow2(126),
        nth_state(state, n) == target,
{
    let n = lemma_reaches_state(state, target);
    lemma_within_period(state, n)
}

/// Whole periods can be left out of a number of draws.
proof fn lemma_within_period(state: u128, n: nat) -> (r: nat)
    requires
        state % 2 == 1,
        n >= 1,
    ensures
        1 <= r <= pow2(126),
        nth_state(state, r) == nth_state(state, n),
    decreases n,
{
    if n <= pow2(126) {
        n
    } else {
        lemma_period(state, 0);
        lemma_pow2_pos(126);
        let rest = (n - pow2(126)) as nat;
        lemma_nth_state_adds(state, pow2(126), rest);
        lemma_within_period(state, rest)
    }
}

/// No state comes twice within one period.
proof fn lemma_distinct_in_period(state: u128, n: nat, m: nat)
    requires
        state % 2 == 1,
        1 <= n < m <= pow2(126),
    ensures
        nth_state(state, n) != nth_state(state, m),
{
    let between = (m - n) as nat;
    lemma_nth_state_adds(state, n, between);
    lemma_nth_state_odd(state, n);
    lemma_period(nth_state(state, n), between);
}

/// Drawing keeps an odd state what it is modulo 4.
proof fn lemma_nth_state_modulo_4(state: u128, n: nat)
    requires
        state % 2 == 1,
    ensures
        nth_state(state, n) % 4 == state % 4,
    decreases n,
{
    if n > 0 {
        reveal(step);
        lemma_nth_state_modulo_4(state, (n - 1) as nat);
        let s = nth_state(state, (n - 1) as nat) as int;
        let factor = MULTIPLIER as int / 4;
        assert(s * MULTIPLIER == 4 * (s * factor) + s) by (nonlinear_arith)
            requires
                MULTIPLIER == 4 * factor + 1,
        ;
        lemma_mod_mod(s * MULTIPLIER, 4, states() / 4);
        lemma_mod_multiples_vanish(s * factor, s, 4);
        assert(step(s as u128) % 4 == s % 4);
    }
}

/// Words are uniform: in one period, a generator with an odd state gives out each of the
/// 2^64 words equally often, 2^62 times.
pub proof fn lemma_words_are_uniform(state: u128, w: u64)
    requires
        state % 2 == 1,
    ensures
        draws_of(state, w).finite(),
        draws_of(state, w).len() == pow2(62),
{
    lemma2_to64();
    lemma2_to64_rest();
    let low = (state % 4) as u64;
    let count = 0x4000_0000_0000_0000int;
    let highs = set_int_range(0, count);
    let reaches = |high: int, n: nat|
        1 <= n <= pow2(126) && nth_state(state, n) == state_giving(w, low, high as u64);
    let draw = |high: int| choose|n: nat| #[trigger] reaches(high, n);
    lemma_int_range(0, count);
    assert forall|high: int| #[trigger] highs.contains(high) implies {
        &&& reaches(high, draw(high))
        &&& draws_of(state, w).contains(draw(high))
    } by {
        lemma_state_giving(w, low, high as u64, 0);
        let n = lemma_reaches_in_period(state, state_giving(w, low, high as u64));
        assert(reaches(high, n));
    }
    assert(injective_on(draw, highs)) by {
        assert forall|a: int, b: int|
            highs.contains(a) && highs.contains(b) && #[trigger] draw(a) == #[trigger] draw(
                b,
            ) implies a == b by {
            lemma_state_giving(w, low, a as u64, 0);
            lemma_state_giving(w, low, b as u64, 0);
        }
    }
    assert forall|n: nat| #[trigger] draws_of(state, w).contains(n) implies highs.map(
        draw,
    ).contains(n) by {
        let reached = nth_state(state, n);
        lemma_nth_state_modulo_4(state, n);
        assert(reached >> 66 < 0x4000_0000_0000_0000) by (bit_vector);
        let high = (reached >> 66) as int;
        lemma_state_giving(w, low, high as u64, reached);
        assert(highs.contains(high));
        let m = draw(high);
        if n < m {
            lemma_distinct_in_period(state, n, m);
        }
        if m < n {
            lemma_distinct_in_period(state, m, n);
        }
    }
    assert(highs.map(draw) =~= draws_of(state, w));
    lemma_map_size(highs, draws_of(state, w), draw);
}

} // verus!

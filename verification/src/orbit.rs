//! Which states a generator comes by.
//!
//! The multiplier is 5 modulo 8, so its powers run through every residue modulo
//! 2^128 that is 1 modulo 4. From an odd state a generator therefore comes by every
//! state that agrees with it modulo 4.
use vstd::arithmetic::div_mod::{
    lemma_fundamental_div_mod, lemma_fundamental_div_mod_converse, lemma_mul_mod_noop_left,
};
use vstd::arithmetic::mul::{lemma_mul_is_associative, lemma_mul_is_commutative};
use vstd::arithmetic::power::{lemma_pow1, lemma_pow_adds, pow};
use vstd::arithmetic::power2::{
    lemma2_to64, lemma2_to64_rest, lemma_pow2_adds, lemma_pow2_pos, lemma_pow2_strictly_increases,
    lemma_pow2_unfold, pow2,
};
use vstd::prelude::*;

use crate::pcg::{nth_state, output, states, step, word, words, MULTIPLIER};

verus! {

/// `n` steps multiply the state by the `n`-th power of the multiplier.
proof fn lemma_nth_state_power(state: u128, n: nat)
    ensures
        nth_state(state, n) == (state * pow(MULTIPLIER as int, n)) % states(),
    decreases n,
{
    reveal(pow);
    reveal(step);
    let m = MULTIPLIER as int;
    if n > 0 {
        let k = (n - 1) as nat;
        lemma_nth_state_power(state, k);
        lemma_mul_mod_noop_left(state * pow(m, k), m, states());
        assert(state * pow(m, k) * m == state * (m * pow(m, k))) by (nonlinear_arith);
    }
}

/// The square of 1 + 2^(j + 2) * odd is of that form too, with j + 1 in place of j.
/// Returns its odd factor.
proof fn lemma_square(j: nat, odd: int) -> (r: int)
    requires
        odd % 2 == 1,
    ensures
        r % 2 == 1,
        (1 + pow2(j + 2) * odd) * (1 + pow2(j + 2) * odd) == 1 + pow2(j + 3) * r,
{
    lemma_pow2_unfold(j + 1);
    lemma_pow2_unfold(j + 2);
    lemma_pow2_unfold(j + 3);
    let (a, quarter) = (pow2(j + 2) as int, pow2(j) as int);
    let r = odd + 2 * (quarter * (odd * odd));
    assert((1 + a * odd) * (1 + a * odd) == 1 + (2 * a) * r) by (nonlinear_arith)
        requires
            a == 4 * quarter,
            r == odd + 2 * (quarter * (odd * odd)),
    ;
    r
}

/// The multiplier to the power 2^j is 1 + 2^(j + 2) * odd. Returns the odd factor.
proof fn lemma_multiplier_power(j: nat) -> (odd: int)
    ensures
        odd % 2 == 1,
        pow(MULTIPLIER as int, pow2(j)) == 1 + pow2(j + 2) * odd,
    decreases j,
{
    lemma2_to64();
    let m = MULTIPLIER as int;
    if j == 0 {
        lemma_pow1(m);
        let odd = (m - 1) / 4;
        assert(pow2(j + 2) * odd == 4 * odd);
        odd
    } else {
        let i = (j - 1) as nat;
        let below = lemma_multiplier_power(i);
        lemma_pow2_unfold(j);
        lemma_pow_adds(m, pow2(i), pow2(i));
        assert(pow2(j) == pow2(i) + pow2(i));
        lemma_square(i, below)
    }
}

/// The multiplier to any power `n` but 0 is 1 + 2^(j + 2) * odd, where 2^j is no higher
/// than `n`. Returns j and the odd factor.
proof fn lemma_any_power(n: nat) -> (r: (nat, int))
    requires
        n > 0,
    ensures
        r.1 % 2 == 1,
        pow2(r.0) <= n,
        n % 2 == 0 ==> r.0 >= 1,
        pow(MULTIPLIER as int, n) == 1 + pow2(r.0 + 2) * r.1,
    decreases n,
{
    lemma2_to64();
    let m = MULTIPLIER as int;
    if n % 2 == 0 {
        let half = n / 2;
        let (j, odd) = lemma_any_power(half);
        lemma_pow_adds(m, half, half);
        lemma_pow2_unfold(j + 1);
        assert(n == half + half);
        let r = lemma_square(j, odd);
        assert(j + 1 + 2 == j + 3);
        (j + 1, r)
    } else if n == 1 {
        lemma_pow1(m);
        let odd = (m - 1) / 4;
        assert(pow2(2) * odd == 4 * odd);
        (0, odd)
    } else {
        let (j, odd) = lemma_any_power((n - 1) as nat);
        lemma_pow1(m);
        lemma_pow_adds(m, (n - 1) as nat, 1);
        lemma_pow2_unfold(j + 1);
        lemma_pow2_unfold(j + 2);
        lemma_pow2_unfold(j);
        let (a, eighth) = (pow2(j + 2) as int, pow2((j - 1) as nat) as int);
        let factor = (m - 1) / 4;
        let r = factor + 2 * (eighth * odd * m);
        assert((1 + a * odd) * m == 1 + 4 * r) by (nonlinear_arith)
            requires
                a == 8 * eighth,
                m == 1 + 4 * factor,
                r == factor + 2 * (eighth * odd * m),
        ;
        assert(pow2(2) * r == 4 * r);
        (0, r)
    }
}

/// Some number of steps, at least one, takes an odd `state` to `target` up to a
/// multiple of 2^k, where the two agree modulo 4. Returns that number, and the
/// multiple.
proof fn lemma_steps_modulo(state: int, target: int, k: nat) -> (r: (nat, int))
    requires
        state % 2 == 1,
        state % 4 == target % 4,
        k >= 2,
    ensures
        r.0 >= 1,
        state * pow(MULTIPLIER as int, r.0) == target + pow2(k) * r.1,
    decreases k,
{
    lemma2_to64();
    let m = MULTIPLIER as int;
    if k == 2 {
        lemma_pow1(m);
        (1, (state * m - target) / 4)
    } else {
        let l = (k - 1) as nat;
        let (n, q) = lemma_steps_modulo(state, target, l);
        let a = pow2(l) as int;
        lemma_pow2_unfold(k);
        if q % 2 == 0 {
            assert(a * q == (2 * a) * (q / 2)) by (nonlinear_arith)
                requires
                    q % 2 == 0,
            ;
            (n, q / 2)
        } else {
            let e = pow2((l - 2) as nat);
            let odd = lemma_multiplier_power((l - 2) as nat);
            lemma_pow_adds(m, n, e);
            lemma_mul_is_associative(state, pow(m, n), pow(m, e));
            lemma_pow2_unfold(l);
            let b = pow2((l - 1) as nat) as int;
            let c = q + target * odd;
            let (t, o) = (target / 2, odd / 2);
            assert(target * odd == 2 * (2 * (t * o) + t + o) + 1) by (nonlinear_arith)
                requires
                    target == 2 * t + 1,
                    odd == 2 * o + 1,
            ;
            let multiple = c / 2 + b * q * odd;
            assert((target + a * q) * (1 + a * odd) == target + (2 * a) * multiple)
                by (nonlinear_arith)
                requires
                    a == 2 * b,
                    c == q + target * odd,
                    c % 2 == 0,
                    multiple == c / 2 + b * q * odd,
            ;
            (n + e, multiple)
        }
    }
}

/// From an odd state a generator comes by every state that agrees with it modulo 4.
/// Returns after how many steps, at least one.
pub proof fn lemma_reaches_state(state: u128, target: u128) -> (n: nat)
    requires
        state % 2 == 1,
        state % 4 == target % 4,
    ensures
        n >= 1,
        nth_state(state, n) == target,
{
    let (n, q) = lemma_steps_modulo(state as int, target as int, 128);
    lemma2_to64_rest();
    lemma_pow2_adds(64, 64);
    assert(pow2(128) == states());
    lemma_nth_state_power(state, n);
    lemma_mul_is_commutative(states(), q);
    lemma_fundamental_div_mod_converse(
        state * pow(MULTIPLIER as int, n),
        states(),
        q,
        target as int,
    );
    n
}

/// The period is 2^126: so many steps lead an odd state back to itself, and no fewer.
pub proof fn lemma_period(state: u128, n: nat)
    requires
        state % 2 == 1,
    ensures
        nth_state(state, pow2(126)) == state,
        0 < n < pow2(126) ==> nth_state(state, n) != state,
{
    lemma2_to64_rest();
    lemma_pow2_adds(64, 64);
    let s = state as int;
    let whole = lemma_multiplier_power(126);
    assert(s * (1 + pow2(128) * whole) == (s * whole) * states() + s) by (nonlinear_arith)
        requires
            pow2(128) == states(),
    ;
    lemma_nth_state_power(state, pow2(126));
    lemma_fundamental_div_mod_converse(
        s * pow(MULTIPLIER as int, pow2(126)),
        states(),
        s * whole,
        s,
    );
    if 0 < n < pow2(126) && nth_state(state, n) == state {
        let (j, odd) = lemma_any_power(n);
        if j >= 126 {
            if j > 126 {
                lemma_pow2_strictly_increases(126, j);
            }
            assert(false);
        }
        lemma_nth_state_power(state, n);
        let product = s * pow(MULTIPLIER as int, n);
        lemma_fundamental_div_mod(product, states());
        let q = product / states();
        // 2^(j + 2) * (s * odd) is a multiple of 2^128, though s * odd is odd.
        let (a, rest) = (pow2(j + 2) as int, (126 - j) as nat);
        lemma_pow2_adds(j + 2, rest);
        lemma_pow2_unfold(rest);
        lemma_pow2_pos(j + 2);
        let half = pow2((rest - 1) as nat) as int;
        assert(s * odd == 2 * (half * q)) by (nonlinear_arith)
            requires
                s * (1 + a * odd) == (a * (2 * half)) * q + s,
                a > 0,
        ;
        let (t, o) = (s / 2, odd / 2);
        assert(s * odd == 2 * (2 * (t * o) + t + o) + 1) by (nonlinear_arith)
            requires
                s == 2 * t + 1,
                odd == 2 * o + 1,
        ;
    }
}

/// A state whose upper half is zero gives out its lower half.
proof fn lemma_output_of_lower_half(state: u128)
    requires
        state < words(),
    ensures
        output(state) == state,
{
    reveal(output);
    assert(output(state) == state) by (bit_vector)
        requires
            state < 0x1_0000_0000_0000_0000u128,
    ;
}

/// From an odd state a generator gives out, sooner or later, a word of at least
/// `least`, for any `least` up to 2^63. Returns which word.
pub proof fn lemma_gives_out_word(state: u128, least: u64) -> (n: nat)
    requires
        state % 2 == 1,
        least <= 0x8000_0000_0000_0000,
    ensures
        n >= 1,
        word(state, n) >= least,
{
    let low: u128 = state % 4;
    let target: u128 = (0x8000_0000_0000_0000 + low) as u128;
    assert(0 <= low < 4 && target == 0x8000_0000_0000_0000 + low);
    assert(target % 4 == low);
    let n = lemma_reaches_state(state, target);
    lemma_output_of_lower_half(target);
    n
}

} // verus!

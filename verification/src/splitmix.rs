//! SplitMix64, a bijective mixing of 64-bit integers.
use vstd::arithmetic::div_mod::{lemma_fundamental_div_mod_converse, lemma_mul_mod_noop_left};
use vstd::arithmetic::mul::lemma_mul_is_associative;
use vstd::prelude::*;

use crate::pcg::words;

verus! {

/// 2^64 divided by the golden ratio, made odd.
pub const GOLDEN_GAMMA: u64 = 0x9E37_79B9_7F4A_7C15;

/// The first factor of the mixing.
pub const FIRST_FACTOR: u64 = 0xBF58_476D_1CE4_E5B9;

/// The second factor of the mixing.
pub const SECOND_FACTOR: u64 = 0x94D0_49BB_1331_11EB;

/// The inverse of the first factor modulo 2^64.
pub const FIRST_INVERSE: u64 = 0x96DE_1B17_3F11_9089;

/// The inverse of the second factor modulo 2^64.
pub const SECOND_INVERSE: u64 = 0x3196_42B2_D24D_8EC3;

/// The inverse of the golden gamma modulo 2^64.
pub const GAMMA_INVERSE: u64 = 0xF1DE_83E1_9937_733D;

/// `x` combined with itself moved `shift` places to the right.
pub open spec fn folded(x: u64, shift: u64) -> u64 {
    x ^ (x >> shift)
}

/// What SplitMix64 makes of `x`: the golden gamma is added, and then folds alternate
/// with multiplications, all modulo 2^64.
pub open spec fn mixed(x: u64) -> u64 {
    let sum: u64 = x.wrapping_add(GOLDEN_GAMMA);
    let once: u64 = folded(sum, 30).wrapping_mul(FIRST_FACTOR);
    let twice: u64 = folded(once, 27).wrapping_mul(SECOND_FACTOR);
    folded(twice, 31)
}

/// What SplitMix64 makes into `y`: the steps of the mixing undone, last to first.
pub open spec fn unmixed(y: u64) -> u64 {
    let twice: u64 = y ^ (y >> 31) ^ (y >> 62);
    let before_second: u64 = twice.wrapping_mul(SECOND_INVERSE);
    let once: u64 = before_second ^ (before_second >> 27) ^ (before_second >> 54);
    let before_first: u64 = once.wrapping_mul(FIRST_INVERSE);
    let sum: u64 = before_first ^ (before_first >> 30) ^ (before_first >> 60);
    sum.wrapping_sub(GOLDEN_GAMMA)
}

/// Mixes the bits of `x`.
pub fn splitmix64(x: u64) -> (r: u64)
    ensures
        r == mixed(x),
{
    let sum: u64 = x.wrapping_add(GOLDEN_GAMMA);
    let once: u64 = (sum ^ (sum >> 30)).wrapping_mul(FIRST_FACTOR);
    let twice: u64 = (once ^ (once >> 27)).wrapping_mul(SECOND_FACTOR);
    twice ^ (twice >> 31)
}

/// Multiplying by `factor` and then by its inverse, modulo 2^64, changes nothing.
pub proof fn lemma_factor_undone(x: u64, factor: u64, inverse: u64)
    requires
        (factor * inverse) % words() == 1,
    ensures
        x.wrapping_mul(factor).wrapping_mul(inverse) == x,
{
    let quotient = (factor * inverse) / words();
    lemma_mul_mod_noop_left(x * factor, inverse as int, words());
    lemma_mul_is_associative(x as int, factor as int, inverse as int);
    assert(x * (factor * inverse) == (x * quotient) * words() + x) by (nonlinear_arith)
        requires
            factor * inverse == quotient * words() + 1,
    ;
    lemma_fundamental_div_mod_converse(
        x * (factor * inverse),
        words(),
        x * quotient,
        x as int,
    );
}

/// SplitMix64 is a bijection: `unmixed` undoes it on either side.
pub proof fn lemma_mixing_is_bijective(x: u64)
    ensures
        unmixed(mixed(x)) == x,
        mixed(unmixed(x)) == x,
{
    lemma_unmixed_undoes_mixed(x);
    lemma_mixed_undoes_unmixed(x);
}

proof fn lemma_unmixed_undoes_mixed(x: u64)
    ensures
        unmixed(mixed(x)) == x,
{
    let sum: u64 = x.wrapping_add(GOLDEN_GAMMA);
    let first: u64 = folded(sum, 30);
    let once: u64 = first.wrapping_mul(FIRST_FACTOR);
    let second: u64 = folded(once, 27);
    let twice: u64 = second.wrapping_mul(SECOND_FACTOR);
    let y: u64 = folded(twice, 31);
    assert(y ^ (y >> 31) ^ (y >> 62) == twice) by (bit_vector)
        requires
            y == twice ^ (twice >> 31),
    ;
    lemma_factor_undone(second, SECOND_FACTOR, SECOND_INVERSE);
    assert(second ^ (second >> 27) ^ (second >> 54) == once) by (bit_vector)
        requires
            second == once ^ (once >> 27),
    ;
    lemma_factor_undone(first, FIRST_FACTOR, FIRST_INVERSE);
    assert(first ^ (first >> 30) ^ (first >> 60) == sum) by (bit_vector)
        requires
            first == sum ^ (sum >> 30),
    ;
}

proof fn lemma_mixed_undoes_unmixed(y: u64)
    ensures
        mixed(unmixed(y)) == y,
{
    let twice: u64 = y ^ (y >> 31) ^ (y >> 62);
    let second: u64 = twice.wrapping_mul(SECOND_INVERSE);
    let once: u64 = second ^ (second >> 27) ^ (second >> 54);
    let first: u64 = once.wrapping_mul(FIRST_INVERSE);
    let sum: u64 = first ^ (first >> 30) ^ (first >> 60);
    assert(sum ^ (sum >> 30) == first) by (bit_vector)
        requires
            sum == first ^ (first >> 30) ^ (first >> 60),
    ;
    lemma_factor_undone(once, FIRST_INVERSE, FIRST_FACTOR);
    assert(once ^ (once >> 27) == second) by (bit_vector)
        requires
            once == second ^ (second >> 27) ^ (second >> 54),
    ;
    lemma_factor_undone(twice, SECOND_INVERSE, SECOND_FACTOR);
    assert(twice ^ (twice >> 31) == y) by (bit_vector)
        requires
            twice == y ^ (y >> 31) ^ (y >> 62),
    ;
}

/// SplitMix64 has no collisions: distinct integers are mixed into distinct ones.
pub proof fn lemma_mixing_is_injective(a: u64, b: u64)
    requires
        a != b,
    ensures
        mixed(a) != mixed(b),
{
    lemma_unmixed_undoes_mixed(a);
    lemma_unmixed_undoes_mixed(b);
}

} // verus!

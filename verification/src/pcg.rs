//! The PCG generator that every draw comes from.
//!
//! `rand_pcg::Pcg64Mcg` is a 128-bit multiplicative congruential generator. It is
//! modelled here by its state: drawing a word multiplies the state by a fixed
//! constant and permutes the product into 64 bits.
use rand_core::{RngCore, SeedableRng};
use rand_pcg::Pcg64Mcg;
use vstd::prelude::*;

verus! {

/// The generator type of `rand_pcg`, opaque to the proofs.
#[verifier::external_type_specification]
#[verifier::external_body]
pub struct ExPcg64Mcg(rand_pcg::Pcg64Mcg);

/// The multiplier of the congruential step.
pub const MULTIPLIER: u128 = 0x2360_ED05_1FC6_5DA4_4385_DF64_9FCC_F645;

/// The 128-bit state that a generator holds.
pub uninterp spec fn pcg_state(rng: Pcg64Mcg) -> u128;

/// The number of values of a state, 2^128.
pub open spec fn states() -> int {
    0x1_0000_0000_0000_0000_0000_0000_0000_0000int
}

/// The number of values of a word, 2^64.
pub open spec fn words() -> int {
    0x1_0000_0000_0000_0000
}

/// The state that follows `state`.
#[verifier::opaque]
pub open spec fn step(state: u128) -> u128 {
    ((state * MULTIPLIER) % states()) as u128
}

/// `x` with its bits moved `count` places to the right, around the end.
pub open spec fn rotated_right(x: u64, count: u64) -> u64 {
    (x >> count) | (x << (64 - count) as u64)
}

/// The word that a generator gives out on reaching `state`: the two halves of the
/// state combined, rotated by the number in its six highest bits.
#[verifier::opaque]
pub open spec fn output(state: u128) -> u64 {
    rotated_right(((state >> 64) as u64) ^ (state as u64), (state >> 122) as u64)
}

/// The value that follows `x` in the expansion of a seed.
#[verifier::opaque]
pub open spec fn expansion_step(x: u64) -> u64 {
    ((x * 6364136223846793005 + 11634580027462260723) % words()) as u64
}

/// The 32 bits that the value `x` contributes to a state, in the expansion of a seed: the
/// value is combined with itself, cut to 32 bits, and rotated to the right by the number
/// in its five highest bits.
#[verifier::opaque]
pub open spec fn expansion_output(x: u64) -> u32 {
    let cut: u32 = (((x >> 18) ^ x) >> 27) as u32;
    let count: u32 = (x >> 59) as u32;
    (cut >> count) | (cut << (32 - count) as u32)
}

/// The state that a generator starts from when it is seeded with `seed`: four values
/// follow the seed, each contributes 32 bits, the lowest first, and the lowest bit of all
/// is set.
#[verifier::opaque]
pub open spec fn seeded_state(seed: u64) -> u128 {
    let a: u64 = expansion_step(seed);
    let b: u64 = expansion_step(a);
    let c: u64 = expansion_step(b);
    let d: u64 = expansion_step(c);
    (expansion_output(a) as u128) | ((expansion_output(b) as u128) << 32) | ((expansion_output(
        c,
    ) as u128) << 64) | ((expansion_output(d) as u128) << 96) | 1
}

/// The state `n` steps after `state`.
pub open spec fn nth_state(state: u128, n: nat) -> u128
    decreases n,
{
    if n == 0 {
        state
    } else {
        step(nth_state(state, (n - 1) as nat))
    }
}

/// The `n`-th word that a generator in `state` gives out, counted from 1.
pub open spec fn word(state: u128, n: nat) -> u64 {
    output(nth_state(state, n))
}

/// Calls `SeedableRng::seed_from_u64` of `rand_core` for `Pcg64Mcg`, which expands the
/// seed to four pieces of 32 bits and makes a state of them, with the lowest bit set.
#[verifier::external_body]
pub(crate) fn seed_from_u64(seed: u64) -> (rng: Pcg64Mcg)
    ensures
        pcg_state(rng) == seeded_state(seed),
{
    Pcg64Mcg::seed_from_u64(seed)
}

/// Calls `RngCore::next_u64` of `Pcg64Mcg`, which multiplies the state by the
/// multiplier, dropping what exceeds 128 bits, and gives out the permuted product.
/// A generator's state is odd at all times: its constructor sets the lowest bit, and
/// the multiplier is odd.
#[verifier::external_body]
pub(crate) fn next_u64(rng: &mut Pcg64Mcg) -> (r: u64)
    ensures
        pcg_state(*final(rng)) == step(pcg_state(*old(rng))),
        pcg_state(*final(rng)) % 2 == 1,
        r == output(pcg_state(*final(rng))),
{
    rng.next_u64()
}

/// Calls `RngCore::next_u32` of `Pcg64Mcg`, which draws a whole word and gives out its
/// lower half.
#[verifier::external_body]
pub(crate) fn next_u32(rng: &mut Pcg64Mcg) -> (r: u32)
    ensures
        pcg_state(*final(rng)) == step(pcg_state(*old(rng))),
        r == output(pcg_state(*final(rng))) as int % 0x1_0000_0000,
{
    rng.next_u32()
}

/// Steps add up: `m` steps after `n` steps are `n + m` steps.
pub proof fn lemma_nth_state_adds(state: u128, n: nat, m: nat)
    ensures
        nth_state(nth_state(state, n), m) == nth_state(state, n + m),
    decreases m,
{
    if m > 0 {
        lemma_nth_state_adds(state, n, (m - 1) as nat);
    }
}

/// The state that a seed expands to is odd.
pub proof fn lemma_seeded_state_odd(seed: u64)
    ensures
        seeded_state(seed) % 2 == 1,
{
    reveal(seeded_state);
    let s: u128 = seeded_state(seed);
    let (a, b) = (expansion_step(seed), expansion_step(expansion_step(seed)));
    let (c, d) = (expansion_step(b), expansion_step(expansion_step(b)));
    let rest: u128 = (expansion_output(a) as u128) | ((expansion_output(b) as u128) << 32) | ((
    expansion_output(c) as u128) << 64) | ((expansion_output(d) as u128) << 96);
    assert((rest | 1) % 2 == 1) by (bit_vector);
    assert(s == rest | 1);
}

/// An odd state stays odd.
pub proof fn lemma_nth_state_odd(state: u128, n: nat)
    requires
        state % 2 == 1,
    ensures
        nth_state(state, n) % 2 == 1,
    decreases n,
{
    if n > 0 {
        reveal(step);
        lemma_nth_state_odd(state, (n - 1) as nat);
        let s = nth_state(state, (n - 1) as nat) as int;
        let (h, m) = (s / 2, MULTIPLIER as int);
        assert(s * m == 2 * (h * m) + m) by (nonlinear_arith)
            requires
                s == 2 * h + 1,
        ;
    }
}

} // verus!

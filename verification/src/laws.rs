//! What the operations do, stated of calls: a call is given by its arguments and its
//! result, and a law says how these belong together, or how the results of several
//! calls do.
use rand_pcg::Pcg64Mcg;
use vstd::prelude::*;

use crate::better_rng::{
    fraction_bits, guard_fraction, range_span, range_value, BetterRng, Generator,
};
use crate::bounded::{accept_word, bounded_u64, lemma_unbiased, words_for};
use crate::entropy::{
    fallback_seed, lemma_digits, os_entropy_u64, os_gave, seed_comes_from, seed_from_sources,
    FallbackEntropy,
};
use crate::pcg::{
    expansion_output, expansion_step, nth_state, output, pcg_state, seeded_state, step, word,
};
use crate::splitmix::{lemma_mixing_is_injective, mixed, splitmix64};
use crate::uniform::{draws_of, lemma_words_are_uniform};
use crate::weighted::WeightedPick;

verus! {

// ---------------------------------------------------------------------------------------
// The generator
// ---------------------------------------------------------------------------------------

/// A step multiplies the state by the multiplier, up to a multiple of 2^128.
pub proof fn law_step_multiplies(state: u128)
    ensures
        (state * 0x2360_ED05_1FC6_5DA4_4385_DF64_9FCC_F645 - step(state))
            % 0x1_0000_0000_0000_0000_0000_0000_0000_0000int == 0,
{
    reveal(step);
}

/// A word has the bits of the two halves of the state, combined, each moved down by as
/// many places as the six highest bits of the state tell, around the end.
pub proof fn law_output_moves_bits(state: u128, i: u64)
    requires
        i < 64,
    ensures
        (((state >> 64) as u64 ^ state as u64) >> i) & 1 == (output(state) >> ((i + 64 - (state
            >> 122)) % 64) as u64) & 1,
{
    reveal(output);
    assert((((state >> 64) as u64 ^ state as u64) >> i) & 1 == (output(state) >> ((i + 64 - (state
        >> 122)) % 64) as u64) & 1) by (bit_vector)
        requires
            i < 64,
    ;
}

/// The states of a generator follow one another by steps, and its words are their
/// outputs.
pub proof fn law_states_follow_by_steps(state: u128, n: nat)
    ensures
        nth_state(state, 0) == state,
        nth_state(state, n + 1) == step(nth_state(state, n)),
        nth_state(state, n + 1) == nth_state(step(state), n),
        word(state, n) == output(nth_state(state, n)),
{
    reveal_with_fuel(nth_state, 2);
    crate::pcg::lemma_nth_state_adds(state, 1, n);
}

/// The values that a seed expands to follow one another by a multiplication and an
/// addition, up to a multiple of 2^64.
pub proof fn law_expansion_step(x: u64)
    ensures
        (x * 6364136223846793005 + 11634580027462260723 - expansion_step(x)) % 0x1_0000_0000_0000_0000int
            == 0,
{
    reveal(expansion_step);
    let sum = x * 6364136223846793005 + 11634580027462260723;
    vstd::arithmetic::div_mod::lemma_fundamental_div_mod(sum, 0x1_0000_0000_0000_0000int);
    assert(sum - expansion_step(x)
        == 0x1_0000_0000_0000_0000int * (sum / 0x1_0000_0000_0000_0000int));
}

/// Each value that a seed expands to has a word of 32 bits: 32 bits of the value, combined
/// with itself, each moved down by as many places as the five highest bits of the value
/// tell, around the end.
pub proof fn law_expansion_output(x: u64, i: u32)
    requires
        i < 32,
    ensures
        (((((x >> 18) ^ x) >> 27) as u32) >> i) & 1 == (expansion_output(x) >> ((i + 32 - (x
            >> 59)) % 32) as u32) & 1,
{
    reveal(expansion_output);
    assert((((((x >> 18) ^ x) >> 27) as u32) >> i) & 1 == (expansion_output(x) >> ((i + 32 - (x
        >> 59)) % 32) as u32) & 1) by (bit_vector)
        requires
            i < 32,
    ;
}

/// The state that a seed expands to is made of the words of the four values that follow
/// the seed, but for its lowest bit, which is set.
pub proof fn law_seed_expands_to_four_words(seed: u64, a: u64, b: u64, c: u64, d: u64)
    requires
        a == expansion_step(seed),
        b == expansion_step(a),
        c == expansion_step(b),
        d == expansion_step(c),
    ensures
        seeded_state(seed) as u32 | 1 == expansion_output(a) | 1,
        seeded_state(seed) as u32 & 1 == 1,
        (seeded_state(seed) >> 32) as u32 == expansion_output(b),
        (seeded_state(seed) >> 64) as u32 == expansion_output(c),
        (seeded_state(seed) >> 96) as u32 == expansion_output(d),
{
    reveal(seeded_state);
    let (p, q, r, s) = (
        expansion_output(a),
        expansion_output(b),
        expansion_output(c),
        expansion_output(d),
    );
    let state: u128 = seeded_state(seed);
    assert(state == (p as u128) | ((q as u128) << 32) | ((r as u128) << 64) | ((s as u128) << 96)
        | 1);
    assert(state as u32 | 1 == p | 1 && state as u32 & 1 == 1 && (state >> 32) as u32 == q && (state
        >> 64) as u32 == r && (state >> 96) as u32 == s) by (bit_vector)
        requires
            state == (p as u128) | ((q as u128) << 32) | ((r as u128) << 64) | ((s as u128) << 96)
                | 1,
    ;
}

/// In one period each word is given out 2^62 times.
pub proof fn law_words_come_equally_often(state: u128, w: u64)
    requires
        state % 2 == 1,
    ensures
        Set::new(
            |n: nat|
                1 <= n <= vstd::arithmetic::power2::pow2(126) && output(nth_state(state, n)) == w,
        ).finite(),
        Set::new(
            |n: nat|
                1 <= n <= vstd::arithmetic::power2::pow2(126) && output(nth_state(state, n)) == w,
        ).len() == 0x4000_0000_0000_0000,
{
    vstd::arithmetic::power2::lemma2_to64_rest();
    lemma_words_are_uniform(state, w);
    assert(draws_of(state, w) =~= Set::new(
        |n: nat|
            1 <= n <= vstd::arithmetic::power2::pow2(126) && output(nth_state(state, n)) == w,
    ));
}

// ---------------------------------------------------------------------------------------
// Seeds
// ---------------------------------------------------------------------------------------

/// A generator made from a seed tells that seed, and holds the state that this very seed
/// expands to.
pub proof fn law_from_seed(seed: u64, r: BetterRng)
    requires
        call_ensures(BetterRng::from_seed, (seed,), r),
    ensures
        r@.seed == seed,
        r@.state == seeded_state(seed),
{
}

/// To set a seed is to hold the state that its bits expand to, whatever the generator
/// was before.
pub proof fn law_set_seed(g: &mut BetterRng, seed: i64)
    requires
        call_ensures(BetterRng::set_seed, (g, seed), ()),
    ensures
        (final(g)@.seed - seed) % 0x1_0000_0000_0000_0000int == 0,
        final(g)@.state == seeded_state(final(g)@.seed),
{
}

/// A seed that was set is the one that is told.
pub proof fn law_set_then_get(g: &mut BetterRng, seed: i64, told: i64)
    requires
        call_ensures(BetterRng::set_seed, (g, seed), ()),
        call_ensures(BetterRng::get_seed, (final(g),), told),
    ensures
        told == seed,
{
}

/// To set the seed that a generator tells is to give another one the same seed, and the
/// state that the first began in.
pub proof fn law_get_then_set(h: BetterRng, told: i64, g: &mut BetterRng)
    requires
        call_ensures(BetterRng::get_seed, (&h,), told),
        call_ensures(BetterRng::set_seed, (g, told), ()),
    ensures
        final(g)@.seed == h@.seed,
        final(g)@.state == seeded_state(h@.seed),
{
}

/// Generators that were given the same seed are the same from there on, and those that
/// were given distinct seeds tell distinct ones.
pub proof fn law_seeds_decide(g: &mut BetterRng, h: &mut BetterRng, seed: i64, other: i64)
    requires
        call_ensures(BetterRng::set_seed, (g, seed), ()),
        call_ensures(BetterRng::set_seed, (h, other), ()),
    ensures
        seed == other <==> final(g)@.seed == final(h)@.seed,
        seed == other ==> final(g)@ == final(h)@,
{
}

/// A fresh generator tells the entropy value that it took, and holds the state that this
/// very value expands to.
pub proof fn law_init<F: FnOnce() -> FallbackEntropy>(fallback: F, r: BetterRng)
    requires
        call_ensures(BetterRng::init::<F>, (fallback,), r),
    ensures
        call_ensures(os_entropy_u64::<F>, (fallback,), r@.seed),
        r@.state == seeded_state(r@.seed),
{
}

/// To randomize a generator is to give it an entropy value that was taken for it, and
/// nothing of what it was before is left.
pub proof fn law_randomize<F: FnOnce() -> FallbackEntropy>(g: &mut BetterRng, fallback: F)
    requires
        call_ensures(BetterRng::randomize::<F>, (g, fallback), ()),
    ensures
        call_ensures(os_entropy_u64::<F>, (fallback,), final(g)@.seed),
        final(g)@.state == seeded_state(final(g)@.seed),
{
}

/// A seed from the operating system holds all eight bytes that were read, the first one
/// lowest.
pub proof fn law_seed_holds_os_bytes<F: FnOnce() -> FallbackEntropy>(
    bytes: [u8; 8],
    fallback: F,
    seed: u64,
)
    requires
        call_ensures(seed_from_sources::<F>, (Some(bytes), fallback), seed) || seed_comes_from(
            Some(bytes),
            fallback,
            seed,
        ),
    ensures
        bytes[0] == seed % 0x100,
        bytes[1] == seed / 0x100 % 0x100,
        bytes[2] == seed / 0x1_0000 % 0x100,
        bytes[3] == seed / 0x100_0000 % 0x100,
        bytes[4] == seed / 0x1_0000_0000 % 0x100,
        bytes[5] == seed / 0x100_0000_0000 % 0x100,
        bytes[6] == seed / 0x1_0000_0000_0000 % 0x100,
        bytes[7] == seed / 0x100_0000_0000_0000 % 0x100,
{
    lemma_digits(bytes, seed);
}

/// Distinct bytes of the operating system are distinct seeds, whatever the fallbacks.
pub proof fn law_os_bytes_separate_seeds<F: FnOnce() -> FallbackEntropy>(
    a: [u8; 8],
    b: [u8; 8],
    fallback: F,
    other: F,
    seed: u64,
)
    requires
        seed_comes_from(Some(a), fallback, seed),
        seed_comes_from(Some(b), other, seed),
    ensures
        a == b,
{
    law_seed_holds_os_bytes(a, fallback, seed);
    law_seed_holds_os_bytes(b, other, seed);
    assert(a =~= b);
}

/// Where the operating system gave nothing, the seed is the one of what the fallback
/// returned.
pub proof fn law_seed_of_fallback<F: FnOnce() -> FallbackEntropy>(fallback: F, seed: u64)
    requires
        call_ensures(seed_from_sources::<F>, (None, fallback), seed) || seed_comes_from(
            None,
            fallback,
            seed,
        ),
    ensures
        exists|entropy: FallbackEntropy|
            call_ensures(fallback, (), entropy) && seed == #[trigger] fallback_seed(entropy),
{
}

/// An entropy value holds all bytes that the operating system gave, and is the seed of
/// what the fallback returned where it gave none.
pub proof fn law_os_entropy<F: FnOnce() -> FallbackEntropy>(fallback: F, seed: u64)
    requires
        call_ensures(os_entropy_u64::<F>, (fallback,), seed),
    ensures
        exists|os: Option<[u8; 8]>|
            {
                &&& #[trigger] os_gave(os)
                &&& os matches Some(bytes) ==> {
                    &&& bytes[0] == seed % 0x100
                    &&& bytes[1] == seed / 0x100 % 0x100
                    &&& bytes[2] == seed / 0x1_0000 % 0x100
                    &&& bytes[3] == seed / 0x100_0000 % 0x100
                    &&& bytes[4] == seed / 0x1_0000_0000 % 0x100
                    &&& bytes[5] == seed / 0x100_0000_0000 % 0x100
                    &&& bytes[6] == seed / 0x1_0000_0000_0000 % 0x100
                    &&& bytes[7] == seed / 0x100_0000_0000_0000 % 0x100
                }
                &&& os is None ==> exists|entropy: FallbackEntropy|
                    call_ensures(fallback, (), entropy) && seed == #[trigger] fallback_seed(entropy)
            },
{
    let os = choose|os: Option<[u8; 8]>|
        #[trigger] seed_comes_from(os, fallback, seed) && os_gave(os);
    if let Some(bytes) = os {
        law_seed_holds_os_bytes(bytes, fallback, seed);
    } else {
        law_seed_of_fallback(fallback, seed);
    }
    assert(os_gave(os));
}

/// What the operating system gave is what a read of it returned: the bytes of a read
/// that succeeded, and nothing only where the read failed.
pub(crate) proof fn law_os_gave_what_was_read(os: Option<[u8; 8]>)
    requires
        os_gave(os),
    ensures
        exists|read: Result<[u8; 8], getrandom::Error>|
            {
                &&& #[trigger] call_ensures(crate::entropy::os_bytes, (), read)
                &&& read matches Ok(bytes) ==> os == Some(bytes)
                &&& read is Err ==> os is None
            },
{
    crate::entropy::lemma_os_gave(os);
}

/// Fallback seeds are equal only where the times, the spread counters and the addresses
/// combine to the same: each of the three alone tells two seeds apart.
pub proof fn law_fallback_seeds_differ(
    a: FallbackEntropy,
    b: FallbackEntropy,
    seed: u64,
    other: u64,
)
    requires
        call_ensures(FallbackEntropy::seed, (&a,), seed),
        call_ensures(FallbackEntropy::seed, (&b,), other),
        a.nanos is Some && b.nanos is Some,
    ensures
        ({
            let (s, t) = (a.nanos->0 % 0x1_0000_0000_0000_0000,
                b.nanos->0 % 0x1_0000_0000_0000_0000);
            &&& a.counter == b.counter && a.stack_addr == b.stack_addr ==> (seed == other <==> s
                == t)
            &&& s == t && a.stack_addr == b.stack_addr ==> (seed == other <==> a.counter
                == b.counter)
            &&& s == t && a.counter == b.counter ==> (seed == other <==> a.stack_addr
                == b.stack_addr)
        }),
{
    let s: u64 = (a.nanos->0 % 0x1_0000_0000_0000_0000) as u64;
    let t: u64 = (b.nanos->0 % 0x1_0000_0000_0000_0000) as u64;
    let (c, d) = (a.stack_addr, b.stack_addr);
    let x: u64 = a.counter.wrapping_mul(0x9E37_79B9_7F4A_7C15);
    let y: u64 = b.counter.wrapping_mul(0x9E37_79B9_7F4A_7C15);
    crate::splitmix::lemma_factor_undone(a.counter, 0x9E37_79B9_7F4A_7C15, 0xF1DE_83E1_9937_733D);
    crate::splitmix::lemma_factor_undone(b.counter, 0x9E37_79B9_7F4A_7C15, 0xF1DE_83E1_9937_733D);
    assert(x == y && c == d ==> (s ^ x ^ c == t ^ y ^ d <==> s == t)) by (bit_vector);
    assert(s == t && c == d ==> (s ^ x ^ c == t ^ y ^ d <==> x == y)) by (bit_vector);
    assert(s == t && x == y ==> (s ^ x ^ c == t ^ y ^ d <==> c == d)) by (bit_vector);
    if s ^ x ^ c != t ^ y ^ d {
        lemma_mixing_is_injective(s ^ x ^ c, t ^ y ^ d);
    }
}

/// A fallback seed is what SplitMix64 makes of the time, the spread counter and the
/// address, and a clock before the epoch counts as the epoch.
pub proof fn law_fallback_seed_is_mixed(a: FallbackEntropy, seed: u64, x: u64, mix: u64)
    requires
        call_ensures(FallbackEntropy::seed, (&a,), seed),
        call_ensures(splitmix64, (x,), mix),
        a.nanos matches Some(n) ==> n % 0x1_0000_0000_0000_0000 == x ^ a.counter.wrapping_mul(
            0x9E37_79B9_7F4A_7C15,
        ) ^ a.stack_addr,
        a.nanos is None ==> x == a.counter.wrapping_mul(0x9E37_79B9_7F4A_7C15) ^ a.stack_addr,
    ensures
        seed == mix,
{
    let (c, y) = (a.stack_addr, a.counter.wrapping_mul(0x9E37_79B9_7F4A_7C15));
    assert((x ^ y ^ c) ^ y ^ c == x) by (bit_vector);
    assert(0u64 ^ y ^ c == y ^ c) by (bit_vector);
}

/// SplitMix64 goes by three values: a sum, and two products, each of the value before
/// combined with itself, up to multiples of 2^64; the result is the last of them combined
/// with itself. Returns the three.
pub proof fn law_splitmix64(x: u64, r: u64) -> (v: (u64, u64, u64))
    requires
        call_ensures(splitmix64, (x,), r) || r == mixed(x),
    ensures
        (x + 0x9E37_79B9_7F4A_7C15 - v.0) % 0x1_0000_0000_0000_0000int == 0,
        ((v.0 ^ (v.0 >> 30)) * 0xBF58_476D_1CE4_E5B9 - v.1) % 0x1_0000_0000_0000_0000int == 0,
        ((v.1 ^ (v.1 >> 27)) * 0x94D0_49BB_1331_11EB - v.2) % 0x1_0000_0000_0000_0000int == 0,
        r == v.2 ^ (v.2 >> 31),
{
    let sum: u64 = x.wrapping_add(0x9E37_79B9_7F4A_7C15);
    let once: u64 = (sum ^ (sum >> 30)).wrapping_mul(0xBF58_476D_1CE4_E5B9);
    let twice: u64 = (once ^ (once >> 27)).wrapping_mul(0x94D0_49BB_1331_11EB);
    (sum, once, twice)
}

/// SplitMix64 has no collisions.
pub proof fn law_splitmix64_is_injective(x: u64, y: u64, r: u64, s: u64)
    requires
        call_ensures(splitmix64, (x,), r),
        call_ensures(splitmix64, (y,), s),
    ensures
        r == s <==> x == y,
{
    if x != y {
        lemma_mixing_is_injective(x, y);
    }
}

// ---------------------------------------------------------------------------------------
// Draws
// ---------------------------------------------------------------------------------------

/// `randi` gives the lower half of the next word.
pub proof fn law_randi(g: &mut BetterRng, r: i64)
    requires
        call_ensures(BetterRng::randi, (g,), r),
    ensures
        0 <= r < 0x1_0000_0000,
        (output(step(old(g)@.state)) - r) % 0x1_0000_0000 == 0,
        final(g)@.state == step(old(g)@.state),
        final(g)@.seed == old(g)@.seed,
{
}

/// `randf_bits` gives the 53 highest bits of the next word.
pub proof fn law_randf_bits(g: &mut BetterRng, r: u64)
    requires
        call_ensures(BetterRng::randf_bits, (g,), r),
    ensures
        2048 * r <= output(step(old(g)@.state)) < 2048 * (r + 1),
        final(g)@.state == step(old(g)@.state),
        final(g)@.seed == old(g)@.seed,
{
}

/// Every fraction of 53 bits has 2048 words, those from 2048 times the fraction on.
pub proof fn law_fraction_bits(w: u64, r: u64)
    requires
        call_ensures(fraction_bits, (w,), r),
    ensures
        r < 0x20_0000_0000_0000,
        2048 * r <= w < 2048 * (r + 1),
{
}

/// The guard lets every fraction but the two lowest pass, and raises those by 2.
pub proof fn law_guard_fraction(fraction: u64, r: u64)
    requires
        call_ensures(guard_fraction, (fraction,), r),
    ensures
        fraction >= 2 ==> r == fraction,
        fraction < 2 ==> r == fraction + 2,
        r >= 2,
{
}

/// `randfn_bits` gives what two calls of `randf_bits` give, but for a first fraction that
/// is below 2, which is raised by 2.
pub proof fn law_randfn_bits(
    g: &mut BetterRng,
    r: (u64, u64),
    h: &mut BetterRng,
    first: u64,
    i: &mut BetterRng,
    second: u64,
)
    requires
        call_ensures(BetterRng::randfn_bits, (g,), r),
        call_ensures(BetterRng::randf_bits, (h,), first),
        call_ensures(BetterRng::randf_bits, (i,), second),
        old(g)@ == old(h)@,
        final(h)@ == old(i)@,
    ensures
        first >= 2 ==> r.0 == first,
        first < 2 ==> r.0 == first + 2,
        r.1 == second,
        final(g)@.state == final(i)@.state,
        final(g)@.seed == old(g)@.seed,
{
}

/// A word is passed over just where it is below 2^64 modulo the bound, and else reduced
/// to what it exceeds a multiple of the bound by.
pub proof fn law_accept_word(w: u64, bound: u64, r: Option<u64>)
    requires
        bound > 0,
        call_ensures(accept_word, (w, bound), r),
    ensures
        r is None <==> w < 0x1_0000_0000_0000_0000int % (bound as int),
        r matches Some(v) ==> v < bound && (w - v) % (bound as int) == 0,
{
    if let Some(v) = r {
        vstd::arithmetic::div_mod::lemma_fundamental_div_mod(w as int, bound as int);
        vstd::arithmetic::div_mod::lemma_mod_multiples_basic(w as int / bound as int, bound as int);
        vstd::arithmetic::mul::lemma_mul_is_commutative(w as int / bound as int, bound as int);
        vstd::arithmetic::div_mod::lemma_mod_bound(w as int, bound as int);
    }
}

/// A draw below a bound takes the first word that is not passed over, and reduces it to
/// its remainder; below 0 there is nothing to draw.
pub proof fn law_bounded_u64(rng: &mut Pcg64Mcg, bound: u64, r: u64)
    requires
        call_ensures(bounded_u64, (rng, bound), r),
    ensures
        bound == 0 ==> r == 0 && *final(rng) == *old(rng),
        bound > 0 ==> r < bound,
        bound > 0 ==> exists|n: nat|
            {
                &&& n >= 1
                &&& pcg_state(*final(rng)) == #[trigger] nth_state(pcg_state(*old(rng)), n)
                &&& output(nth_state(pcg_state(*old(rng)), n))
                    >= 0x1_0000_0000_0000_0000int % (bound as int)
                &&& r == output(nth_state(pcg_state(*old(rng)), n)) as int % bound as int
                &&& forall|j: nat|
                    1 <= j < n ==> output(#[trigger] nth_state(pcg_state(*old(rng)), j))
                        < 0x1_0000_0000_0000_0000int % (
                    bound as int)
            },
{
}

/// As many words stand for each value of a draw among `size` values as for any other.
pub proof fn law_draws_are_unbiased(size: int, value: int)
    requires
        1 <= size <= 0x1_0000_0000_0000_0000,
        0 <= value < size,
    ensures
        Set::new(|w: u64| 0x1_0000_0000_0000_0000int % size <= w && w as int % size == value).finite(),
        Set::new(|w: u64| 0x1_0000_0000_0000_0000int % size <= w && w as int % size == value).len()
            == 0x1_0000_0000_0000_0000int / size,
{
    lemma_unbiased(size, value);
    assert(words_for(size, value) =~= Set::new(
        |w: u64| 0x1_0000_0000_0000_0000int % size <= w && w as int % size == value,
    ));
}

/// The span of two bounds begins at one of them and ends at the other, neither of which
/// is below where it begins or above where it ends.
pub proof fn law_range_span(from: i64, to: i64, r: (i64, u64))
    requires
        call_ensures(range_span, (from, to), r),
    ensures
        r.0 <= from <= r.0 + r.1,
        r.0 <= to <= r.0 + r.1,
        r.0 == from || r.0 == to,
        r.0 + r.1 == from || r.0 + r.1 == to,
{
}

/// The span does not depend on the order of the bounds, and moves along with them.
pub proof fn law_range_span_moves(from: i64, to: i64, by: int, r: (i64, u64), s: (i64, u64))
    requires
        i64::MIN <= from + by <= i64::MAX,
        i64::MIN <= to + by <= i64::MAX,
        call_ensures(range_span, (from, to), r),
        call_ensures(range_span, ((to + by) as i64, (from + by) as i64), s),
    ensures
        s.0 == r.0 + by,
        s.1 == r.1,
{
}

/// An integer in a range lies as far above the lower bound as the offset tells.
pub proof fn law_range_value(lo: i64, offset: u64, r: i64)
    requires
        lo + offset <= i64::MAX,
        call_ensures(range_value, (lo, offset), r),
    ensures
        r - lo == offset,
{
}

/// An integer from a range lies between the bounds, both inclusive and in either order.
/// It is the lower bound plus the first word that is not passed over, modulo the number
/// of integers between the bounds; nothing is drawn where the bounds are equal.
pub proof fn law_randi_range(g: &mut BetterRng, from: i64, to: i64, r: i64)
    requires
        call_ensures(BetterRng::randi_range, (g, from, to), r),
    ensures
        from <= r <= to || to <= r <= from,
        from == to ==> *final(g) == *old(g),
        from < to ==> exists|n: nat|
            {
                &&& n >= 1
                &&& final(g)@.state == #[trigger] nth_state(old(g)@.state, n)
                &&& r == from + output(nth_state(old(g)@.state, n)) as int % (to - from + 1)
                &&& output(nth_state(old(g)@.state, n))
                    >= 0x1_0000_0000_0000_0000int % (to - from + 1)
                &&& forall|j: nat|
                    1 <= j < n ==> output(#[trigger] nth_state(old(g)@.state, j))
                        < 0x1_0000_0000_0000_0000int % (
                    to - from + 1)
            },
        to < from ==> exists|n: nat|
            {
                &&& n >= 1
                &&& final(g)@.state == #[trigger] nth_state(old(g)@.state, n)
                &&& r == to + output(nth_state(old(g)@.state, n)) as int % (from - to + 1)
                &&& output(nth_state(old(g)@.state, n))
                    >= 0x1_0000_0000_0000_0000int % (from - to + 1)
                &&& forall|j: nat|
                    1 <= j < n ==> output(#[trigger] nth_state(old(g)@.state, j))
                        < 0x1_0000_0000_0000_0000int % (
                    from - to + 1)
            },
        final(g)@.seed == old(g)@.seed,
{
}

/// From the same state, a range gives the same integer in whichever order its bounds
/// come, and where the bounds are moved the integer moves along.
pub proof fn law_randi_range_moves(
    g: &mut BetterRng,
    h: &mut BetterRng,
    from: i64,
    to: i64,
    by: int,
    r: i64,
    s: i64,
    swapped: i64,
    i: &mut BetterRng,
)
    requires
        i64::MIN <= from + by <= i64::MAX,
        i64::MIN <= to + by <= i64::MAX,
        old(g)@ == old(h)@ && old(g)@ == old(i)@,
        call_ensures(BetterRng::randi_range, (g, from, to), r),
        call_ensures(BetterRng::randi_range, (h, (from + by) as i64, (to + by) as i64), s),
        call_ensures(BetterRng::randi_range, (i, to, from), swapped),
    ensures
        s == r + by,
        swapped == r,
        final(g)@ == final(h)@,
        final(g)@ == final(i)@,
{
    if from != to {
        let (lo, hi) = if from < to {
            (from as int, to as int)
        } else {
            (to as int, from as int)
        };
        let least = 0x1_0000_0000_0000_0000int % (hi - lo + 1);
        lemma_one_first(old(g)@.state, least, final(g)@.state, final(h)@.state);
        lemma_one_first(old(g)@.state, least, final(g)@.state, final(i)@.state);
    }
}

/// The state in which a generator first gives out a word of at least `least` is one.
proof fn lemma_one_first(state: u128, least: int, a: u128, b: u128)
    requires
        exists|n: nat|
            {
                &&& n >= 1
                &&& a == #[trigger] nth_state(state, n)
                &&& output(nth_state(state, n)) >= least
                &&& forall|j: nat|
                    1 <= j < n ==> output(#[trigger] nth_state(state, j)) < least
            },
        exists|n: nat|
            {
                &&& n >= 1
                &&& b == #[trigger] nth_state(state, n)
                &&& output(nth_state(state, n)) >= least
                &&& forall|j: nat|
                    1 <= j < n ==> output(#[trigger] nth_state(state, j)) < least
            },
    ensures
        a == b,
{
    let n = choose|n: nat|
        {
            &&& n >= 1
            &&& a == #[trigger] nth_state(state, n)
            &&& output(nth_state(state, n)) >= least
            &&& forall|j: nat| 1 <= j < n ==> output(#[trigger] nth_state(state, j)) < least
        };
    let m = choose|m: nat|
        {
            &&& m >= 1
            &&& b == #[trigger] nth_state(state, m)
            &&& output(nth_state(state, m)) >= least
            &&& forall|j: nat| 1 <= j < m ==> output(#[trigger] nth_state(state, j)) < least
        };
    assert(!(n < m) && !(m < n));
}

/// Generators in the same state draw the same.
pub proof fn law_same_state_draws_alike(
    g: &mut BetterRng,
    h: &mut BetterRng,
    r: i64,
    s: i64,
)
    requires
        old(g)@.state == old(h)@.state,
        call_ensures(BetterRng::randi, (g,), r),
        call_ensures(BetterRng::randi, (h,), s),
    ensures
        r == s,
        final(g)@.state == final(h)@.state,
{
}

/// A generator that every draw so far came of is on the stream of its seed.
pub proof fn law_wf_is_on_stream(g: Generator)
    requires
        g.wf(),
    ensures
        exists|n: nat| g.state == #[trigger] nth_state(seeded_state(g.seed), n),
        g.state % 2 == 1,
{
    let n = choose|n: nat| g == #[trigger] Generator::seeded(g.seed).after(n);
    assert(g.state == nth_state(seeded_state(g.seed), n));
}

// ---------------------------------------------------------------------------------------
// Weighted picks
// ---------------------------------------------------------------------------------------

/// A weighted pick begins with the fraction that `randf_bits` gives from the same state,
/// at the first of all the weights; where there is nothing to pick it ends at once with
/// -1, and draws nothing.
pub proof fn law_rand_weighted(
    g: &mut BetterRng,
    len: usize,
    sum_nonpositive: bool,
    r: WeightedPick,
    h: &mut BetterRng,
    fraction: u64,
)
    requires
        len <= i64::MAX,
        old(g)@ == old(h)@,
        call_ensures(BetterRng::rand_weighted, (g, len, sum_nonpositive), r),
        call_ensures(BetterRng::randf_bits, (h,), fraction),
    ensures
        len == 0 || sum_nonpositive ==> r is Done && r->index == -1 && *final(g) == *old(g),
        len > 0 && !sum_nonpositive ==> {
            &&& r is Walk && r->fraction == fraction && r->len == len && r->next == 0
            &&& final(g)@.state == final(h)@.state
        },
        final(g)@.seed == old(g)@.seed,
{
}

/// A walk over all weights ends with the first index whose subtraction left a negative
/// remainder, or else with the last index; until then it goes on from weight to weight,
/// with its fraction and its length.
pub proof fn law_walk(picks: Seq<WeightedPick>, negative: Seq<bool>, len: usize, index: int, k: int)
    requires
        0 < len <= i64::MAX,
        negative.len() == len,
        picks.len() == len + 1,
        picks[0] is Walk && picks[0]->len == len && picks[0]->next == 0,
        forall|i: int|
            0 <= i < len ==> call_ensures(
                WeightedPick::subtracted,
                (#[trigger] picks[i], negative[i]),
                picks[i + 1],
            ),
        0 <= index < len,
        negative[index] || index == len - 1,
        forall|i: int| 0 <= i < index ==> !#[trigger] negative[i],
        0 <= k <= len,
    ensures
        k <= index ==> {
            &&& picks[k] is Walk && picks[k]->next == k
            &&& picks[k]->len == len && picks[k]->fraction == picks[0]->fraction
        },
        k > index ==> picks[k] is Done && picks[k]->index == index,
    decreases k,
{
    if k > 0 {
        law_walk(picks, negative, len, index, k - 1);
        assert(call_ensures(
            WeightedPick::subtracted,
            (picks[k - 1], negative[k - 1]),
            picks[k - 1 + 1],
        ));
    }
}

} // verus!

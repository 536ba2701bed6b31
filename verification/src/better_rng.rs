//! The random number generator.
use rand_pcg::Pcg64Mcg;
use vstd::arithmetic::div_mod::lemma_small_mod;
use vstd::prelude::*;
use vstd::set_lib::{lemma_int_range, lemma_map_size, set_int_range};

use crate::bounded::{
    bounded_u64, draws_below, first_at_least, lemma_draw_ends, lemma_unbiased, passed_over,
    words_for,
};
use crate::entropy::{os_entropy_u64, os_gave, seed_comes_from, FallbackEntropy};
use crate::pcg::{
    lemma_nth_state_adds, lemma_nth_state_odd, lemma_seeded_state_odd, next_u32, next_u64,
    nth_state, output, pcg_state, seed_from_u64, seeded_state, step, word, words,
};
use crate::weighted::WeightedPick;

verus! {

/// A generator as its users see it: the seed that it was given last, and the state that
/// determines what it draws from here on.
pub struct Generator {
    pub seed: u64,
    pub state: u128,
}

impl Generator {
    /// The generator that has just been given `seed`.
    pub open spec fn seeded(seed: u64) -> Generator {
        Generator { seed, state: seeded_state(seed) }
    }

    /// The generator after `n` more words were drawn.
    pub open spec fn after(self, n: nat) -> Generator {
        Generator { seed: self.seed, state: nth_state(self.state, n) }
    }

    /// The `n`-th word that is drawn from here on, counted from 1.
    pub open spec fn word(self, n: nat) -> u64 {
        word(self.state, n)
    }

    /// Every word drawn so far came of the seed, and the state is odd, as the states of
    /// the generator all are.
    pub open spec fn wf(self) -> bool {
        &&& exists|n: nat| self == #[trigger] Generator::seeded(self.seed).after(n)
        &&& self.state % 2 == 1
    }
}

/// The number of fractions that a draw of a floating-point number tells apart, 2^53.
pub open spec fn fractions() -> int {
    0x20_0000_0000_0000
}

/// The highest 53 bits of a word.
pub open spec fn fraction_of(w: u64) -> u64 {
    w / 2048
}

/// The words that `fraction` is the highest 53 bits of.
pub open spec fn words_with_fraction(fraction: u64) -> Set<u64> {
    Set::new(|w: u64| fraction_of(w) == fraction)
}

/// A fraction moved away from zero, for the sake of its logarithm: below 2 / 2^53 it is
/// raised by that much.
pub open spec fn guarded(fraction: u64) -> u64 {
    if fraction < 2 {
        (fraction + 2) as u64
    } else {
        fraction
    }
}

/// The bits of a signed integer read as an unsigned one.
pub open spec fn to_unsigned(x: i64) -> u64 {
    if x < 0 {
        (x + words()) as u64
    } else {
        x as u64
    }
}

/// The bits of an unsigned integer read as a signed one.
pub open spec fn to_signed(x: u64) -> i64 {
    if x > i64::MAX {
        (x - words()) as i64
    } else {
        x as i64
    }
}

/// The lower of two bounds.
pub open spec fn range_low(from: i64, to: i64) -> int {
    if from < to {
        from as int
    } else {
        to as int
    }
}

/// How many integers lie between two bounds, both of them counted.
pub open spec fn range_size(from: i64, to: i64) -> int {
    if from < to {
        to - from + 1
    } else {
        from - to + 1
    }
}

/// The highest 53 bits of a word.
pub fn fraction_bits(w: u64) -> (r: u64)
    ensures
        r == fraction_of(w),
        r < fractions(),
        2048 * r <= w < 2048 * r + 2048,
{
    assert(w >> 11 == w / 2048) by (bit_vector);
    w >> 11
}

/// Moves a fraction away from zero.
pub fn guard_fraction(fraction: u64) -> (r: u64)
    ensures
        r == guarded(fraction),
        fraction >= 2 ==> r == fraction,
        fraction < 2 ==> r == fraction + 2,
{
    if fraction < 2 {
        fraction + 2
    } else {
        fraction
    }
}

/// The lower one of two bounds, and how far the other is above it.
pub fn range_span(from: i64, to: i64) -> (r: (i64, u64))
    ensures
        r.0 == range_low(from, to),
        r.1 == range_size(from, to) - 1,
        r.0 <= from <= r.0 + r.1,
        r.0 <= to <= r.0 + r.1,
        r.0 == from && r.0 + r.1 == to || r.0 == to && r.0 + r.1 == from,
{
    let (lo, hi): (i64, i64) = if from < to {
        (from, to)
    } else {
        (to, from)
    };
    // The bounds may lie further apart than an i64 can tell.
    (lo, (hi as i128 - lo as i128) as u64)
}

/// The integer that lies `offset` above `lo`.
pub fn range_value(lo: i64, offset: u64) -> (r: i64)
    requires
        lo + offset <= i64::MAX,
    ensures
        r == lo + offset,
{
    (lo as i128 + offset as i128) as i64
}

/// A random number generator that is seeded from the operating system.
pub struct BetterRng {
    rng: Pcg64Mcg,
    seed: u64,
}

impl View for BetterRng {
    type V = Generator;

    closed spec fn view(&self) -> Generator {
        Generator { seed: self.seed, state: pcg_state(self.rng) }
    }
}

impl BetterRng {
    /// A generator with the given seed.
    pub fn from_seed(seed: u64) -> (r: BetterRng)
        ensures
            r@ == Generator::seeded(seed),
            r@.seed == seed,
            r@.state == seeded_state(seed),
            r@.wf(),
    {
        let r = BetterRng { rng: seed_from_u64(seed), seed };
        proof {
            lemma_seeded_state_odd(seed);
            assert(r@ == Generator::seeded(seed).after(0));
        }
        r
    }

    /// A generator with a fresh seed from the operating system, or from `fallback` where
    /// the operating system fails.
    pub fn init<F: FnOnce() -> FallbackEntropy>(fallback: F) -> (r: BetterRng)
        requires
            call_requires(fallback, ()),
        ensures
            exists|e: u64| #[trigger]
                call_ensures(os_entropy_u64::<F>, (fallback,), e) && r@ == Generator::seeded(e)
                    && r@.seed == e,
            r@.state == seeded_state(r@.seed),
            exists|os: Option<[u8; 8]>|
                #[trigger] seed_comes_from(os, fallback, r@.seed) && os_gave(os),
            r@.wf(),
    {
        let seed: u64 = os_entropy_u64(fallback);
        BetterRng::from_seed(seed)
    }

    /// Seeds the generator afresh from the operating system, or from `fallback` where
    /// the operating system fails.
    pub fn randomize<F: FnOnce() -> FallbackEntropy>(&mut self, fallback: F)
        requires
            call_requires(fallback, ()),
        ensures
            exists|e: u64| #[trigger]
                call_ensures(os_entropy_u64::<F>, (fallback,), e) && final(self)@
                    == Generator::seeded(e) && final(self)@.seed == e,
            final(self)@.state == seeded_state(final(self)@.seed),
            exists|os: Option<[u8; 8]>|
                #[trigger] seed_comes_from(os, fallback, final(self)@.seed) && os_gave(os),
            final(self)@.wf(),
    {
        let seed: u64 = os_entropy_u64(fallback);
        *self = BetterRng::from_seed(seed);
    }

    /// Seeds the generator with the bits of `seed`, for a run that can be reproduced.
    pub fn set_seed(&mut self, seed: i64)
        ensures
            final(self)@ == Generator::seeded(to_unsigned(seed)),
            seed >= 0 ==> final(self)@.seed == seed,
            seed < 0 ==> final(self)@.seed == seed + 0x1_0000_0000_0000_0000,
            final(self)@.state == seeded_state(final(self)@.seed),
            final(self)@.wf(),
    {
        let bits: u64 = seed as u64;
        proof {
            lemma_cast_to_unsigned(seed);
        }
        *self = BetterRng::from_seed(bits);
    }

    /// The bits of the seed that was applied last.
    pub fn get_seed(&self) -> (r: i64)
        ensures
            r == to_signed(self@.seed),
            r >= 0 ==> self@.seed == r,
            r < 0 ==> self@.seed == r + 0x1_0000_0000_0000_0000,
    {
        proof {
            lemma_cast_to_signed(self.seed);
        }
        self.seed as i64
    }

    /// A uniform integer of 32 bits.
    pub fn randi(&mut self) -> (r: i64)
        ensures
            0 <= r < 0x1_0000_0000,
            r == old(self)@.word(1) as int % 0x1_0000_0000,
            final(self)@ == old(self)@.after(1),
            r == output(step(old(self)@.state)) as int % 0x1_0000_0000,
            final(self)@.state == step(old(self)@.state),
            final(self)@.seed == old(self)@.seed,
            old(self)@.wf() ==> final(self)@.wf(),
    {
        proof {
            reveal_with_fuel(nth_state, 2);
            lemma_stays_wf(self@, 1);
        }
        next_u32(&mut self.rng) as i64
    }

    /// A uniform integer of 53 bits. Divided by 2^53 it is a uniform floating-point
    /// number of at least 0 and below 1.
    pub fn randf_bits(&mut self) -> (r: u64)
        ensures
            r < fractions(),
            r == fraction_of(old(self)@.word(1)),
            final(self)@ == old(self)@.after(1),
            2048 * r <= output(step(old(self)@.state)) < 2048 * r + 2048,
            final(self)@.state == step(old(self)@.state),
            final(self)@.seed == old(self)@.seed,
            old(self)@.wf() ==> final(self)@.wf(),
    {
        proof {
            reveal_with_fuel(nth_state, 2);
            lemma_stays_wf(self@, 1);
        }
        fraction_bits(next_u64(&mut self.rng))
    }

    /// Two integers of 53 bits for a normally distributed number: divided by 2^53, the
    /// first is a uniform floating-point number that was moved away from zero, so that
    /// it has a logarithm, and the second is one of at least 0 and below 1.
    pub fn randfn_bits(&mut self) -> (r: (u64, u64))
        ensures
            2 <= r.0 < fractions(),
            r.1 < fractions(),
            r.0 == guarded(fraction_of(old(self)@.word(1))),
            r.1 == fraction_of(old(self)@.word(2)),
            final(self)@ == old(self)@.after(2),
            output(step(old(self)@.state)) >= 4096 ==> 2048 * r.0 <= output(
                step(old(self)@.state),
            ) < 2048 * r.0 + 2048,
            output(step(old(self)@.state)) < 4096 ==> 2048 * r.0 <= output(
                step(old(self)@.state),
            ) + 4096 < 2048 * r.0 + 2048,
            2048 * r.1 <= output(step(step(old(self)@.state))) < 2048 * r.1 + 2048,
            final(self)@.state == step(step(old(self)@.state)),
            final(self)@.seed == old(self)@.seed,
            old(self)@.wf() ==> final(self)@.wf(),
    {
        proof {
            lemma_stays_wf(self@, 2);
            lemma_nth_state_adds(self@.state, 1, 1);
        }
        let first: u64 = guard_fraction(self.randf_bits());
        let second: u64 = self.randf_bits();
        (first, second)
    }

    /// A uniform integer between two bounds, either of which may be the lower one, and
    /// both of which may come.
    pub fn randi_range(&mut self, from: i64, to: i64) -> (r: i64)
        ensures
            range_low(from, to) <= r < range_low(from, to) + range_size(from, to),
            from == to ==> *final(self) == *old(self),
            from != to ==> final(self)@.seed == old(self)@.seed && draws_below(
                range_size(from, to),
                old(self)@.state,
                final(self)@.state,
                r - range_low(from, to),
            ),
            from <= r <= to || to <= r <= from,
            from < to ==> exists|n: nat|
                {
                    &&& n >= 1
                    &&& final(self)@.state == #[trigger] nth_state(old(self)@.state, n)
                    &&& output(nth_state(old(self)@.state, n))
                        >= 0x1_0000_0000_0000_0000int % (to - from + 1)
                    &&& r == from + output(nth_state(old(self)@.state, n)) as int % (to - from + 1)
                    &&& forall|j: nat|
                        1 <= j < n ==> output(#[trigger] nth_state(old(self)@.state, j))
                            < 0x1_0000_0000_0000_0000int
                            % (to - from + 1)
                },
            to < from ==> exists|n: nat|
                {
                    &&& n >= 1
                    &&& final(self)@.state == #[trigger] nth_state(old(self)@.state, n)
                    &&& output(nth_state(old(self)@.state, n))
                        >= 0x1_0000_0000_0000_0000int % (from - to + 1)
                    &&& r == to + output(nth_state(old(self)@.state, n)) as int % (from - to + 1)
                    &&& forall|j: nat|
                        1 <= j < n ==> output(#[trigger] nth_state(old(self)@.state, j))
                            < 0x1_0000_0000_0000_0000int
                            % (from - to + 1)
                },
            final(self)@.seed == old(self)@.seed,
            old(self)@.wf() ==> final(self)@.wf(),
    {
        if from == to {
            return from;
        }
        let (lo, span): (i64, u64) = range_span(from, to);
        let ghost before = self@;
        // Between the bounds that lie furthest apart there are 2^64 integers, one for
        // every word.
        let offset: u64 = if span == u64::MAX {
            let w: u64 = next_u64(&mut self.rng);
            proof {
                reveal_with_fuel(nth_state, 2);
                lemma_small_mod(w as nat, words() as nat);
                assert(range_size(from, to) == words() && passed_over(words()) == 0);
                assert(first_at_least(before.state, passed_over(words()), 1));
            }
            w
        } else {
            bounded_u64(&mut self.rng, span + 1)
        };
        proof {
            let size = range_size(from, to);
            assert(draws_below(size, before.state, self@.state, offset as int));
            let n = choose|n: nat|
                {
                    &&& #[trigger] first_at_least(before.state, passed_over(size), n)
                    &&& self@.state == nth_state(before.state, n)
                    &&& offset == word(before.state, n) as int % size
                };
            lemma_stays_wf(before, n);
        }
        range_value(lo, offset)
    }

    /// Begins the pick of an index among `len` weights, in proportion to them. There is
    /// nothing to pick, and nothing is drawn, where there are no weights or their sum is
    /// zero or negative, which the caller tells.
    pub fn rand_weighted(&mut self, len: usize, sum_nonpositive: bool) -> (r: WeightedPick)
        requires
            len <= i64::MAX,
        ensures
            r.wf(),
            r == WeightedPick::begun(fraction_of(old(self)@.word(1)), len, sum_nonpositive),
            r is Done ==> *final(self) == *old(self),
            r is Walk ==> final(self)@ == old(self)@.after(1),
            len == 0 || sum_nonpositive ==> {
                &&& r == (WeightedPick::Done { index: -1i64 })
                &&& *final(self) == *old(self)
            },
            len > 0 && !sum_nonpositive ==> {
                &&& r is Walk && r->len == len && r->next == 0
                &&& 2048 * r->fraction <= output(step(old(self)@.state)) < 2048 * r->fraction + 2048
                &&& final(self)@.state == step(old(self)@.state)
            },
            final(self)@.seed == old(self)@.seed,
            old(self)@.wf() ==> final(self)@.wf(),
    {
        if len == 0 || sum_nonpositive {
            return WeightedPick::Done { index: -1 };
        }
        let fraction: u64 = self.randf_bits();
        WeightedPick::Walk { fraction, len, next: 0 }
    }
}

/// Casts of 64-bit integers keep the bits.
proof fn lemma_cast_to_unsigned(x: i64)
    ensures
        x as u64 == to_unsigned(x),
{
    if x < 0 {
        assert(x as u64 == x + 0x1_0000_0000_0000_0000) by (bit_vector)
            requires
                x < 0,
        ;
    }
}

/// Casts of 64-bit integers keep the bits.
proof fn lemma_cast_to_signed(x: u64)
    ensures
        x as i64 == to_signed(x),
{
    if x > i64::MAX {
        assert(x as i64 == x - 0x1_0000_0000_0000_0000) by (bit_vector)
            requires
                x > 0x7fff_ffff_ffff_ffff,
        ;
    }
}

/// A seed comes back as it was set, and what was read can be set again without change.
pub proof fn lemma_seed_round_trip(seed: i64, bits: u64)
    ensures
        to_signed(to_unsigned(seed)) == seed,
        to_unsigned(to_signed(bits)) == bits,
{
}

/// A fresh generator can be had again: to set the seed that it tells is to give it the
/// entropy value that it took.
pub proof fn lemma_fresh_generator_replays(e: u64)
    ensures
        Generator::seeded(to_unsigned(to_signed(Generator::seeded(e).seed))) == Generator::seeded(
            e,
        ),
{
    lemma_seed_round_trip(0, e);
}

/// Generators that took distinct entropy values tell distinct seeds, however close
/// together they were made.
pub proof fn lemma_fresh_seeds_differ(e: u64, f: u64)
    requires
        e != f,
    ensures
        to_signed(Generator::seeded(e).seed) != to_signed(Generator::seeded(f).seed),
{
    lemma_seed_round_trip(0, e);
    lemma_seed_round_trip(0, f);
}

/// Drawing keeps a generator on the stream of its seed, and its state odd.
pub proof fn lemma_stays_wf(g: Generator, n: nat)
    ensures
        g.wf() ==> g.after(n).wf(),
{
    if g.wf() {
        let m = choose|m: nat| g == #[trigger] Generator::seeded(g.seed).after(m);
        lemma_nth_state_adds(seeded_state(g.seed), m, n);
        lemma_nth_state_odd(g.state, n);
        let h = g.after(n);
        assert(h == Generator::seeded(h.seed).after(m + n));
    }
}

/// Runs are reproducible: the seed alone determines every word. After `n` words, the
/// `m`-th word from there on is the `n + m`-th of the seed.
pub proof fn lemma_seed_determines_words(seed: u64, n: nat, m: nat)
    ensures
        Generator::seeded(seed).after(n).word(m) == Generator::seeded(seed).word(n + m),
        Generator::seeded(seed).after(n).after(m) == Generator::seeded(seed).after(n + m),
{
    lemma_nth_state_adds(seeded_state(seed), n, m);
}

/// The order of the bounds of a range makes no difference.
pub proof fn lemma_range_ignores_order(from: i64, to: i64)
    ensures
        range_low(from, to) == range_low(to, from),
        range_size(from, to) == range_size(to, from),
{
}

/// A draw from a range always comes to an end, whatever the bounds: there is a generator
/// that it ends in and an integer between the bounds that it gives out.
pub proof fn lemma_range_draw_ends(g: Generator, from: i64, to: i64) -> (r: (Generator, i64))
    requires
        g.wf(),
        from != to,
    ensures
        r.0.wf(),
        r.0.seed == g.seed,
        range_low(from, to) <= r.1 < range_low(from, to) + range_size(from, to),
        draws_below(range_size(from, to), g.state, r.0.state, r.1 - range_low(from, to)),
{
    let size = range_size(from, to);
    let (after, offset) = lemma_draw_ends(size, g.state);
    let n = choose|n: nat|
        {
            &&& #[trigger] first_at_least(g.state, passed_over(size), n)
            &&& after == nth_state(g.state, n)
            &&& offset == word(g.state, n) as int % size
        };
    lemma_stays_wf(g, n);
    (g.after(n), (range_low(from, to) + offset) as i64)
}

/// An integer in a range has no bias: as many words stand for it as for any other.
pub proof fn lemma_range_is_unbiased(from: i64, to: i64, value: int)
    requires
        range_low(from, to) <= value < range_low(from, to) + range_size(from, to),
    ensures
        words_for(range_size(from, to), value - range_low(from, to)).finite(),
        words_for(range_size(from, to), value - range_low(from, to)).len() == words() / range_size(
            from,
            to,
        ),
{
    lemma_unbiased(range_size(from, to), value - range_low(from, to));
}

/// `randi` is uniform: no word is passed over, and as many words stand for each integer
/// of 32 bits.
pub proof fn lemma_randi_is_uniform(value: int)
    requires
        0 <= value < 0x1_0000_0000,
    ensures
        passed_over(0x1_0000_0000) == 0,
        words_for(0x1_0000_0000, value).finite(),
        words_for(0x1_0000_0000, value).len() == 0x1_0000_0000,
{
    lemma_unbiased(0x1_0000_0000, value);
}

/// `randf_bits` is uniform: as many words stand for each fraction.
pub proof fn lemma_fractions_are_uniform(fraction: u64)
    requires
        fraction < fractions(),
    ensures
        words_with_fraction(fraction).finite(),
        words_with_fraction(fraction).len() == 2048,
{
    let place = |i: int| (2048 * fraction + i) as u64;
    let places = set_int_range(0, 2048);
    lemma_int_range(0, 2048);
    assert forall|w: u64| #[trigger] words_with_fraction(fraction).contains(w) implies places.map(
        place,
    ).contains(w) by {
        let i = w as int % 2048;
        assert(places.contains(i) && place(i) == w);
    }
    assert(places.map(place) =~= words_with_fraction(fraction));
    lemma_map_size(places, words_with_fraction(fraction), place);
}

} // verus!

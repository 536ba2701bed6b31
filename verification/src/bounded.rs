//! Draws below a bound, without modulo bias.
//!
//! The 2^64 words do not split evenly into `size` classes of remainders unless
//! `size` divides 2^64. The lowest 2^64 mod `size` words are therefore passed over,
//! and the next word is drawn instead: the words that are left do split evenly.
use rand_pcg::Pcg64Mcg;
use vstd::arithmetic::div_mod::{
    lemma_fundamental_div_mod, lemma_fundamental_div_mod_converse, lemma_mod_bound,
    lemma_mod_sub_multiples_vanish,
};
use vstd::prelude::*;
use vstd::relations::injective_on;
use vstd::set_lib::{lemma_int_range, lemma_map_size, set_int_range};

use crate::orbit::lemma_gives_out_word;
use crate::pcg::{lemma_nth_state_adds, next_u64, nth_state, output, pcg_state, word, words};

verus! {

/// How many words, the lowest, are passed over in a draw among `size` values. It is
/// also the lowest word that is taken.
pub open spec fn passed_over(size: int) -> int {
    words() % size
}

/// Whether the `n`-th word of a generator in `state` is its first that is `least` or
/// higher.
pub open spec fn first_at_least(state: u128, least: int, n: nat) -> bool {
    &&& n >= 1
    &&& word(state, n) >= least
    &&& forall|j: nat| 1 <= j < n ==> #[trigger] word(state, j) < least
}

/// Whether a draw among the values below `size` takes a generator from the state
/// `before` to the state `after` and gives out `value`: the words that are passed over
/// are drawn and dropped, and the first other word is reduced modulo `size`.
pub open spec fn draws_below(size: int, before: u128, after: u128, value: int) -> bool {
    exists|n: nat|
        {
            &&& #[trigger] first_at_least(before, passed_over(size), n)
            &&& after == nth_state(before, n)
            &&& value == word(before, n) as int % size
        }
}

/// The words that a draw among the values below `size` takes for `value`.
pub open spec fn words_for(size: int, value: int) -> Set<u64> {
    Set::new(|w: u64| passed_over(size) <= w && w as int % size == value)
}

/// What a draw below `bound` makes of `word`: nothing where the word is passed over, and
/// else its remainder.
pub fn accept_word(word: u64, bound: u64) -> (r: Option<u64>)
    requires
        bound > 0,
    ensures
        r == (if word < passed_over(bound as int) {
            None
        } else {
            Some((word as int % bound as int) as u64)
        }),
        r is None <==> word < 0x1_0000_0000_0000_0000int % (bound as int),
        r matches Some(v) ==> v < bound && v == word as int % bound as int,
{
    let threshold: u64 = (u64::MAX - bound + 1) % bound;
    proof {
        lemma_mod_sub_multiples_vanish(words(), bound as int);
        assert(threshold == passed_over(bound as int));
    }
    if word >= threshold {
        Some(word % bound)
    } else {
        None
    }
}

/// A uniform integer below `bound`, or 0 with nothing drawn where `bound` is 0.
pub fn bounded_u64(rng: &mut Pcg64Mcg, bound: u64) -> (r: u64)
    ensures
        bound == 0 ==> r == 0 && *final(rng) == *old(rng),
        bound > 0 ==> r < bound && draws_below(
            bound as int,
            pcg_state(*old(rng)),
            pcg_state(*final(rng)),
            r as int,
        ),
        bound > 0 ==> exists|n: nat|
            {
                &&& n >= 1
                &&& pcg_state(*final(rng)) == #[trigger] nth_state(pcg_state(*old(rng)), n)
                &&& output(nth_state(pcg_state(*old(rng)), n))
                    >= 0x1_0000_0000_0000_0000int % (bound as int)
                &&& r == output(nth_state(pcg_state(*old(rng)), n)) as int % bound as int
                &&& forall|j: nat|
                    1 <= j < n ==> output(#[trigger] nth_state(pcg_state(*old(rng)), j))
                        < 0x1_0000_0000_0000_0000int
                        % (bound as int)
            },
{
    if bound == 0 {
        return 0;
    }
    let ghost before = pcg_state(*rng);
    let ghost least = passed_over(bound as int);
    let mut w: u64 = next_u64(rng);
    let ghost mut drawn: nat = 1;
    let ghost mut limit: nat = 1;
    proof {
        reveal_with_fuel(nth_state, 2);
        lemma_passed_over_bounds(bound as int);
        let next = lemma_gives_out_word(pcg_state(*rng), least as u64);
        lemma_nth_state_adds(before, 1, next);
        limit = 1 + next;
    }
    loop
        invariant
            bound > 0,
            before == pcg_state(*old(rng)),
            least == passed_over(bound as int),
            1 <= drawn <= limit,
            word(before, limit) >= least,
            pcg_state(*rng) == nth_state(before, drawn),
            w == word(before, drawn),
            forall|j: nat| 1 <= j < drawn ==> #[trigger] word(before, j) < least,
        decreases limit - drawn,
    {
        if let Some(value) = accept_word(w, bound) {
            proof {
                lemma_mod_bound(w as int, bound as int);
                assert(first_at_least(before, least, drawn));
                assert forall|j: nat| 1 <= j < drawn implies output(
                    #[trigger] nth_state(before, j),
                ) < least by {
                    assert(word(before, j) < least);
                }
            }
            return value;
        }
        w = next_u64(rng);
        proof {
            drawn = drawn + 1;
        }
    }
}

/// Fewer words are passed over than there are values, and fewer than half of all.
pub proof fn lemma_passed_over_bounds(size: int)
    requires
        1 <= size <= words(),
    ensures
        0 <= passed_over(size) < size,
        2 * passed_over(size) < words(),
{
    lemma_mod_bound(words(), size);
    lemma_fundamental_div_mod(words(), size);
    let (q, t) = (words() / size, words() % size);
    assert(q >= 1 ==> size * q >= size) by (nonlinear_arith)
        requires
            size >= 1,
    ;
    assert(q >= 1) by (nonlinear_arith)
        requires
            words() == size * q + t,
            t < size,
            size <= words(),
            size >= 1,
    ;
}

/// As few words are passed over as possible: it is the least number of words whose
/// removal leaves a multiple of `size`.
pub proof fn lemma_passed_over_is_least(size: int, t: int)
    requires
        1 <= size <= words(),
        0 <= t <= words(),
    ensures
        (words() - passed_over(size)) % size == 0,
        (words() - t) % size == 0 ==> passed_over(size) <= t,
{
    lemma_passed_over_bounds(size);
    lemma_fundamental_div_mod(words(), size);
    let q = words() / size;
    lemma_fundamental_div_mod_converse(size * q, size, q, 0);
    if (words() - t) % size == 0 && t < passed_over(size) {
        let k = (words() - t) / size;
        lemma_fundamental_div_mod(words() - t, size);
        assert(words() == k * size + t) by (nonlinear_arith)
            requires
                words() - t == size * k,
        ;
        lemma_fundamental_div_mod_converse(words(), size, k, t);
    }
}

/// No modulo bias: every value below `size` is taken for the same number of words.
pub proof fn lemma_unbiased(size: int, value: int)
    requires
        1 <= size <= words(),
        0 <= value < size,
    ensures
        words_for(size, value).finite(),
        words_for(size, value).len() == words() / size,
{
    lemma_passed_over_bounds(size);
    lemma_fundamental_div_mod(words(), size);
    let (count, t) = (words() / size, passed_over(size));
    let first = if value >= t {
        value
    } else {
        value + size
    };
    let place = |i: int| (first + size * i) as u64;
    let places = set_int_range(0, count);
    assert(count >= 0) by (nonlinear_arith)
        requires
            words() == size * count + t,
            0 <= t < size,
            words() >= 0,
    ;
    lemma_int_range(0, count);
    assert forall|i: int| places.contains(i) implies {
        &&& #[trigger] place(i) == first + size * i
        &&& words_for(size, value).contains(place(i))
    } by {
        assert(size * i + size <= size * count) by (nonlinear_arith)
            requires
                0 <= i < count,
                size >= 1,
        ;
        assert(0 <= size * i) by (nonlinear_arith)
            requires
                0 <= i,
                size >= 1,
        ;
        let k = if value >= t {
            i
        } else {
            i + 1
        };
        assert(first + size * i == k * size + value) by (nonlinear_arith)
            requires
                first + size * i == value + size * i && k == i || first + size * i == value + size
                    + size * i && k == i + 1,
        ;
        lemma_fundamental_div_mod_converse(first + size * i, size, k, value);
    }
    assert(injective_on(place, places)) by {
        assert forall|i: int, j: int|
            places.contains(i) && places.contains(j) && #[trigger] place(i) == #[trigger] place(
                j,
            ) implies i == j by {
            assert(i == j) by (nonlinear_arith)
                requires
                    size * i == size * j,
                    size >= 1,
            ;
        }
    }
    assert forall|w: u64| #[trigger] words_for(size, value).contains(w) implies places.map(
        place,
    ).contains(w) by {
        lemma_fundamental_div_mod(w as int, size);
        let k = w as int / size;
        let i = if value >= t {
            k
        } else {
            k - 1
        };
        assert(size * (k - 1) == size * k - size) by (nonlinear_arith);
        assert(0 <= i < count) by (nonlinear_arith)
            requires
                w == size * k + value,
                words() == size * count + t,
                t <= w < words(),
                0 <= value < size,
                0 <= t < size,
                value >= t && i == k || value < t && i == k - 1,
        ;
        assert(places.contains(i) && place(i) == w);
    }
    assert(places.map(place) =~= words_for(size, value));
    lemma_map_size(places, words_for(size, value), place);
}

/// A draw always comes to an end: from an odd state, which is what every generator
/// holds, there is a state that the draw ends in and a value that it gives out.
pub proof fn lemma_draw_ends(size: int, before: u128) -> (r: (u128, int))
    requires
        1 <= size <= words(),
        before % 2 == 1,
    ensures
        draws_below(size, before, r.0, r.1),
        0 <= r.1 < size,
{
    lemma_passed_over_bounds(size);
    let least = passed_over(size);
    let n = lemma_gives_out_word(before, least as u64);
    let first = lemma_first_at_least(before, least, n);
    lemma_mod_bound(word(before, first) as int, size);
    (nth_state(before, first), word(before, first) as int % size)
}

/// Where some word is `least` or higher, one of them is the first.
proof fn lemma_first_at_least(state: u128, least: int, n: nat) -> (first: nat)
    requires
        n >= 1,
        word(state, n) >= least,
    ensures
        first_at_least(state, least, first),
    decreases n,
{
    if exists|j: nat| 1 <= j < n && #[trigger] word(state, j) >= least {
        let j = choose|j: nat| 1 <= j < n && #[trigger] word(state, j) >= least;
        lemma_first_at_least(state, least, j)
    } else {
        n
    }
}

/// A draw has one outcome: the state before it determines the state after it and the
/// value.
pub proof fn lemma_draw_is_determined(
    size: int,
    before: u128,
    after: u128,
    value: int,
    other_after: u128,
    other_value: int,
)
    requires
        draws_below(size, before, after, value),
        draws_below(size, before, other_after, other_value),
    ensures
        after == other_after,
        value == other_value,
{
    let least = passed_over(size);
    let n = choose|n: nat|
        {
            &&& #[trigger] first_at_least(before, least, n)
            &&& after == nth_state(before, n)
            &&& value == word(before, n) as int % size
        };
    let m = choose|m: nat|
        {
            &&& #[trigger] first_at_least(before, least, m)
            &&& other_after == nth_state(before, m)
            &&& other_value == word(before, m) as int % size
        };
    assert(n == m) by {
        if n < m {
            assert(word(before, n) < least);
        }
        if m < n {
            assert(word(before, m) < least);
        }
    }
}

} // verus!

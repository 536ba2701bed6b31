//! Where seeds come from: the operating system, or else a mix of the clock, a counter
//! and an address.
use vstd::prelude::*;

use crate::splitmix::{
    lemma_factor_undone, lemma_mixing_is_injective, mixed, splitmix64, GAMMA_INVERSE, GOLDEN_GAMMA,
};

verus! {

/// The error type of `getrandom`, opaque to the proofs.
#[verifier::external_type_specification]
#[verifier::external_body]
pub struct ExGetrandomError(getrandom::Error);

/// Calls `getrandom::getrandom`, which fills a buffer with random bytes of the operating
/// system or fails, and hands the bytes back. Nothing can be promised of either outcome:
/// which bytes come, and whether any come, is up to the operating system.
#[verifier::external_body]
pub(crate) fn os_bytes() -> (r: Result<[u8; 8], getrandom::Error>) {
    let mut dest: [u8; 8] = [0u8; 8];
    getrandom::getrandom(&mut dest)?;
    Ok(dest)
}

/// Whether a read of the operating system's random bytes can have had this outcome: the
/// bytes that it gave, or `None` where it failed.
pub closed spec fn os_gave(os: Option<[u8; 8]>) -> bool {
    exists|r: Result<[u8; 8], getrandom::Error>|
        #[trigger] call_ensures(os_bytes, (), r) && os == r.ok()
}

/// What a seed is made of where the operating system gives no random bytes.
pub struct FallbackEntropy {
    /// Nanoseconds since the Unix epoch, or `None` for a clock that is set before it.
    pub nanos: Option<u128>,
    /// How many times the fallback was used before in this process.
    pub counter: u64,
    /// An address on the stack.
    pub stack_addr: u64,
}

/// The integer whose little-endian encoding is `bytes`.
pub open spec fn le_value(bytes: [u8; 8]) -> int {
    bytes[0] + 0x100 * bytes[1] + 0x1_0000 * bytes[2] + 0x100_0000 * bytes[3] + 0x1_0000_0000
        * bytes[4] + 0x100_0000_0000 * bytes[5] + 0x1_0000_0000_0000 * bytes[6]
        + 0x100_0000_0000_0000 * bytes[7]
}

/// The lowest 64 bits of the time, or 0 where there is none.
pub open spec fn low_nanos(nanos: Option<u128>) -> u64 {
    match nanos {
        Some(n) => (n % 0x1_0000_0000_0000_0000) as u64,
        None => 0,
    }
}

/// The seed that is made of `fallback`: the time, the counter spread over the whole
/// word and the address are combined, and the result is mixed.
pub open spec fn fallback_seed(fallback: FallbackEntropy) -> u64 {
    mixed(
        low_nanos(fallback.nanos) ^ fallback.counter.wrapping_mul(GOLDEN_GAMMA)
            ^ fallback.stack_addr,
    )
}

/// Whether `seed` is what comes of the bytes `os` of the operating system, where there
/// are any, and else of what a call of `fallback` returns.
pub open spec fn seed_comes_from<F: FnOnce() -> FallbackEntropy>(
    os: Option<[u8; 8]>,
    fallback: F,
    seed: u64,
) -> bool {
    match os {
        Some(bytes) => seed == le_value(bytes),
        None => exists|entropy: FallbackEntropy|
            call_ensures(fallback, (), entropy) && seed == #[trigger] fallback_seed(entropy),
    }
}

/// Reads `bytes` as a little-endian integer.
fn u64_from_le(bytes: [u8; 8]) -> (r: u64)
    ensures
        r == le_value(bytes),
        bytes[0] == r % 0x100,
        bytes[1] == r / 0x100 % 0x100,
        bytes[2] == r / 0x1_0000 % 0x100,
        bytes[3] == r / 0x100_0000 % 0x100,
        bytes[4] == r / 0x1_0000_0000 % 0x100,
        bytes[5] == r / 0x100_0000_0000 % 0x100,
        bytes[6] == r / 0x1_0000_0000_0000 % 0x100,
        bytes[7] == r / 0x100_0000_0000_0000 % 0x100,
{
    let low: u64 = bytes[0] as u64 + 0x100 * bytes[1] as u64 + 0x1_0000 * bytes[2] as u64
        + 0x100_0000 * bytes[3] as u64;
    let high: u64 = bytes[4] as u64 + 0x100 * bytes[5] as u64 + 0x1_0000 * bytes[6] as u64
        + 0x100_0000 * bytes[7] as u64;
    let r: u64 = low + 0x1_0000_0000 * high;
    proof {
        lemma_digits(bytes, r);
    }
    r
}

impl FallbackEntropy {
    /// The seed that these values are mixed into.
    pub fn seed(&self) -> (r: u64)
        ensures
            r == fallback_seed(*self),
            self.nanos matches Some(n) ==> r == mixed(
                (n % 0x1_0000_0000_0000_0000) as u64 ^ self.counter.wrapping_mul(
                    0x9E37_79B9_7F4A_7C15,
                ) ^ self.stack_addr,
            ),
            self.nanos is None ==> r == mixed(
                0u64 ^ self.counter.wrapping_mul(0x9E37_79B9_7F4A_7C15) ^ self.stack_addr,
            ),
    {
        let nanos: u64 = match self.nanos {
            Some(n) => {
                assert(n as u64 == n % 0x1_0000_0000_0000_0000u128) by (bit_vector);
                n as u64
            },
            None => 0,
        };
        splitmix64(nanos ^ self.counter.wrapping_mul(GOLDEN_GAMMA) ^ self.stack_addr)
    }
}

/// The seed that comes of the bytes `os` of the operating system. Only where there are
/// none is `fallback` called, and the seed made of what it returns.
pub fn seed_from_sources<F: FnOnce() -> FallbackEntropy>(
    os: Option<[u8; 8]>,
    fallback: F,
) -> (seed: u64)
    requires
        os is None ==> call_requires(fallback, ()),
    ensures
        seed_comes_from(os, fallback, seed),
        os matches Some(bytes) ==> {
            &&& bytes[0] == seed % 0x100
            &&& bytes[1] == seed / 0x100 % 0x100
            &&& bytes[2] == seed / 0x1_0000 % 0x100
            &&& bytes[3] == seed / 0x100_0000 % 0x100
            &&& bytes[4] == seed / 0x1_0000_0000 % 0x100
            &&& bytes[5] == seed / 0x100_0000_0000 % 0x100
            &&& bytes[6] == seed / 0x1_0000_0000_0000 % 0x100
            &&& bytes[7] == seed / 0x100_0000_0000_0000 % 0x100
        },
{
    match os {
        Some(bytes) => u64_from_le(bytes),
        None => {
            let entropy = fallback();
            entropy.seed()
        },
    }
}

/// A fresh seed from the operating system, or from `fallback` where the operating
/// system fails. Which bytes the operating system gives, and whether it fails, is left
/// open; the seed is what `seed_from_sources` makes of the bytes that were read.
pub fn os_entropy_u64<F: FnOnce() -> FallbackEntropy>(fallback: F) -> (seed: u64)
    requires
        call_requires(fallback, ()),
    ensures
        exists|os: Option<[u8; 8]>|
            #[trigger] seed_comes_from(os, fallback, seed) && os_gave(os),
{
    let read = os_bytes();
    seed_from_sources(read.ok(), fallback)
}

/// An integer whose little-endian encoding is `bytes` has them for its bytes.
pub proof fn lemma_digits(bytes: [u8; 8], seed: u64)
    requires
        seed == le_value(bytes),
    ensures
        bytes[0] == seed % 0x100,
        bytes[1] == seed / 0x100 % 0x100,
        bytes[2] == seed / 0x1_0000 % 0x100,
        bytes[3] == seed / 0x100_0000 % 0x100,
        bytes[4] == seed / 0x1_0000_0000 % 0x100,
        bytes[5] == seed / 0x100_0000_0000 % 0x100,
        bytes[6] == seed / 0x1_0000_0000_0000 % 0x100,
        bytes[7] == seed / 0x100_0000_0000_0000 % 0x100,
{
    let t7 = bytes[7] as int;
    let t6 = bytes[6] + 0x100 * t7;
    let t5 = bytes[5] + 0x100 * t6;
    let t4 = bytes[4] + 0x100 * t5;
    let t3 = bytes[3] + 0x100 * t4;
    let t2 = bytes[2] + 0x100 * t3;
    let t1 = bytes[1] + 0x100 * t2;
    assert(seed == bytes[0] + 0x100 * t1);
    assert(seed / 0x100 == t1);
    assert(seed / 0x1_0000 == t2);
    assert(seed / 0x100_0000 == t3);
    assert(seed / 0x1_0000_0000 == t4);
    assert(seed / 0x100_0000_0000 == t5);
    assert(seed / 0x1_0000_0000_0000 == t6);
    assert(seed / 0x100_0000_0000_0000 == t7);
}

/// What the operating system gave is what a read of it returned.
pub(crate) proof fn lemma_os_gave(os: Option<[u8; 8]>)
    requires
        os_gave(os),
    ensures
        exists|read: Result<[u8; 8], getrandom::Error>|
            {
                &&& #[trigger] call_ensures(os_bytes, (), read)
                &&& read matches Ok(bytes) ==> os == Some(bytes)
                &&& read is Err ==> os is None
            },
{
    let read = choose|r: Result<[u8; 8], getrandom::Error>|
        #[trigger] call_ensures(os_bytes, (), r) && os == r.ok();
    assert(call_ensures(os_bytes, (), read));
}

/// No random bit is lost: distinct bytes of the operating system are distinct seeds.
pub proof fn lemma_le_value_is_injective(a: [u8; 8], b: [u8; 8])
    requires
        a != b,
    ensures
        0 <= le_value(a) <= u64::MAX,
        le_value(a) != le_value(b),
{
    if le_value(a) == le_value(b) {
        let (a7, b7) = (a[7] as int, b[7] as int);
        let (a6, b6) = (a[6] + 0x100 * a7, b[6] + 0x100 * b7);
        let (a5, b5) = (a[5] + 0x100 * a6, b[5] + 0x100 * b6);
        let (a4, b4) = (a[4] + 0x100 * a5, b[4] + 0x100 * b5);
        let (a3, b3) = (a[3] + 0x100 * a4, b[3] + 0x100 * b4);
        let (a2, b2) = (a[2] + 0x100 * a3, b[2] + 0x100 * b3);
        let (a1, b1) = (a[1] + 0x100 * a2, b[1] + 0x100 * b2);
        lemma_lowest_digit(a[0], a1, b[0], b1);
        lemma_lowest_digit(a[1], a2, b[1], b2);
        lemma_lowest_digit(a[2], a3, b[2], b3);
        lemma_lowest_digit(a[3], a4, b[3], b4);
        lemma_lowest_digit(a[4], a5, b[4], b5);
        lemma_lowest_digit(a[5], a6, b[5], b6);
        lemma_lowest_digit(a[6], a7, b[6], b7);
        assert(a =~= b);
    }
}

/// The lowest digit to base 256 of an integer, and the rest of it, are determined.
proof fn lemma_lowest_digit(a: u8, a_rest: int, b: u8, b_rest: int)
    requires
        a + 0x100 * a_rest == b + 0x100 * b_rest,
    ensures
        a == b,
        a_rest == b_rest,
{
}

/// Fallback seeds of one process do not repeat while its clock stands still: with the
/// same time and address, distinct counters make distinct seeds.
pub proof fn lemma_counter_separates_seeds(a: FallbackEntropy, b: FallbackEntropy)
    requires
        a.nanos == b.nanos,
        a.stack_addr == b.stack_addr,
        a.counter != b.counter,
    ensures
        fallback_seed(a) != fallback_seed(b),
{
    let nanos: u64 = low_nanos(a.nanos);
    let addr: u64 = a.stack_addr;
    let x: u64 = a.counter.wrapping_mul(GOLDEN_GAMMA);
    let y: u64 = b.counter.wrapping_mul(GOLDEN_GAMMA);
    lemma_factor_undone(a.counter, GOLDEN_GAMMA, GAMMA_INVERSE);
    lemma_factor_undone(b.counter, GOLDEN_GAMMA, GAMMA_INVERSE);
    assert(nanos ^ x ^ addr != nanos ^ y ^ addr) by (bit_vector)
        requires
            x != y,
    ;
    lemma_mixing_is_injective(nanos ^ x ^ addr, nanos ^ y ^ addr);
}

} // verus!

//! Random numbers that depend on nothing but a seed.

use vstd::prelude::*;

verus! {

/// The seed after one draw.
#[verifier::opaque]
pub open spec fn next_seed(seed: u64) -> u64 {
    seed.wrapping_add(0x9E37_79B9_7F4A_7C15)
}

/// The 32 bits that a seed yields: the low half of the SplitMix64 output.
#[verifier::opaque]
pub open spec fn bits_of(seed: u64) -> u32 {
    let a = next_seed(seed);
    let b = (a ^ (a >> 30)).wrapping_mul(0xBF58_476D_1CE4_E5B9);
    let c = (b ^ (b >> 27)).wrapping_mul(0x94D0_49BB_1331_11EB);
    (c ^ (c >> 31)) as u32
}

/// Draws 32 random bits.
pub fn next_bits(seed: &mut u64) -> (r: u32)
    ensures
        *final(seed) == next_seed(*old(seed)),
        r == bits_of(*old(seed)),
{
    proof {
        reveal(next_seed);
        reveal(bits_of);
    }
    let a: u64 = seed.wrapping_add(0x9E37_79B9_7F4A_7C15);
    *seed = a;
    let b: u64 = (a ^ (a >> 30)).wrapping_mul(0xBF58_476D_1CE4_E5B9);
    let c: u64 = (b ^ (b >> 27)).wrapping_mul(0x94D0_49BB_1331_11EB);
    #[verifier::truncate]
    let r: u32 = (c ^ (c >> 31)) as u32;
    r
}

/// The seed after `n` draws.
#[verifier::opaque]
pub open spec fn seed_after(seed: u64, n: nat) -> u64
    decreases n,
{
    if n == 0 {
        seed
    } else {
        next_seed(seed_after(seed, (n - 1) as nat))
    }
}

pub proof fn lemma_two_draws(seed: u64, k: nat)
    ensures
        seed_after(seed, 2 * k + 1) == next_seed(seed_after(seed, 2 * k)),
        seed_after(seed, 2 * k + 2) == next_seed(next_seed(seed_after(seed, 2 * k))),
        seed_after(seed, 2 * (k + 1)) == seed_after(seed, 2 * k + 2),
        seed_after(seed, 0) == seed,
{
    reveal(seed_after);
    assert(2 * k + 2 == 2 * (k + 1));
}

/// Drawing first some and then more is drawing all of them, and two different
/// seeds stay different however much is drawn from both.
pub proof fn law_draws_add_up(seed: u64, other: u64, a: nat, b: nat)
    ensures
        seed_after(seed, a + b) == seed_after(seed_after(seed, a), b),
        seed != other ==> seed_after(seed, b) != seed_after(other, b),
        seed_after(seed, 0) == seed,
    decreases b,
{
    reveal(seed_after);
    reveal(next_seed);
    if b > 0 {
        law_draws_add_up(seed, other, a, (b - 1) as nat);
        assert(a + b - 1 == a + (b - 1));
        assert(seed_after(seed, a + b) == next_seed(seed_after(seed, (a + b - 1) as nat)));
    }
}

/// A draw moves the seed on by the golden ratio of 64 bits, around the end of
/// the range where need be; so the seed comes back to where it was only after
/// all the others.
pub proof fn law_draws_move_the_seed_evenly(seed: u64)
    ensures
        seed <= 7046029254386353130 ==> next_seed(seed) == seed + 11400714819323198485,
        seed > 7046029254386353130 ==> next_seed(seed) == seed - 7046029254386353131,
{
    reveal(next_seed);
}

/// The bits drawn are the lower half of the moved seed after two rounds, each
/// of which folds the upper bits into the lower ones and multiplies, and a last
/// fold.
pub proof fn law_bits_are_mixed(seed: u64, first: u64, second: u64)
    requires
        first == (next_seed(seed) ^ (next_seed(seed) >> 30)).wrapping_mul(13787848793156543929),
        second == (first ^ (first >> 27)).wrapping_mul(10723151780598845931),
    ensures
        bits_of(seed) as u64 == (second ^ (second >> 31)) & 0xffff_ffff,
{
    reveal(bits_of);
    let last = second ^ (second >> 31);
    assert(last as u32 == last & 0xffff_ffff) by (bit_vector);
}

} // verus!

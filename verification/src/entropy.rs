//! The random words that drive probes and endpoint sampling.
//!
//! A generator is modelled by the 32-bit words that it is going to produce.
//! Every draw takes words from the front of that stream and leaves the rest.

use rand::rngs::StdRng;
use rand::{Rng, RngExt, SeedableRng};
use vstd::prelude::*;

verus! {

/// Declares the generator `rand::rngs::StdRng`, a value that is carried
/// through and looked into by its methods alone.
#[verifier::external_type_specification]
#[verifier::external_body]
pub struct ExStdRng(StdRng);

/// The words that a generator holds: those it is going to produce, by their
/// place from now on.
pub uninterp spec fn upcoming(rng: StdRng) -> Map<nat, u32>;

/// The words that a generator seeded with one number produces.
pub uninterp spec fn seeded_words(seed: u64) -> Map<nat, u32>;

/// The words that are left after the first `n`.
pub open spec fn dropped(words: Map<nat, u32>, n: nat) -> Map<nat, u32> {
    Map::new(|i: nat| words.dom().contains(i + n), |i: nat| words[i + n])
}

/// The 64-bit number made of the first two words, the first one lowest.
pub open spec fn wide_word(words: Map<nat, u32>) -> u64 {
    (words[0] + 0x1_0000_0000 * words[1]) as u64
}

/// The index below a bound that a draw from `size` values stands for, and
/// whether a second draw is looked at. The first one is scaled to the bound. A
/// remainder that is close to the next index takes the second one, scaled too,
/// and moves on to that index where the two add up to `size`.
pub open spec fn scaled_draw(first: nat, second: nat, bound: nat, size: nat) -> (nat, bool) {
    let low = (first * bound) % size;
    let again = low > size - bound;
    let carry = again && low + (second * bound) / size >= size;
    ((first * bound) / size + if carry { 1nat } else { 0nat }, again)
}

/// The index below a bound that is sampled from upcoming words, and how many
/// words that takes. Bounds of up to 32 bits are drawn from single words, and
/// larger ones from pairs of words.
pub open spec fn sampled(words: Map<nat, u32>, bound: nat) -> (nat, nat) {
    if bound <= u32::MAX {
        let (index, again) = scaled_draw(
            words[0] as nat,
            words[1] as nat,
            bound,
            0x1_0000_0000,
        );
        (index, if again { 2 } else { 1 })
    } else {
        let (index, again) = scaled_draw(
            wide_word(words) as nat,
            wide_word(dropped(words, 2)) as nat,
            bound,
            0x1_0000_0000_0000_0000,
        );
        (index, if again { 4 } else { 2 })
    }
}

/// A draw that is scaled to a bound stays below it: next to the last index no
/// remainder is large enough to move on.
proof fn lemma_scaled_draw(first: nat, second: nat, bound: nat, size: nat)
    requires
        first < size,
        0 < bound <= size,
    ensures
        scaled_draw(first, second, bound, size).0 < bound,
{
    let product = (first * bound) as int;
    let high = product / (size as int);
    let low = product % (size as int);
    vstd::arithmetic::div_mod::lemma_fundamental_div_mod(product, size as int);
    assert(product + bound <= size * bound) by (nonlinear_arith)
        requires
            product == first * bound,
            first + 1 <= size,
    ;
    assert(high < bound) by (nonlinear_arith)
        requires
            size * high <= product,
            product < size * bound,
            size > 0,
    ;
    if high == bound - 1 {
        assert(size * high == size * bound - size) by (nonlinear_arith)
            requires
                high == bound - 1,
        ;
    }
}

/// An index that is sampled is below the bound.
pub proof fn lemma_sampled(words: Map<nat, u32>, bound: nat)
    requires
        0 < bound <= u64::MAX,
    ensures
        sampled(words, bound).0 < bound,
{
    if bound <= u32::MAX {
        lemma_scaled_draw(words[0] as nat, words[1] as nat, bound, 0x1_0000_0000);
    } else {
        lemma_scaled_draw(
            wide_word(words) as nat,
            wide_word(dropped(words, 2)) as nat,
            bound,
            0x1_0000_0000_0000_0000,
        );
    }
}

/// Calls `StdRng::seed_from_u64`. The words of the new generator depend on the
/// seed alone: the seed is expanded by a fixed recurrence into the key of a
/// fixed stream cipher.
#[verifier::external_body]
pub(crate) fn seeded(seed: u64) -> (r: StdRng)
    ensures
        upcoming(r) == seeded_words(seed),
{
    StdRng::seed_from_u64(seed)
}

/// Calls `rand::make_rng`, which takes its seed from the system, and panics
/// only where the system has no entropy to give. Nothing is claimed of the words
/// of the new generator.
#[verifier::external_body]
pub(crate) fn unpredictable() -> StdRng {
    rand::make_rng()
}

/// Calls `Rng::next_u64` of `StdRng`. The result is made of the next two
/// words, the first one lowest, and these two words are used up.
#[verifier::external_body]
pub(crate) fn next_wide(rng: &mut StdRng) -> (r: u64)
    ensures
        r == wide_word(upcoming(*old(rng))),
        upcoming(*final(rng)) == dropped(upcoming(*old(rng)), 2),
{
    rng.next_u64()
}

/// Calls `RngExt::random_range` of `StdRng` with the range from zero to
/// `bound`. The index and the number of words that are used up are those of
/// [`sampled`]: the sampler of `rand` takes 32-bit draws where the bound fits in
/// 32 bits, and 64-bit draws otherwise, and without the feature `unbiased` looks
/// at no more than two of them.
#[verifier::external_body]
fn range_index(rng: &mut StdRng, bound: usize) -> (r: usize)
    requires
        bound > 0,
    ensures
        r == sampled(upcoming(*old(rng)), bound as nat).0,
        upcoming(*final(rng)) == dropped(
            upcoming(*old(rng)),
            sampled(upcoming(*old(rng)), bound as nat).1,
        ),
{
    rng.random_range(0..bound)
}

/// Draws an index below a bound.
pub(crate) fn next_index(rng: &mut StdRng, bound: usize) -> (r: usize)
    requires
        bound > 0,
    ensures
        r < bound,
        r == sampled(upcoming(*old(rng)), bound as nat).0,
        upcoming(*final(rng)) == dropped(
            upcoming(*old(rng)),
            sampled(upcoming(*old(rng)), bound as nat).1,
        ),
{
    proof {
        lemma_sampled(upcoming(*rng), bound as nat);
    }
    range_index(rng, bound)
}

/// Calls `RngExt::random_range` of the generator that `rand::rng` keeps for
/// the calling thread. The system seeds it, so nothing but the bound is claimed
/// of the index; the call panics only where the system has no entropy to give.
#[verifier::external_body]
pub(crate) fn thread_index(bound: usize) -> (r: usize)
    requires
        bound > 0,
    ensures
        r < bound,
{
    rand::rng().random_range(0..bound)
}

} // verus!

//! The ChaCha generator of the `rand` crate, as far as the engine calls it.
//!
//! A generator is modelled by the 32-bit words that it has yet to hand out.

use rand::{ChaChaRng, Rng, SeedableRng};
use vstd::prelude::*;

verus! {

/// Makes `rand::ChaChaRng` known; its state stays opaque.
#[verifier::external_type_specification]
#[verifier::external_body]
pub struct ExChaChaRng(ChaChaRng);

/// What the generator holds: the words it will hand out, the next one at 0.
pub uninterp spec fn words_ahead(random: ChaChaRng) -> Map<nat, u32>;

/// The words that `ChaChaRng::from_seed` makes of a key of eight words.
pub uninterp spec fn seeded_words(key: Seq<u32>) -> Map<nat, u32>;

/// The eight words of a seed that count: those past the eighth are left out, those
/// that are missing are zero.
pub open spec fn seed_key(seed: Seq<u32>) -> Seq<u32> {
    Seq::new(
        8,
        |i: int|
            if i < seed.len() {
                seed[i]
            } else {
                0u32
            },
    )
}

/// What is left of `words` once the first `n` have been handed out.
pub open spec fn words_from(words: Map<nat, u32>, n: nat) -> Map<nat, u32> {
    Map::new(|k: nat| words.dom().contains(k + n), |k: nat| words[k + n])
}

/// The number made of the next two words, the first of them being its upper half.
pub open spec fn leading_u64(words: Map<nat, u32>) -> u64 {
    (words[0] * 0x1_0000_0000 + words[1]) as u64
}

/// The words of the generator that is split off from one with `words` ahead: it is
/// seeded with the next eight of them.
pub open spec fn split_words(words: Map<nat, u32>) -> Map<nat, u32> {
    seeded_words(Seq::new(8, |i: int| words[i as nat]))
}

/// Calls `<ChaChaRng as SeedableRng<&[u32]>>::from_seed`. The generator is fixed by the
/// first eight words of the seed, a shorter seed being filled up with zeros.
#[verifier::external_body]
pub(crate) fn from_seed(seed: &[u32]) -> (random: ChaChaRng)
    ensures
        words_ahead(random) == seeded_words(seed_key(seed@)),
{
    ChaChaRng::from_seed(seed)
}

/// Calls `Rng::next_u64`, which takes two words off the generator and joins them, the
/// first as the upper half.
#[verifier::external_body]
pub(crate) fn next_u64(random: &mut ChaChaRng) -> (value: u64)
    ensures
        value == leading_u64(words_ahead(*old(random))),
        words_ahead(*final(random)) == words_from(words_ahead(*old(random)), 2),
{
    random.next_u64()
}

/// Calls `Rng::gen` for a `ChaChaRng`, which takes eight words off the generator and
/// seeds another generator with them.
#[verifier::external_body]
pub(crate) fn split(random: &mut ChaChaRng) -> (other: ChaChaRng)
    ensures
        words_ahead(other) == split_words(words_ahead(*old(random))),
        words_ahead(*final(random)) == words_from(words_ahead(*old(random)), 8),
{
    random.gen()
}

} // verus!

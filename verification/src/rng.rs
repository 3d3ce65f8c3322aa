//! The random source: the ChaCha generator with eight rounds, of `rand_chacha`.

use vstd::prelude::*;
use rand::{Rng, SeedableRng};
use rand_chacha::ChaCha8Rng;

verus! {

/// `rand_chacha::ChaCha8Rng`, carried through as an opaque value.
#[verifier::external_type_specification]
#[verifier::external_body]
pub struct ExChaCha8Rng(ChaCha8Rng);

/// `rand::Rng::gen` at type `u64`: one word from the generator. Nothing is
/// claimed of the word.
#[verifier::external_body]
pub(crate) fn next_word(rng: &mut ChaCha8Rng) -> (word: u64) {
    rng.gen::<u64>()
}

/// `rand::SeedableRng::seed_from_u64` for `ChaCha8Rng`: a generator made from
/// `seed`. Nothing is claimed of the generator.
#[verifier::external_body]
pub(crate) fn seeded_rng(seed: u64) -> (rng: ChaCha8Rng) {
    ChaCha8Rng::seed_from_u64(seed)
}

} // verus!

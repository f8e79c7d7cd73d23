//! The seeded pseudo-random stream that drives cave generation.
//!
//! The stream is the standard generator of the `rand` crate. Nothing about
//! it is proved here: the items of this module state what is taken on trust
//! from that crate, namely that the generator is a deterministic function of
//! its seed and of what was drawn before.

use rand::rngs::StdRng;
use rand::{Rng, RngCore, SeedableRng};
use vstd::prelude::*;

verus! {

/// `rand::rngs::StdRng`, a value that Verus carries through without
/// looking inside.
#[verifier::external_type_specification]
#[verifier::external_body]
pub struct ExStdRng(StdRng);

/// The generator that `StdRng::seed_from_u64` makes from a seed.
pub uninterp spec fn seeded_stream(seed: u64) -> StdRng;

/// The word that `next_u32` draws from a generator, and the generator it
/// leaves behind.
pub uninterp spec fn word_draw(stream: StdRng) -> (u32, StdRng);

/// The number below `bound` that `gen_range(0..bound)` draws from a
/// generator, and the generator it leaves behind.
pub uninterp spec fn index_draw(stream: StdRng, bound: u64) -> (u64, StdRng);

/// Calls `StdRng::seed_from_u64`. The contract claims that the generator
/// made depends on the seed alone.
#[verifier::external_body]
pub(crate) fn stream_from_seed(seed: u64) -> (stream: StdRng)
    ensures
        stream == seeded_stream(seed),
{
    StdRng::seed_from_u64(seed)
}

/// Calls `next_u32` on the generator. The contract claims that the word
/// and the generator's next state depend on its state alone.
#[verifier::external_body]
pub(crate) fn next_word(stream: &mut StdRng) -> (word: u32)
    ensures
        (word, *final(stream)) == word_draw(*old(stream)),
{
    stream.next_u32()
}

/// Calls `gen_range(0..bound)` on the generator, which panics on an empty
/// range: hence the `requires`. The contract claims that the number drawn
/// lies below `bound`, and that it and the generator's next state depend on
/// the generator's state and on `bound` alone.
#[verifier::external_body]
pub(crate) fn index_below(stream: &mut StdRng, bound: u64) -> (index: u64)
    requires
        bound > 0,
    ensures
        index < bound,
        (index, *final(stream)) == index_draw(*old(stream), bound),
{
    stream.gen_range(0..bound)
}

} // verus!

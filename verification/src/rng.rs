//! Pseudo-random number generation, supplied by the `rand` crate.
//!
//! The manager's split-noise generator is deterministic: it is seeded from a
//! fixed value, so identical action streams replay identically. The router's
//! retry shuffling is deliberately non-deterministic and draws from the
//! thread-local generator.

use vstd::prelude::*;
use rand::Rng;
use rand::SeedableRng;
use rand::seq::SliceRandom;

verus! {

#[verifier::external_type_specification]
#[verifier::external_body]
pub struct ExStdRng(rand::rngs::StdRng);

#[verifier::external_type_specification]
#[verifier::external_body]
pub struct ExThreadRng(rand::rngs::ThreadRng);

/// Relies on rand's `StdRng::seed_from_u64`: builds a generator whose output
/// stream is a function of the seed alone.
#[verifier::external_body]
pub(crate) fn seeded_rng(seed: u64) -> rand::rngs::StdRng {
    rand::rngs::StdRng::seed_from_u64(seed)
}

/// Relies on rand's `Rng::gen_range` over the inclusive range `lo..=hi`: the
/// sample always lies in that range, and the call returns normally whenever
/// the range is non-empty.
#[verifier::external_body]
pub(crate) fn gen_range_i64(rng: &mut rand::rngs::StdRng, lo: i64, hi: i64) -> (r: i64)
    requires
        lo <= hi,
    ensures
        lo <= r <= hi,
{
    rng.gen_range(lo..=hi)
}

/// Relies on rand's `thread_rng`: hands out the thread-local generator.
#[verifier::external_body]
pub(crate) fn fresh_thread_rng() -> rand::rngs::ThreadRng {
    rand::thread_rng()
}

/// Relies on rand's `SliceRandom::shuffle`: reorders the elements in place by
/// swaps, so the multiset of elements is unchanged.
#[verifier::external_body]
pub(crate) fn shuffle_usizes(v: &mut Vec<usize>, rng: &mut rand::rngs::ThreadRng)
    ensures
        final(v)@.to_multiset() == old(v)@.to_multiset(),
{
    v.shuffle(rng)
}

} // verus!

//! Randomness, through the `rand` family of crates. The server draws the
//! spawn position of each new paddle from a seeded ChaCha8 stream (so runs
//! are reproducible) and the latency simulator rolls per-packet losses from
//! the thread-local generator. Nothing is promised of a drawn value beyond
//! its range; every caller is verified for all values in that range.

use vstd::prelude::*;
use rand::Rng;

verus! {

/// `rand_chacha::ChaCha8Rng`, the server's seeded random stream.
#[verifier::external_type_specification]
#[verifier::external_body]
pub struct ExChaCha8Rng(rand_chacha::ChaCha8Rng);

/// `rand::rngs::ThreadRng`, the thread-local generator used by the latency
/// simulator.
#[verifier::external_type_specification]
#[verifier::external_body]
pub struct ExThreadRng(rand::rngs::ThreadRng);

/// Relies on `rand::Rng::gen_range` over the inclusive range `lo..=hi`: the
/// draw lies in that range; it panics on an empty range, which the
/// precondition rules out.
#[verifier::external_body]
pub fn chacha8_gen_range_i32(rng: &mut rand_chacha::ChaCha8Rng, lo: i32, hi: i32) -> (r: i32)
    requires
        lo <= hi,
    ensures
        lo <= r <= hi,
{
    rng.gen_range(lo..=hi)
}

/// Relies on `rand::Rng::gen_range` over the inclusive range `lo..=hi`: the
/// draw lies in that range; it panics on an empty range, which the
/// precondition rules out.
#[verifier::external_body]
pub fn thread_gen_range_u32(rng: &mut rand::rngs::ThreadRng, lo: u32, hi: u32) -> (r: u32)
    requires
        lo <= hi,
    ensures
        lo <= r <= hi,
{
    rng.gen_range(lo..=hi)
}

} // verus!

//! Trusted interface to the `rand` crate.
//!
//! The solver owns a `rand::rngs::StdRng`.  Nothing is assumed of the values
//! drawn beyond the documented range bound, so every caller is verified for
//! every possible outcome.

use vstd::prelude::*;

verus! {

#[verifier::external_type_specification]
#[verifier::external_body]
pub struct ExStdRng(rand::rngs::StdRng);

#[verifier::external_type_specification]
#[verifier::external_body]
pub struct ExThreadRng(rand::rngs::ThreadRng);

/// Relies on rand's `SeedableRng::seed_from_u64` for `StdRng`.
#[verifier::external_body]
pub fn rng_from_seed(seed: u64) -> rand::rngs::StdRng {
    <rand::rngs::StdRng as rand::SeedableRng>::seed_from_u64(seed)
}

/// Relies on rand's `thread_rng`: a handle to the thread-local generator.
#[verifier::external_body]
pub fn rng_thread() -> rand::rngs::ThreadRng {
    rand::thread_rng()
}

/// Relies on rand's `RngCore::next_u64`; nothing is assumed of the value.
#[verifier::external_body]
pub fn rng_next_u64(r: &mut rand::rngs::ThreadRng) -> u64 {
    rand::RngCore::next_u64(r)
}

/// Relies on rand's `Rng::gen_range` over `0..bound`, which panics on an
/// empty range and otherwise returns a value of the range.
#[verifier::external_body]
pub fn rng_gen_range(r: &mut rand::rngs::StdRng, bound: usize) -> (ret: usize)
    requires
        bound > 0,
    ensures
        ret < bound,
{
    rand::Rng::gen_range(r, 0..bound)
}

} // verus!

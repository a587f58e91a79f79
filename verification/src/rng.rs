//! Randomness source used by key generation, signing and the firewall.
use vstd::prelude::*;
use rand::rngs::ThreadRng;

verus! {

/// The thread-local generator of the `rand` crate.
#[verifier::external_type_specification]
#[verifier::external_body]
pub struct ExThreadRng(ThreadRng);

/// `rand::thread_rng`: a handle to the thread-local CSPRNG. Nothing is claimed of its state.
#[verifier::external_body]
pub(crate) fn thread_rng() -> ThreadRng {
    rand::thread_rng()
}

/// `RngCore::next_u32`: a random `u32`; any value may come back.
#[verifier::external_body]
pub(crate) fn next_u32(rng: &mut ThreadRng) -> u32 {
    rand::RngCore::next_u32(rng)
}

/// `RngCore::next_u64`: a random `u64`; any value may come back.
#[verifier::external_body]
pub(crate) fn next_u64(rng: &mut ThreadRng) -> u64 {
    rand::RngCore::next_u64(rng)
}

/// `RngCore::fill_bytes`: overwrite the buffer with random bytes; its length is unchanged.
#[verifier::external_body]
pub(crate) fn fill_bytes(rng: &mut ThreadRng, buf: &mut [u8])
    ensures
        final(buf)@.len() == old(buf)@.len(),
{
    rand::RngCore::fill_bytes(rng, buf)
}

/// `Rng::gen_range(lo..hi)`: a value in the half-open range (the range must be non-empty).
#[verifier::external_body]
pub(crate) fn gen_range_i64(rng: &mut ThreadRng, lo: i64, hi: i64) -> (r: i64)
    requires
        lo < hi,
    ensures
        lo <= r < hi,
{
    rand::Rng::gen_range(rng, lo..hi)
}

} // verus!

//! Draws from the thread-local random generator. Nothing is assumed of a drawn
//! value beyond the range it is drawn from.
use vstd::prelude::*;

verus! {

/// Relies on `rand::random::<bool>`: a fair coin.
#[verifier::external_body]
pub(crate) fn coin_flip() -> (r: bool) {
    rand::random::<bool>()
}

/// Relies on `rand::Rng::gen_range` over `0..n`, which panics when the range is
/// empty: a value below `n`.
#[verifier::external_body]
pub(crate) fn random_below(n: u64) -> (r: u64)
    requires
        0 < n,
    ensures
        r < n,
{
    rand::Rng::gen_range(&mut rand::thread_rng(), 0..n)
}

/// Relies on `rand::RngCore::fill_bytes`: overwrites every octet, keeping the length.
#[verifier::external_body]
pub(crate) fn fill_random(bytes: &mut Vec<u8>)
    ensures
        final(bytes)@.len() == old(bytes)@.len(),
{
    rand::RngCore::fill_bytes(&mut rand::thread_rng(), bytes.as_mut_slice())
}

/// A value drawn from `0..=max`.
pub fn random_up_to(max: u32) -> (r: u32)
    ensures
        r <= max,
{
    random_below(max as u64 + 1) as u32
}

} // verus!

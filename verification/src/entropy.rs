//! The source of randomness the engine draws from.

use bevy_prng::WyRand;
use rand::Rng;
use vstd::prelude::*;

verus! {

/// The `wyrand` generator as `bevy_prng` wraps it. Its state is opaque here.
#[verifier::external_type_specification]
#[verifier::external_body]
pub struct ExWyRand(WyRand);

/// Calls `rand::Rng::gen_range` with the half-open range `low..high`.
///
/// `gen_range` panics on an empty range, which the precondition excludes. The
/// value it returns lies in the range; nothing else is claimed about it, and
/// two calls with the same bounds may return different values.
#[verifier::external_body]
pub(crate) fn gen_range(rng: &mut WyRand, low: usize, high: usize) -> (value: usize)
    requires
        low < high,
    ensures
        low <= value < high,
{
    rng.gen_range(low..high)
}

/// A uniformly chosen index into a collection of `len` items.
pub fn next_uniform_index(rng: &mut WyRand, len: usize) -> (index: Option<usize>)
    ensures
        len == 0 <==> index is None,
        index matches Some(i) ==> i < len,
{
    if len == 0 {
        None
    } else {
        Some(gen_range(rng, 0, len))
    }
}

} // verus!

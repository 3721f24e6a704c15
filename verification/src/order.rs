//! Total orders over packed key values.
//!
//! Keys are ranked either by their own numeric value (lexicographic order
//! on the packed bases) or by a seeded pseudo-random order supplied by the
//! default hasher of the `minimizer_queue` crate.

use core::hash::BuildHasher;
use vstd::prelude::*;

verus! {

/// Rank of `key` under the seeded pseudo-random order: a fixed function of
/// the seed and the key.
pub uninterp spec fn seeded_rank(seed: u64, key: u64) -> u64;

/// A deterministic total order over packed keys.
#[derive(Clone, Copy)]
pub enum KeyOrder {
    /// Rank a key by its own packed value: plain lexicographic minimizers.
    Lex,
    /// Rank a key by a seeded pseudo-random hash of its value.
    Seeded(u64),
}

/// Rank of `key` under `order`; windows select the position whose rank is
/// smallest.
pub open spec fn rank_of(order: KeyOrder, key: u64) -> u64 {
    match order {
        KeyOrder::Lex => key,
        KeyOrder::Seeded(seed) => seeded_rank(seed, key),
    }
}

/// Relies on `minimizer_queue::DefaultHashBuilder` (wyhash2's `WyHash`):
/// hashing a `u64` key writes the key's bytes into a stateless hasher
/// built from the seed alone, so the result is a function of the seed and
/// the key.
#[verifier::external_body]
fn hash_with_seed(seed: u64, key: u64) -> (r: u64)
    ensures
        r == seeded_rank(seed, key),
{
    minimizer_queue::DefaultHashBuilder::with_seed(seed).hash_one(&key)
}

/// Computes the rank of `key` under `order`.
pub fn rank(order: &KeyOrder, key: u64) -> (r: u64)
    ensures
        r == rank_of(*order, key),
{
    match order {
        KeyOrder::Lex => key,
        KeyOrder::Seeded(seed) => hash_with_seed(*seed, key),
    }
}

} // verus!

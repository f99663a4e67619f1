//! The hash function behind the sketch's projections and the shard routing.
//!
//! Hashing is done by the `twox_hash` crate. What it computes is not spelled
//! out here: the hash of a byte string under a seed is a named, uninterpreted
//! function, and the rest of the crate is verified for whatever it returns.

use twox_hash::RandomXxHashBuilder64;
use twox_hash::XxHash64;
use vstd::prelude::*;

verus! {

/// The 64-bit xxHash of `bytes` under `seed`.
pub uninterp spec fn xxhash64(seed: u64, bytes: Seq<u8>) -> u64;

/// Hashes `bytes` with `twox_hash::XxHash64`: a hasher made by `with_seed`,
/// fed the bytes in one `write` and read by `finish`. That hasher keeps no
/// state besides the seed and what was written, so the result is a function
/// of the two arguments; the contract gives it its name and claims no more.
#[verifier::external_body]
pub(crate) fn hash_bytes(seed: u64, bytes: &[u8]) -> (hash: u64)
    ensures
        hash == xxhash64(seed, bytes@),
{
    let mut hasher = XxHash64::with_seed(seed);
    std::hash::Hasher::write(&mut hasher, bytes);
    std::hash::Hasher::finish(&hasher)
}

/// The seed of a freshly made `twox_hash::RandomXxHashBuilder64`, which draws
/// it from the thread's random number generator. Nothing is claimed of it.
/// The generator gives up only where the system has no randomness to offer.
#[verifier::external_body]
pub(crate) fn random_seed() -> u64 {
    std::hash::BuildHasher::build_hasher(&RandomXxHashBuilder64::default()).seed()
}

/// The bytes under which an integer key is hashed: its eight bytes, least
/// significant first.
pub open spec fn key_bytes(key: u64) -> Seq<u8> {
    vstd::bytes::spec_u64_to_le_bytes(key)
}

/// The hash of an integer key under `seed`.
pub fn hash_key(seed: u64, key: u64) -> (hash: u64)
    ensures
        hash == xxhash64(seed, key_bytes(key)),
{
    let bytes = vstd::bytes::u64_to_le_bytes(key);
    hash_bytes(seed, bytes.as_slice())
}

} // verus!

//! Pluggable hashing for the map.
//!
//! A [`HashProvider`] turns a key into a 64-bit digest. The digest must be a
//! deterministic function of the provider and the key alone: the map relies on
//! equal keys resolving to the same bucket for the whole lifetime of one map
//! value. Determinism is captured by tying the executable `digest` to the
//! spec-level `spec_digest`, so every implementation proves it.
//!
//! Distribution quality is not part of the contract: a provider that maps many
//! keys to one digest only slows the map down (longer scans in one bucket), it
//! never makes it wrong. [`ConstantProvider`] is the extreme case and is handy
//! for exercising collision handling.

use std::collections::hash_map::DefaultHasher;
use std::hash::Hasher;
use vstd::bytes::{spec_u64_to_le_bytes, u64_to_le_bytes};
use vstd::prelude::*;
use vstd::std_specs::hash::DefaultHasherAdditionalSpecFns;

verus! {

/// A capability that maps keys to 64-bit digests, deterministically.
///
/// The map calls `digest` once per operation, on a fresh borrow of the key;
/// no hashing state is carried from one call to the next.
pub trait HashProvider<K>: Sized {
    /// The digest as a mathematical function of provider and key.
    spec fn spec_digest(&self, key: K) -> u64;

    /// Computes the digest of `key`.
    fn digest(&self, key: &K) -> (d: u64)
        ensures
            d == self.spec_digest(*key),
    ;
}

/// Hashes a 64-bit key to itself. With a bucket count of `n`, key `k` lands
/// in bucket `k % n`, which makes bucket placement easy to predict.
pub struct IdentityProvider;

impl HashProvider<u64> for IdentityProvider {
    open spec fn spec_digest(&self, key: u64) -> u64 {
        key
    }

    fn digest(&self, key: &u64) -> (d: u64)
        ensures
            d == self.spec_digest(*key),
    {
        *key
    }
}

/// Hashes every key to the same fixed digest, forcing all keys into a single
/// bucket. Correct (the map only needs determinism) but maximally colliding.
pub struct ConstantProvider {
    /// The digest returned for every key.
    pub digest_value: u64,
}

impl<K> HashProvider<K> for ConstantProvider {
    open spec fn spec_digest(&self, key: K) -> u64 {
        self.digest_value
    }

    fn digest(&self, key: &K) -> (d: u64)
        ensures
            d == self.spec_digest(*key),
    {
        self.digest_value
    }
}

/// Hashes a 64-bit key with the standard library's `DefaultHasher`, fed the
/// key's little-endian bytes. Each call builds a hasher afresh, so no state
/// leaks from one key's digest into the next, and equal keys always digest
/// alike.
pub struct StdHashProvider;

impl HashProvider<u64> for StdHashProvider {
    open spec fn spec_digest(&self, key: u64) -> u64 {
        DefaultHasher::spec_finish(seq![spec_u64_to_le_bytes(key)])
    }

    fn digest(&self, key: &u64) -> (d: u64)
        ensures
            d == self.spec_digest(*key),
    {
        let bytes = u64_to_le_bytes(*key);
        let mut hasher = DefaultHasher::new();
        hasher.write(bytes.as_slice());
        proof {
            assert(hasher@ =~= seq![spec_u64_to_le_bytes(*key)]);
        }
        hasher.finish()
    }
}

} // verus!

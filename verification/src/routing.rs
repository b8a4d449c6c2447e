//! Which shard owns a key.
use std::hash::{Hash, Hasher};
use vstd::prelude::*;

verus! {

/// Number of independent shards the key space is split into.
pub const NUM_SHARDS: usize = 16;

/// Length of every embedding vector stored with a key.
pub const VECTOR_DIM: usize = 384;

/// What `DefaultHasher::new()` yields, after hashing a string slice and calling `finish`.
pub uninterp spec fn default_str_hash(key: Seq<char>) -> u64;

/// Calls std's `DefaultHasher` (created by `DefaultHasher::new`, fed through `str`'s `Hash`
/// impl, read with `finish`). The contract only names the result as a function of the text:
/// `DefaultHasher::new` uses fixed keys, so equal text hashes equally within one build.
#[verifier::external_body]
fn default_hash(key: &str) -> (h: u64)
    ensures
        h == default_str_hash(key@),
{
    let mut hasher = std::collections::hash_map::DefaultHasher::new();
    key.hash(&mut hasher);
    hasher.finish()
}

/// The shard that owns `key`: its `DefaultHasher` hash modulo the number of shards.
pub open spec fn shard_of(key: Seq<char>) -> nat {
    (default_str_hash(key) % (NUM_SHARDS as u64)) as nat
}

/// Picks the shard of a key (the index into the senders of the full state).
pub fn shard_index(key: &str) -> (i: usize)
    ensures
        i == shard_of(key@),
        i < NUM_SHARDS,
{
    let h = default_hash(key);
    (h % 16) as usize
}

} // verus!

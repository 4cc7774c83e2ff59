//! The keyed hash that places a key in the table.
use std::collections::hash_map::DefaultHasher;
use std::hash::Hasher;
use vstd::prelude::*;
use vstd::std_specs::hash::DefaultHasherAdditionalSpecFns;
use vstd::utf8::encode_utf8;

verus! {

/// The eight little-endian bytes of a seed.
pub open spec fn seed_bytes(seed: u64) -> Seq<u8> {
    seq![
        seed as u8,
        (seed >> 8u64) as u8,
        (seed >> 16u64) as u8,
        (seed >> 24u64) as u8,
        (seed >> 32u64) as u8,
        (seed >> 40u64) as u8,
        (seed >> 48u64) as u8,
        (seed >> 56u64) as u8,
    ]
}

/// The hash of a key under a seed: a fresh `DefaultHasher` fed the seed's
/// bytes, then the key's UTF-8 bytes.
pub open spec fn key_hash(seed: u64, key: Seq<char>) -> u64 {
    DefaultHasher::spec_finish(seq![seed_bytes(seed), encode_utf8(key)])
}

/// Computes `key_hash(seed, key@)`.
pub fn hash_key(seed: u64, key: &String) -> (r: u64)
    ensures
        r == key_hash(seed, key@),
{
    let bytes: Vec<u8> = vec![
        seed as u8,
        (seed >> 8u64) as u8,
        (seed >> 16u64) as u8,
        (seed >> 24u64) as u8,
        (seed >> 32u64) as u8,
        (seed >> 40u64) as u8,
        (seed >> 48u64) as u8,
        (seed >> 56u64) as u8,
    ];
    assert(bytes@ =~= seed_bytes(seed));
    let mut hasher = DefaultHasher::new();
    hasher.write(bytes.as_slice());
    hasher.write(key.as_str().as_bytes());
    assert(hasher@ =~= seq![seed_bytes(seed), encode_utf8(key@)]);
    hasher.finish()
}

/// Relies on std's `RandomState::new`: a hasher builder keyed from the
/// operating system's randomness. Nothing is promised of its keys.
pub assume_specification[ std::collections::hash_map::RandomState::new ]() -> std::collections::hash_map::RandomState;

/// Relies on `BuildHasher::hash_one` of std's `RandomState`: the hash of a
/// fixed value under the state's random keys, used as a seed. Nothing is
/// promised of the value.
#[verifier::external_body]
fn hash_zero(state: &std::collections::hash_map::RandomState) -> (r: u64) {
    std::hash::BuildHasher::hash_one(state, 0u64)
}

/// Draws a fresh random seed.
pub(crate) fn random_seed() -> (r: u64) {
    let state = std::collections::hash_map::RandomState::new();
    hash_zero(&state)
}

} // verus!

//! The hash functions that the policies take from outside crates.
//!
//! Each hash is a fixed function of the bytes it is fed, so the library
//! gives each result a name and proves its own logic over that name.

use std::hash::Hash;
use std::hash::Hasher;
use vstd::prelude::*;

verus! {

/// What `metrohash::MetroHash64` with seed 0 yields after one `write` of
/// these bytes followed by `finish`.
pub uninterp spec fn metrohash64(bytes: Seq<u8>) -> u64;

/// What `twox_hash::XxHash64` with seed 0 yields after one `write` of these
/// bytes followed by `finish`.
pub uninterp spec fn xxhash64(bytes: Seq<u8>) -> u64;

/// What `metrohash::MetroHash64` with seed 0 yields when a string is fed to
/// it through `std::hash::Hash` and then finished.
pub uninterp spec fn metrohash_of_str(s: Seq<char>) -> u64;

/// What `metrohash::MetroHash64` with seed 0 yields when a `u64` is fed to
/// it through `std::hash::Hash` (its bytes in the target's byte order) and
/// then finished.
pub uninterp spec fn metrohash_of_u64(x: u64) -> u64;

/// Calls `MetroHash64::default()`, `Hasher::write` and `Hasher::finish`.
/// Claimed: the result is `metrohash64` of the bytes, a function of them
/// alone (the seed is the constant 0).
#[verifier::external_body]
pub(crate) fn metrohash64_bytes(bytes: &[u8]) -> (r: u64)
    ensures
        r == metrohash64(bytes@),
{
    let mut hasher = metrohash::MetroHash64::default();
    hasher.write(bytes);
    hasher.finish()
}

/// Calls `XxHash64::default()`, `Hasher::write` and `Hasher::finish`.
/// Claimed: the result is `xxhash64` of the bytes, a function of them alone
/// (the seed is the constant 0).
#[verifier::external_body]
pub(crate) fn xxhash64_bytes(bytes: &[u8]) -> (r: u64)
    ensures
        r == xxhash64(bytes@),
{
    let mut hasher = twox_hash::XxHash64::default();
    hasher.write(bytes);
    hasher.finish()
}

/// Feeds a string to `MetroHash64::default()` through `Hash::hash` and calls
/// `Hasher::finish`. Claimed: the result is `metrohash_of_str` of the
/// string's characters; `Hash for str` writes the UTF-8 bytes and a 0xff
/// terminator, which depend on the characters alone.
#[verifier::external_body]
pub(crate) fn metrohash_str(s: &str) -> (r: u64)
    ensures
        r == metrohash_of_str(s@),
{
    let mut hasher = metrohash::MetroHash64::default();
    s.hash(&mut hasher);
    hasher.finish()
}

/// Feeds a `u64` to `MetroHash64::default()` through `Hash::hash` and calls
/// `Hasher::finish`. Claimed: the result is `metrohash_of_u64` of the number;
/// `Hash for u64` writes its eight bytes in the target's byte order, so the
/// result depends on the number alone for a given build target.
#[verifier::external_body]
pub(crate) fn metrohash_u64(x: u64) -> (r: u64)
    ensures
        r == metrohash_of_u64(x),
{
    let mut hasher = metrohash::MetroHash64::default();
    x.hash(&mut hasher);
    hasher.finish()
}

} // verus!

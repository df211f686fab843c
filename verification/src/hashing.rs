//! Hash functions used by the reconciliation structures.

use vstd::prelude::*;
use std::hash::{Hash, Hasher};
use sha2::{Digest, Sha256};

verus! {

/// The 64-bit value that `std::hash::DefaultHasher::new()` produces after hashing
/// a string item followed by a `usize` seed.
pub uninterp spec fn default_hash_of(item: Seq<char>, seed: usize) -> u64;

/// Hashes `item` and then `seed` with a fresh `std::hash::DefaultHasher` and returns
/// `finish()`. `DefaultHasher::new()` is documented to give the same hasher on every
/// call (fixed keys, no per-process seeding), so the result is claimed to depend on
/// `item` and `seed` alone; what the value is, is left unsaid. The standard
/// library does not promise the algorithm stays the same across Rust releases, so
/// filters built with it agree only between programs built with the same toolchain.
#[verifier::external_body]
pub fn default_hash(item: &str, seed: usize) -> (h: u64)
    ensures
        h == default_hash_of(item@, seed),
{
    let mut hasher = std::hash::DefaultHasher::new();
    item.hash(&mut hasher);
    seed.hash(&mut hasher);
    hasher.finish()
}

/// The SHA-256 digest of a byte sequence.
pub uninterp spec fn sha256_of(data: Seq<u8>) -> Seq<u8>;

/// SHA-256 of `data`, computed by `sha2::Sha256` (`new`, `update`, `finalize`).
/// The digest is a function of the input bytes alone; which 32 bytes it is, is left unsaid.
#[verifier::external_body]
pub fn sha256(data: &[u8]) -> (h: [u8; 32])
    ensures
        h@ == sha256_of(data@),
{
    let mut hasher = Sha256::new();
    hasher.update(data);
    hasher.finalize().into()
}

} // verus!

verus! {

/// Two lower-case hex digits per byte, high nibble first.
pub open spec fn hex_lower(data: Seq<u8>) -> Seq<char>
    decreases data.len(),
{
    if data.len() == 0 {
        Seq::empty()
    } else {
        hex_lower(data.drop_last()).push(crate::numfmt::digit_char((data.last() / 16) as nat)).push(
            crate::numfmt::digit_char((data.last() % 16) as nat),
        )
    }
}

/// `hex::encode`: each byte as two lower-case hex digits, high nibble first (as the
/// crate documents).
#[verifier::external_body]
pub fn hex_encode(data: &[u8]) -> (r: String)
    ensures
        r@ == hex_lower(data@),
{
    hex::encode(data)
}

} // verus!

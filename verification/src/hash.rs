//! Content addressing for the embedding cache: the lower 8 bytes of
//! SHA-256 over the UTF-8 encoding of a text, rendered as 16 lowercase
//! hex characters.

use vstd::prelude::*;

verus! {

use crate::text::hex16;
use sha2::Digest;
use vstd::string::StringSliceAdditionalSpecFns;

/// The SHA-256 digest of a byte sequence. The digest itself is computed
/// by an outside library; only its length and determinism are stated.
pub uninterp spec fn sha256_of(b: Seq<u8>) -> Seq<u8>;

/// Relies on sha2's `Sha256::digest`: the 32-byte SHA-256 digest of the
/// input, a function of the input bytes alone.
#[verifier::external_body]
fn sha256(b: &[u8]) -> (r: Vec<u8>)
    ensures
        r@ == sha256_of(b@),
        r@.len() == 32,
{
    sha2::Sha256::digest(b).to_vec()
}

/// A big-endian 64-bit value read from the first eight bytes.
pub open spec fn u64_be(s: Seq<u8>) -> u64
    recommends
        s.len() >= 8,
{
    ((s[0] as u64) << 56) | ((s[1] as u64) << 48) | ((s[2] as u64) << 40) | ((s[3] as u64) << 32)
        | ((s[4] as u64) << 24) | ((s[5] as u64) << 16) | ((s[6] as u64) << 8) | (s[7] as u64)
}

/// What the content hash of a text is: the first eight digest bytes as a
/// big-endian value, in 16 lowercase hex characters.
pub open spec fn content_hash_spec(bytes: Seq<u8>) -> Seq<char> {
    hex16(u64_be(sha256_of(bytes)))
}

/// Deterministic content hash of a text for the embedding cache.
pub fn content_hash(text: &str) -> (r: String)
    ensures
        r@ == content_hash_spec(text.spec_bytes()),
        r@.len() == 16,
{
    let bytes: &[u8] = text.as_bytes();
    let h: Vec<u8> = sha256(bytes);
    let x: u64 = ((h[0] as u64) << 56) | ((h[1] as u64) << 48) | ((h[2] as u64) << 40) | ((h[3]
        as u64) << 32) | ((h[4] as u64) << 24) | ((h[5] as u64) << 16) | ((h[6] as u64) << 8) | (
    h[7] as u64);
    crate::text::hex16_string(x)
}

} // verus!

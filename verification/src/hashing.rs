//! Content identifiers: the BLAKE3 functions behind named results.

use vstd::prelude::*;

verus! {

/// The BLAKE3 hash of a byte string.
pub uninterp spec fn blake3_hash(input: Seq<u8>) -> [u8; 32];

/// What BLAKE3's key-derivation mode gives for a context and some material.
pub uninterp spec fn blake3_derive_key(context: Seq<char>, material: Seq<u8>) -> [u8; 32];

/// The bytes of a byte string's BLAKE3 hash.
pub open spec fn blake3_digest(input: Seq<u8>) -> Seq<u8> {
    blake3_hash(input)@
}

/// The bytes that BLAKE3's key-derivation mode gives.
pub open spec fn blake3_derived(context: Seq<char>, material: Seq<u8>) -> Seq<u8> {
    blake3_derive_key(context, material)@
}

/// Hashes two byte strings one after the other with `blake3::Hasher`; the result is the hash of
/// their concatenation, since `update` only adds input.
#[verifier::external_body]
pub(crate) fn hash_parts(prefix: &[u8], body: &[u8]) -> (digest: [u8; 32])
    ensures
        digest == blake3_hash(prefix@ + body@),
{
    let mut hasher = blake3::Hasher::new();
    hasher.update(prefix);
    hasher.update(body);
    *hasher.finalize().as_bytes()
}

/// Calls `blake3::derive_key`, whose result depends on the context and the material alone.
#[verifier::external_body]
pub(crate) fn derive_digest(context: &str, material: &[u8]) -> (digest: [u8; 32])
    ensures
        digest == blake3_derive_key(context@, material@),
{
    blake3::derive_key(context, material)
}

} // verus!

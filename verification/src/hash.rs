//! Content hashes: the SHA-1 digest of a file's bytes in lowercase
//! hexadecimal, and the prefix of it that serves as deduplication key.

use sha1::{Digest, Sha1};
use vstd::prelude::*;
use vstd::string::*;

use crate::hex::{hex_encode, is_hex, lemma_hex_encode_is_hex, to_hex};

verus! {

/// Number of bytes in a SHA-1 digest.
pub const DIGEST_LEN: usize = 20;

/// Number of characters of a content hash: two per digest byte.
pub const HASH_LEN: usize = 40;

/// Number of leading characters of a content hash that make up the
/// deduplication key.
pub const HASH_PREFIX_LEN: usize = 8;

/// The SHA-1 digest of `data`. The algorithm is not restated here: the value
/// is whatever `Sha1::digest` of the `sha1` crate computes for these bytes.
pub uninterp spec fn sha1_digest(data: Seq<u8>) -> Seq<u8>;

/// The content hash of `data`: its SHA-1 digest in lowercase hexadecimal.
pub open spec fn content_hash(data: Seq<u8>) -> Seq<char> {
    hex_encode(sha1_digest(data))
}

/// Whether `hash` has the shape of a content hash: forty lowercase
/// hexadecimal digits.
pub open spec fn is_content_hash(hash: Seq<char>) -> bool {
    hash.len() == HASH_LEN && is_hex(hash)
}

/// The deduplication key of a content hash: its leading
/// [`HASH_PREFIX_LEN`] characters.
pub open spec fn prefix_of(hash: Seq<char>) -> Seq<char> {
    hash.take(HASH_PREFIX_LEN as int)
}

/// Calls `Sha1::digest` of the `sha1` crate, which feeds `data` to a fresh
/// hasher and finalizes it. Trusted: the bytes returned are the digest of
/// `data`, a function of the bytes alone, and there are twenty of them (the
/// crate fixes the output size of its hasher at twenty bytes).
#[verifier::external_body]
fn sha1_bytes(data: &[u8]) -> (digest: Vec<u8>)
    ensures
        digest@ == sha1_digest(data@),
        digest@.len() == DIGEST_LEN,
{
    Sha1::digest(data).to_vec()
}

/// Computes the content hash of a file's bytes.
pub fn compute_sha1(content: &[u8]) -> (hash: String)
    ensures
        hash@ == content_hash(content@),
        is_content_hash(hash@),
{
    let digest = sha1_bytes(content);
    proof {
        lemma_hex_encode_is_hex(digest@);
    }
    to_hex(digest.as_slice())
}

/// Cuts the deduplication key out of a content hash.
pub fn hash_prefix(hash: &str) -> (prefix: String)
    requires
        hash@.len() >= HASH_PREFIX_LEN,
    ensures
        prefix@ == prefix_of(hash@),
{
    String::from_str(hash.substring_char(0, HASH_PREFIX_LEN))
}

} // verus!

//! SHA-256 digests of text: the content hash that deduplicates submitted
//! items, and the digest from which mock embeddings are drawn.
use vstd::prelude::*;
use vstd::utf8::encode_utf8;
use sha2::{Digest, Sha256};
use crate::text::{hex_text, to_hex};

verus! {

broadcast use vstd::string::group_string_axioms;

/// What `sha2::Sha256::digest` returns for a byte string.
pub uninterp spec fn sha256_of(data: Seq<u8>) -> Seq<u8>;

/// Calls `sha2::Sha256::digest`. The digest is named `sha256_of(data@)`; a
/// SHA-256 digest is 32 bytes long.
#[verifier::external_body]
pub(crate) fn sha256(data: &[u8]) -> (digest: Vec<u8>)
    ensures
        digest@ == sha256_of(data@),
        digest@.len() == 32,
{
    Sha256::digest(data).to_vec()
}

/// The UTF-8 bytes of `first`, a line feed, then `second`.
pub open spec fn two_line_bytes(first: Seq<char>, second: Seq<char>) -> Seq<u8> {
    encode_utf8(first + "\n"@ + second)
}

/// The SHA-256 digest of `first`, a line feed, then `second`.
pub fn two_line_digest(first: &str, second: &str) -> (digest: Vec<u8>)
    ensures
        digest@ == sha256_of(two_line_bytes(first@, second@)),
        digest@.len() == 32,
{
    let mut text = first.to_owned();
    text.append("\n");
    text.append(second);
    sha256(text.as_str().as_bytes())
}

/// The content hash of a submitted item: the SHA-256 digest of its URL, a
/// line feed and its raw content, in lower-case hexadecimal.
pub fn content_hash(url: &str, content: &str) -> (hash: String)
    ensures
        hash@ == hex_text(sha256_of(two_line_bytes(url@, content@))),
        hash@.len() == 64,
{
    let digest = two_line_digest(url, content);
    to_hex(&digest)
}

} // verus!

//! The SHA-256 fingerprint that identifies an archive's contents.
use crate::text::push_hex_lower;
use sha2::Digest;
use vstd::prelude::*;
use vstd::string::StringExecFns;

verus! {

/// The SHA-256 digest of the bytes, as `sha2::Sha256` computes it.
pub uninterp spec fn sha256_of(data: Seq<u8>) -> Seq<u8>;

/// `sha2::Sha256::digest`: the digest of the bytes, 32 bytes long.
#[verifier::external_body]
fn sha256_digest(data: &[u8]) -> (r: Vec<u8>)
    ensures
        r@ == sha256_of(data@),
        r@.len() == 32,
{
    sha2::Sha256::digest(data).to_vec()
}

/// The text under which a digest is recorded: `sha256:` and the digest in
/// lower-case hex.
pub open spec fn hash_label(digest: Seq<u8>) -> Seq<char> {
    "sha256:"@ + crate::text::hex_lower(digest)
}

/// The fingerprint of a file's contents: `sha256:` followed by the
/// lower-case hex of its SHA-256 digest.
pub fn sha256_label(data: &[u8]) -> (r: String)
    ensures
        r@ == hash_label(sha256_of(data@)),
{
    let digest = sha256_digest(data);
    let mut out = String::from_str("sha256:");
    push_hex_lower(&mut out, digest.as_slice());
    out
}

} // verus!

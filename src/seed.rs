use crypto::digest::Digest;
use crypto::sha2::Sha256;
use vstd::prelude::*;

verus! {

/// SHA-256 digest of the UTF-8 bytes of a string.
pub uninterp spec fn sha256_digest(s: Seq<char>) -> Seq<u8>;

/// Relies on rust-crypto's `Sha256` (`new`, then `Digest::input_str`, which
/// feeds the string's UTF-8 bytes, then `Digest::result`, which writes the
/// 32-byte digest): the digest depends on the string alone.
#[verifier::external_body]
fn sha256(s: &str) -> (r: Vec<u8>)
    ensures
        r@ == sha256_digest(s@),
        r@.len() == 32,
{
    let mut hasher = Sha256::new();
    hasher.input_str(s);
    let mut out = [0u8; 32];
    hasher.result(&mut out);
    out.to_vec()
}

/// The 32 bytes that seed a run's pseudo-random generator: the SHA-256 digest
/// of the user's seed string.
pub fn seed_bytes(seed: &str) -> (r: Vec<u8>)
    ensures
        r@ == sha256_digest(seed@),
        r@.len() == 32,
{
    sha256(seed)
}

} // verus!

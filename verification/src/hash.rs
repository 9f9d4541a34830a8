use sha2::Digest;
use vstd::prelude::*;

verus! {

/// The digest of a character sequence: the lowercase hexadecimal rendering
/// of the SHA-256 digest of the sequence's UTF-8 bytes. The digest of given
/// characters is a fixed value, so it is left unspecified here and named
/// only through the trusted primitive below.
pub uninterp spec fn digest_of(s: Seq<char>) -> Seq<char>;

/// Relies on sha2's `Sha256::digest`, whose 32-byte result is a function of
/// the input bytes alone, and on `hex::encode`, which renders each byte as
/// two lowercase hexadecimal digits.
#[verifier::external_body]
pub(crate) fn hash_str(data: &str) -> (r: String)
    ensures
        r@ == digest_of(data@),
        r@.len() == 64,
{
    hex::encode(sha2::Sha256::digest(data.as_bytes()))
}

} // verus!

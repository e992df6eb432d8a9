use crypto::digest::Digest;
use crypto::sha2::Sha256;
use vstd::prelude::*;
use vstd::string::StringSliceAdditionalSpecFns;

verus! {

/// Number of bytes from which on the digest's bit counter would overflow.
pub const MAX_HASHED_BYTES: u64 = 0x2000_0000_0000_0000;

/// The SHA-256 digest of the UTF-8 bytes of `text`, written as 64 lowercase
/// hexadecimal digits.
pub uninterp spec fn sha256_hex(text: Seq<char>) -> Seq<char>;

/// Calls `crypto::sha2::Sha256`: feeds it the bytes of `s` with
/// `Digest::input_str` and reads the digest with `Digest::result_str`.
/// The digest depends on the bytes alone, so it is `sha256_hex` of the text.
/// The hasher counts its input in bits in a `u64` and panics on overflow,
/// which the precondition rules out.
#[verifier::external_body]
pub fn sha256(s: &str) -> (digest: String)
    requires
        s.spec_bytes().len() < MAX_HASHED_BYTES,
    ensures
        digest@ == sha256_hex(s@),
{
    let mut hasher = Sha256::new();
    hasher.input_str(s);
    hasher.result_str()
}

} // verus!

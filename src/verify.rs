//! Block fingerprints.
use sha2::Digest;
use vstd::prelude::*;

verus! {

/// The lower-case hex SHA-256 digest of `data`.
pub uninterp spec fn sha256_hex_of(data: Seq<u8>) -> Seq<char>;

/// Whether `c` is a lower-case hex digit.
pub open spec fn is_lower_hex_digit(c: char) -> bool {
    ('0' <= c && c <= '9') || ('a' <= c && c <= 'f')
}

/// Relies on `sha2::Sha256::digest` and generic-array's `LowerHex` for its
/// 32-byte output: the text depends on the bytes alone and is 64 lower-case
/// hex digits.
#[verifier::external_body]
pub fn sha256_hex(data: &[u8]) -> (r: String)
    ensures
        r@ == sha256_hex_of(data@),
        r@.len() == 64,
        forall|i: int| 0 <= i < r@.len() ==> is_lower_hex_digit(#[trigger] r@[i]),
{
    format!("{:x}", sha2::Sha256::digest(data))
}

/// Whether `data` has the digest `expected_sha256`.
pub fn verify_block(data: &[u8], expected_sha256: &str) -> (r: bool)
    ensures
        r == (sha256_hex_of(data@) == expected_sha256@),
{
    let expected = String::from_str(expected_sha256);
    sha256_hex(data) == expected
}

} // verus!

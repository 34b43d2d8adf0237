use vstd::prelude::*;

use sha2::{Digest, Sha256};

verus! {

/// Names the lowercase hex SHA-256 digest of the UTF-8 bytes of a text.
pub uninterp spec fn sha256_hex_of(s: Seq<char>) -> Seq<char>;

pub open spec fn is_lower_hex(c: char) -> bool {
    ('0' <= c && c <= '9') || ('a' <= c && c <= 'f')
}

/// Relies on `sha2::Sha256::digest` and the `LowerHex` format of its 32-byte
/// output: two lowercase hex digits per byte.
#[verifier::external_body]
pub(crate) fn sha256_hex(data: &str) -> (r: String)
    ensures
        r@ == sha256_hex_of(data@),
        r@.len() == 64,
        forall|i: int| 0 <= i < r@.len() ==> is_lower_hex(#[trigger] r@[i]),
{
    format!("{:x}", Sha256::digest(data.as_bytes()))
}

/// Checksum determinism: identical inputs have identical checksums.
pub proof fn law_checksum_determinism(a: Seq<char>, b: Seq<char>)
    requires
        a == b,
    ensures
        sha256_hex_of(a) == sha256_hex_of(b),
{
}

} // verus!

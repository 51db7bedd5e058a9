//! SHA-1 digests and hex spelling, through the outside crates that
//! compute them.
use vstd::prelude::*;

use sha1::Digest;

verus! {

/// The 20-byte SHA-1 digest of a byte sequence. The value is fixed by the
/// SHA-1 algorithm: a function of the bytes alone, named here rather than
/// restated.
pub uninterp spec fn sha1_of(data: Seq<u8>) -> Seq<u8>;

/// The lowercase hex digit byte for a nibble.
pub open spec fn hex_digit(n: u8) -> u8 {
    if n < 10 {
        (0x30 + n) as u8
    } else {
        (0x61 + (n - 10)) as u8
    }
}

/// The lowercase hex spelling of bytes: two digits per byte, high nibble
/// first.
pub open spec fn hex_chars_of(b: Seq<u8>) -> Seq<char> {
    Seq::new(
        2 * b.len(),
        |i: int|
            if i % 2 == 0 {
                hex_digit(b[i / 2] / 16) as char
            } else {
                hex_digit(b[i / 2] % 16) as char
            },
    )
}

/// Relies on sha1's `Sha1::digest`: the 20-byte SHA-1 of the input, a
/// function of the input bytes alone.
#[verifier::external_body]
pub(crate) fn sha1_digest(data: &[u8]) -> (r: Vec<u8>)
    ensures
        r@ == sha1_of(data@),
        r@.len() == 20,
{
    sha1::Sha1::digest(data).to_vec()
}

/// Relies on `hex::encode`: two lowercase hex digits per byte, high
/// nibble first.
#[verifier::external_body]
pub(crate) fn to_hex(data: &[u8]) -> (r: String)
    ensures
        r@ == hex_chars_of(data@),
{
    hex::encode(data)
}

} // verus!

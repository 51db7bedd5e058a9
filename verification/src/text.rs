//! Conversions between byte vectors and `String`, through std, with the
//! byte-to-character correspondence stated.
use vstd::prelude::*;

use vstd::utf8::decode_utf8;
use vstd::utf8::valid_utf8;

verus! {

/// The characters of ASCII bytes, one code point per byte.
pub open spec fn ascii_chars_of(b: Seq<u8>) -> Seq<char> {
    Seq::new(b.len(), |i: int| b[i] as char)
}

/// Relies on `String::from_utf8`: ASCII bytes are valid UTF-8 and decode
/// to the same code points, one per byte.
#[verifier::external_body]
pub(crate) fn ascii_to_string(b: Vec<u8>) -> (r: String)
    requires
        forall|i: int| 0 <= i < b@.len() ==> b@[i] < 0x80,
    ensures
        r@ == ascii_chars_of(b@),
{
    String::from_utf8(b).unwrap_or_default()
}

/// Relies on `String::from_utf8`: it succeeds exactly on valid UTF-8 and
/// then yields the decoded characters.
#[verifier::external_body]
pub(crate) fn utf8_to_string(b: Vec<u8>) -> (r: Option<String>)
    ensures
        match r {
            Some(s) => valid_utf8(b@) && s@ == decode_utf8(b@),
            None => !valid_utf8(b@),
        },
{
    match String::from_utf8(b) {
        Ok(s) => Some(s),
        Err(_) => None,
    }
}

/// What `String::from_utf8_lossy` returns for given bytes: a function of
/// the bytes alone (invalid sequences become replacement characters).
pub uninterp spec fn lossy_utf8_of(b: Seq<u8>) -> Seq<char>;

/// Relies on `String::from_utf8_lossy`: the result depends on the bytes
/// alone, and valid UTF-8 is decoded unchanged.
#[verifier::external_body]
pub(crate) fn lossy_utf8(b: &[u8]) -> (r: String)
    ensures
        r@ == lossy_utf8_of(b@),
        valid_utf8(b@) ==> r@ == decode_utf8(b@),
{
    String::from_utf8_lossy(b).to_string()
}

} // verus!

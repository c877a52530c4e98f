//! The transport encoding of transaction payloads. The table never stores a
//! payload whose encoding does not decode; the decoding itself is done by
//! the `base64` crate, behind the two trusted wrappers below.

use vstd::prelude::*;

verus! {

/// What standard-alphabet, padded base64 decoding yields on a character
/// string: the decoded bytes, or nothing where the string is not
/// well-formed base64. The result depends on the characters alone.
pub uninterp spec fn b64_decode_of(s: Seq<char>) -> Option<Seq<u8>>;

/// What standard-alphabet, padded base64 encoding yields on a byte string.
/// The result depends on the bytes alone.
pub uninterp spec fn b64_encode_of(b: Seq<u8>) -> Seq<char>;

/// A character of the standard base64 output alphabet: letters, digits,
/// '+', '/', and the '=' padding.
pub open spec fn b64_alphabet(c: char) -> bool {
    ||| 'A' <= c && c <= 'Z'
    ||| 'a' <= c && c <= 'z'
    ||| '0' <= c && c <= '9'
    ||| c == '+'
    ||| c == '/'
    ||| c == '='
}

/// Relies on base64::decode (the STANDARD config): decodes a
/// standard-alphabet, padded base64 string, failing exactly where the
/// input is not well-formed base64; deterministic in the input.
#[verifier::external_body]
pub(crate) fn b64_decode(s: &str) -> (r: Option<Vec<u8>>)
    ensures
        (r is Some) == (b64_decode_of(s@) is Some),
        r is Some ==> r->0@ == b64_decode_of(s@)->0,
{
    match base64::decode(s) {
        Ok(v) => Some(v),
        Err(_) => None,
    }
}

/// Relies on base64::encode (the STANDARD config): every output character
/// is from the standard output alphabet, and decoding the output gives the
/// input bytes back.
#[verifier::external_body]
pub(crate) fn b64_encode(bytes: &Vec<u8>) -> (r: String)
    ensures
        r@ == b64_encode_of(bytes@),
        b64_decode_of(r@) == Some(bytes@),
        forall|i: int| 0 <= i < r@.len() ==> b64_alphabet(#[trigger] r@[i]),
{
    base64::encode(bytes.as_slice())
}

} // verus!

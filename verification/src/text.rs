//! Lossless byte views of text and lossy text views of bytes.
//!
//! Rule names and values arrive as raw bytes and are interpreted as text
//! without ever rejecting an input: invalid UTF-8 sequences are replaced
//! character by character. Valid UTF-8 decodes exactly, which is what the
//! encoder/decoder round trip for regular rules rests on.

use vstd::prelude::*;
use vstd::utf8::decode_utf8;
use vstd::utf8::valid_utf8;

verus! {

/// The characters that lossy text decoding produces from a byte sequence
/// that is not valid UTF-8. The replacement scheme is a fixed function of
/// the bytes alone, so it only carries a name here.
pub uninterp spec fn lossy_of(bytes: Seq<u8>) -> Seq<char>;

/// The text read from a byte sequence: an exact decode where the bytes are
/// valid UTF-8, and the replacement-character decode everywhere else.
pub open spec fn lossy_decode(bytes: Seq<u8>) -> Seq<char> {
    if valid_utf8(bytes) {
        decode_utf8(bytes)
    } else {
        lossy_of(bytes)
    }
}

/// Relies on `String::from_utf8_lossy`: the result is a function of the
/// bytes alone, and a byte sequence that is valid UTF-8 is decoded exactly.
#[verifier::external_body]
pub(crate) fn lossy_string(bytes: &[u8]) -> (r: String)
    ensures
        r@ == lossy_decode(bytes@),
        !valid_utf8(bytes@) ==> r@ == lossy_of(bytes@),
{
    String::from_utf8_lossy(bytes).into_owned()
}

} // verus!

//! UTF-8: which byte strings are text, and how other bytes are read as text.

use vstd::prelude::*;
use vstd::utf8::valid_utf8;

verus! {

/// The UTF-8 text that `String::from_utf8_lossy` reads `bytes` as: bytes
/// that are no part of a character give way to the replacement character,
/// U+FFFD.
pub uninterp spec fn lossy_text(bytes: Seq<u8>) -> Seq<u8>;

/// Calls `core::str::from_utf8` and says whether it accepted the bytes. Not
/// proved: that std accepts exactly the byte strings that `valid_utf8`
/// describes.
#[verifier::external_body]
pub(crate) fn is_utf8(bytes: &[u8]) -> (valid: bool)
    ensures
        valid == valid_utf8(bytes@),
{
    core::str::from_utf8(bytes).is_ok()
}

/// Calls `String::from_utf8_lossy` and hands out the bytes of the string
/// that it gives. Not proved: that the result depends on the bytes alone,
/// and that bytes that are UTF-8 already come back unchanged.
#[verifier::external_body]
pub(crate) fn decode_lossy(bytes: &[u8]) -> (text: Vec<u8>)
    ensures
        text@ == lossy_text(bytes@),
        valid_utf8(bytes@) ==> text@ == bytes@,
{
    String::from_utf8_lossy(bytes).into_owned().into_bytes()
}

} // verus!

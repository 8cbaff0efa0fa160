//! From the bytes of a value to its text.
//!
//! A value is read as UTF-8. Bytes that are not valid UTF-8 never fail a
//! decode: what cannot be read is replaced.

use vstd::prelude::*;
use vstd::utf8::{decode_utf8, valid_utf8};

verus! {

/// What `String::from_utf8_lossy` makes of bytes that are not valid UTF-8: the
/// text in which each part that cannot be read has given way to U+FFFD. It is
/// a function of the bytes alone.
pub uninterp spec fn lossy_text(bytes: Seq<u8>) -> Seq<char>;

/// The text that the bytes of a value stand for: what they encode where they
/// are valid UTF-8, and their lossy reading where they are not.
pub open spec fn text_of(bytes: Seq<u8>) -> Seq<char> {
    if valid_utf8(bytes) {
        decode_utf8(bytes)
    } else {
        lossy_text(bytes)
    }
}

/// Calls `String::from_utf8_lossy` and takes the result as an owned string.
///
/// Not proved, but taken from the documentation of the standard library: valid
/// UTF-8 comes back as the text that it encodes, with nothing replaced, and any
/// other input as its lossy reading, which [`lossy_text`] names. The call never
/// fails.
#[verifier::external_body]
pub(crate) fn decode_text(bytes: &[u8]) -> (text: String)
    ensures
        valid_utf8(bytes@) ==> text@ == decode_utf8(bytes@),
        !valid_utf8(bytes@) ==> text@ == lossy_text(bytes@),
{
    String::from_utf8_lossy(bytes).into_owned()
}

} // verus!

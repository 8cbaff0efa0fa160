//! Elements: a type tag and a value.
//!
//! An element is written as one tag byte, a decimal field that gives the
//! length of the value, a line feed, the bytes of the value, and a closing line
//! feed.

use vstd::prelude::*;
use vstd::slice::slice_subrange;
use crate::digits::{decimal_at, read_decimal};
use crate::error::DecodeError;
use crate::line::{past_closing_byte, skip_closing_byte};
use crate::text::{decode_text, text_of};

verus! {

/// The tag byte and the value bytes of the element that starts at `pos`, and
/// the place right after the element.
///
/// Any byte may serve as a tag. The element is incomplete where the buffer ends
/// before the tag, before the line feed of the length field, or before the
/// value is whole; it is malformed where the length field holds a byte that is
/// neither a digit nor a line feed.
pub open spec fn frame_at(buf: Seq<u8>, pos: int) -> Result<((u8, Seq<u8>), int), DecodeError> {
    if pos >= buf.len() {
        Err(DecodeError::Incomplete)
    } else {
        match decimal_at(buf, pos + 1) {
            Err(e) => Err(e),
            Ok((length, end)) => {
                if end >= buf.len() || end + 1 + length > buf.len() {
                    Err(DecodeError::Incomplete)
                } else {
                    Ok(
                        (
                            (buf[pos], buf.subrange(end + 1, end + 1 + length)),
                            past_closing_byte(buf, end + 1 + length),
                        ),
                    )
                }
            },
        }
    }
}

/// The element that a tag byte and the bytes of a value stand for: the tag as
/// the character with that code point, and the value as text.
pub open spec fn element_of(frame: (u8, Seq<u8>)) -> (char, Seq<char>) {
    (frame.0 as char, text_of(frame.1))
}

/// The element that starts at `pos`, and the place right after it. It fails
/// where [`frame_at`] does.
pub open spec fn element_at(buf: Seq<u8>, pos: int) -> Result<
    ((char, Seq<char>), int),
    DecodeError,
> {
    match frame_at(buf, pos) {
        Err(e) => Err(e),
        Ok((frame, next)) => Ok((element_of(frame), next)),
    }
}

/// Reads the tag and the value bytes of the element at the cursor, the value as
/// a slice of `buf`.
///
/// On success the cursor stands right after the element, its closing byte
/// included. On failure the cursor does not move.
pub fn read_element_frame<'a>(pos: &mut usize, buf: &'a [u8]) -> (r: Result<
    (u8, &'a [u8]),
    DecodeError,
>)
    ensures
        match r {
            Ok((tag, value)) => frame_at(buf@, *old(pos) as int) == Ok::<
                ((u8, Seq<u8>), int),
                DecodeError,
            >(((tag, value@), *final(pos) as int)),
            Err(e) => frame_at(buf@, *old(pos) as int) == Err::<
                ((u8, Seq<u8>), int),
                DecodeError,
            >(e) && *final(pos) == *old(pos),
        },
        r is Ok ==> *old(pos) < *final(pos) <= buf@.len(),
{
    let start: usize = *pos;
    if start >= buf.len() {
        return Err(DecodeError::Incomplete);
    }
    let tag: u8 = buf[start];
    let (length, end) = match read_decimal(buf, start + 1) {
        Ok(field) => field,
        Err(e) => {
            return Err(e);
        },
    };
    if end >= buf.len() {
        return Err(DecodeError::Incomplete);
    }
    let first: usize = end + 1;
    if length > buf.len() - first {
        return Err(DecodeError::Incomplete);
    }
    let last: usize = first + length;
    let value = slice_subrange(buf, first, last);
    *pos = last;
    skip_closing_byte(pos, buf);
    Ok((tag, value))
}

/// Puts an element together from its tag byte and the text of its value.
pub fn make_element(tag: u8, text: String) -> (element: (char, String))
    ensures
        element.0 == tag as char,
        element.1@ == text@,
{
    (tag as char, text)
}

/// Reads the element at the cursor: its tag as a character and its value as
/// text.
///
/// On success the cursor stands right after the element, its closing byte
/// included. On failure the cursor does not move.
pub fn read_element(pos: &mut usize, buf: &[u8]) -> (r: Result<(char, String), DecodeError>)
    ensures
        match r {
            Ok(element) => element_at(buf@, *old(pos) as int) == Ok::<
                ((char, Seq<char>), int),
                DecodeError,
            >(((element.0, element.1@), *final(pos) as int)),
            Err(e) => element_at(buf@, *old(pos) as int) == Err::<
                ((char, Seq<char>), int),
                DecodeError,
            >(e) && *final(pos) == *old(pos),
        },
        r is Ok ==> *old(pos) < *final(pos) <= buf@.len(),
{
    match read_element_frame(pos, buf) {
        Err(e) => Err(e),
        Ok((tag, value)) => Ok(make_element(tag, decode_text(value))),
    }
}

} // verus!

//! Lines that are announced by their length.
//!
//! A line is written as a decimal field, a line feed, and then exactly as many
//! bytes as the field says. Nothing inside those bytes is looked at, so a line
//! may hold line feeds of its own.

use vstd::prelude::*;
use vstd::slice::slice_subrange;
use crate::digits::{decimal_at, read_decimal};
use crate::error::DecodeError;

verus! {

/// The line whose length field starts at `pos`, and the place right after the
/// line's last byte.
///
/// The field is malformed where it holds a byte that is neither a digit nor a
/// line feed, and also where the buffer ends before its line feed. The line is
/// incomplete where the buffer holds fewer bytes after the line feed than the
/// field announces. A length of zero gives the empty line.
pub open spec fn line_at(buf: Seq<u8>, pos: int) -> Result<(Seq<u8>, int), DecodeError> {
    match decimal_at(buf, pos) {
        Err(e) => Err(e),
        Ok((length, end)) => {
            if end >= buf.len() {
                Err(DecodeError::Malformed)
            } else if end + 1 + length > buf.len() {
                Err(DecodeError::Incomplete)
            } else {
                Ok((buf.subrange(end + 1, end + 1 + length), end + 1 + length))
            }
        },
    }
}

/// Where the cursor stands once the byte that closes a line or a value has been
/// passed over. That byte is a line feed in a well-formed response; it is not
/// looked at, and where the buffer has already ended the cursor stays at the
/// end.
pub open spec fn past_closing_byte(buf: Seq<u8>, at: int) -> int {
    if at < buf.len() {
        at + 1
    } else {
        at
    }
}

/// Moves the cursor over the byte that closes a line or a value, if there is
/// one.
pub fn skip_closing_byte(pos: &mut usize, buf: &[u8])
    ensures
        *final(pos) == past_closing_byte(buf@, *old(pos) as int),
{
    if *pos < buf.len() {
        *pos = *pos + 1;
    }
}

/// Reads the line whose length field starts at the cursor and returns it as a
/// slice of `buf`. The byte before the cursor, which says what kind of line
/// this is, has been taken by the caller.
///
/// On success the cursor stands right after the last byte of the line; the line
/// feed that may follow is left to the caller. On failure the cursor does not
/// move.
pub fn read_line_and_return_next_line<'a>(pos: &mut usize, buf: &'a [u8]) -> (r: Result<
    &'a [u8],
    DecodeError,
>)
    ensures
        match r {
            Ok(line) => line_at(buf@, *old(pos) as int) == Ok::<(Seq<u8>, int), DecodeError>(
                (line@, *final(pos) as int),
            ),
            Err(e) => line_at(buf@, *old(pos) as int) == Err::<(Seq<u8>, int), DecodeError>(e)
                && *final(pos) == *old(pos),
        },
        *old(pos) <= *final(pos),
        *old(pos) <= buf@.len() ==> *final(pos) <= buf@.len(),
{
    let start: usize = *pos;
    if start >= buf.len() {
        return Err(DecodeError::Malformed);
    }
    let (length, end) = match read_decimal(buf, start) {
        Ok(field) => field,
        Err(e) => {
            return Err(e);
        },
    };
    if end >= buf.len() {
        return Err(DecodeError::Malformed);
    }
    let first: usize = end + 1;
    if length > buf.len() - first {
        return Err(DecodeError::Incomplete);
    }
    let last: usize = first + length;
    let line = slice_subrange(buf, first, last);
    *pos = last;
    Ok(line)
}

} // verus!

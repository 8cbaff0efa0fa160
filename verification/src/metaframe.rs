//! The metaframe: the preamble that says how many groups a response holds.
//!
//! It is written as the block marker, a line that holds the group-count marker
//! and the number of groups, and the line feed that closes that line.

use vstd::prelude::*;
use crate::count::{count_in, read_count, BLOCK_MARKER, GROUP_COUNT_MARKER};
use crate::digits::capped;
use crate::error::DecodeError;
use crate::line::{
    line_at, past_closing_byte, read_line_and_return_next_line, skip_closing_byte,
};

verus! {

/// The length of the shortest buffer that can hold a metaframe. A shorter one
/// is turned away before any byte is looked at.
pub const SHORTEST_RESPONSE: usize = 6;

/// The number of groups that the metaframe at `pos` announces, and the place
/// where the first group block starts.
///
/// The metaframe is incomplete where the buffer is shorter than
/// [`SHORTEST_RESPONSE`] or ends at `pos`, and malformed where the byte at
/// `pos` is not the block marker. After the marker come a line, read as
/// [`line_at`] says, and the byte that closes it. The line must carry the
/// number of groups behind the group-count marker.
pub open spec fn metaframe_at(buf: Seq<u8>, pos: int) -> Result<(nat, int), DecodeError> {
    if buf.len() < SHORTEST_RESPONSE || pos >= buf.len() {
        Err(DecodeError::Incomplete)
    } else if buf[pos] != BLOCK_MARKER {
        Err(DecodeError::Malformed)
    } else {
        match line_at(buf, pos + 1) {
            Err(e) => Err(e),
            Ok((line, after)) => match count_in(line, GROUP_COUNT_MARKER) {
                Err(e) => Err(e),
                Ok(count) => Ok((count, past_closing_byte(buf, after))),
            },
        }
    }
}

/// Reads the metaframe at the cursor and returns the number of groups that it
/// announces, capped.
///
/// On success the cursor stands where the first group block starts. On failure
/// the cursor does not move.
pub fn read_metaframe(pos: &mut usize, buf: &[u8]) -> (r: Result<usize, DecodeError>)
    ensures
        match r {
            Ok(declared) => metaframe_at(buf@, *old(pos) as int) matches Ok((number, start))
                && declared == capped(number) && *final(pos) == start,
            Err(e) => metaframe_at(buf@, *old(pos) as int) == Err::<(nat, int), DecodeError>(e)
                && *final(pos) == *old(pos),
        },
        r is Ok ==> *old(pos) < *final(pos) <= buf@.len(),
{
    let start: usize = *pos;
    if buf.len() < SHORTEST_RESPONSE || start >= buf.len() {
        return Err(DecodeError::Incomplete);
    }
    if buf[start] != BLOCK_MARKER {
        return Err(DecodeError::Malformed);
    }
    let mut cursor: usize = start + 1;
    let line = match read_line_and_return_next_line(&mut cursor, buf) {
        Ok(line) => line,
        Err(e) => {
            return Err(e);
        },
    };
    skip_closing_byte(&mut cursor, buf);
    match read_count(line, GROUP_COUNT_MARKER) {
        Err(e) => Err(e),
        Ok(declared) => {
            *pos = cursor;
            Ok(declared)
        },
    }
}

} // verus!

//! Content lines that carry a count: one marker byte, then digits to the end
//! of the line.

use vstd::prelude::*;
use crate::digits::{
    accumulate_digit, all_digits, capped, decimal_value, digit_value, is_digit,
    lemma_capped_step,
};
use crate::error::DecodeError;

verus! {

/// `'#'`, the byte that opens the metaframe and every group block.
pub const BLOCK_MARKER: u8 = 35;

/// `'*'`, the byte that opens the line with the number of groups.
pub const GROUP_COUNT_MARKER: u8 = 42;

/// `'&'`, the byte that opens the line with the number of elements of a group.
pub const ARRAY_MARKER: u8 = 38;

/// The count that a content line carries behind `marker`.
///
/// The line is malformed where it is empty, where its first byte is not
/// `marker`, and where a byte after the first is not a digit. A line that holds
/// the marker alone carries zero.
pub open spec fn count_in(line: Seq<u8>, marker: u8) -> Result<nat, DecodeError> {
    if line.len() > 0 && line[0] == marker && all_digits(line.skip(1)) {
        Ok(decimal_value(line.skip(1)))
    } else {
        Err(DecodeError::Malformed)
    }
}

/// Reads the count that `line` carries behind `marker`, capped.
pub fn read_count(line: &[u8], marker: u8) -> (r: Result<usize, DecodeError>)
    ensures
        match r {
            Ok(count) => count_in(line@, marker) matches Ok(number) && count == capped(number),
            Err(e) => count_in(line@, marker) == Err::<nat, DecodeError>(e),
        },
{
    if line.len() == 0 {
        return Err(DecodeError::Malformed);
    }
    if line[0] != marker {
        return Err(DecodeError::Malformed);
    }
    let mut count: usize = 0;
    let mut at: usize = 1;
    while at < line.len()
        invariant
            1 <= at <= line@.len(),
            all_digits(line@.subrange(1, at as int)),
            count == capped(decimal_value(line@.subrange(1, at as int))),
        decreases line@.len() - at,
    {
        let byte = line[at];
        match accumulate_digit(count, byte) {
            Err(e) => {
                assert(line@.skip(1)[at - 1] == byte);
                return Err(e);
            },
            Ok(next) => {
                proof {
                    let before = line@.subrange(1, at as int);
                    let after = line@.subrange(1, at + 1);
                    assert(after.drop_last() == before);
                    assert forall|i: int| 0 <= i < after.len() implies is_digit(
                        #[trigger] after[i],
                    ) by {
                        if i < before.len() {
                            assert(after[i] == before[i]);
                        }
                    }
                    lemma_capped_step(decimal_value(before), digit_value(byte));
                }
                count = next;
                at += 1;
            },
        }
    }
    assert(line@.skip(1) == line@.subrange(1, at as int));
    Ok(count)
}

} // verus!

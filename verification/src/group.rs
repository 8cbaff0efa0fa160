//! Groups: a block that announces a number of elements, and the elements.
//!
//! A group is written as the block marker, a line that holds the array marker
//! and the number of elements, the line feed that closes that line, and then
//! the elements one after the other.

use vstd::prelude::*;
use crate::count::{count_in, read_count, ARRAY_MARKER, BLOCK_MARKER};
use crate::digits::capped;
use crate::element::{element_at, read_element};
use crate::error::DecodeError;
use crate::line::{
    line_at, past_closing_byte, read_line_and_return_next_line, skip_closing_byte,
};

verus! {

/// `rest` with `items` put in front of what it read. A failure stays as it is.
pub open spec fn preceded_by<T>(items: Seq<T>, rest: Result<(Seq<T>, int), DecodeError>) -> Result<
    (Seq<T>, int),
    DecodeError,
> {
    match rest {
        Err(e) => Err(e),
        Ok((more, end)) => Ok((items + more, end)),
    }
}

/// Putting `items` and then one more in front is putting all of them in front.
pub proof fn lemma_preceded_by_push<T>(
    items: Seq<T>,
    item: T,
    rest: Result<(Seq<T>, int), DecodeError>,
)
    ensures
        preceded_by(items, preceded_by(seq![item], rest)) == preceded_by(items.push(item), rest),
{
    if let Ok((more, end)) = rest {
        assert(items + (seq![item] + more) =~= items.push(item) + more);
    }
}

/// The elements read from `pos` on, in the order in which they stand, and the
/// place where reading stops.
///
/// Reading stops when `remaining` elements have been read or when the buffer is
/// used up, whichever comes first: a buffer that ends between two elements is
/// no failure here. An element that fails makes the whole reading fail.
pub open spec fn elements_from(buf: Seq<u8>, pos: int, remaining: nat) -> Result<
    (Seq<(char, Seq<char>)>, int),
    DecodeError,
>
    decreases remaining,
{
    if remaining == 0 || pos >= buf.len() {
        Ok((Seq::empty(), pos))
    } else {
        match element_at(buf, pos) {
            Err(e) => Err(e),
            Ok((element, next)) => preceded_by(
                seq![element],
                elements_from(buf, next, (remaining - 1) as nat),
            ),
        }
    }
}

/// The group whose block starts at `pos`, and the place where its last element
/// ends.
///
/// The group is incomplete where the buffer ends at `pos`, and malformed where
/// the byte there is not the block marker. After the marker come a line, read
/// as [`line_at`] says, and the byte that closes it. The line must carry the
/// number of elements behind the array marker. Then the elements are read as
/// [`elements_from`] says.
pub open spec fn group_at(buf: Seq<u8>, pos: int) -> Result<
    (Seq<(char, Seq<char>)>, int),
    DecodeError,
> {
    if pos >= buf.len() {
        Err(DecodeError::Incomplete)
    } else if buf[pos] != BLOCK_MARKER {
        Err(DecodeError::Malformed)
    } else {
        match line_at(buf, pos + 1) {
            Err(e) => Err(e),
            Ok((line, after)) => match count_in(line, ARRAY_MARKER) {
                Err(e) => Err(e),
                Ok(count) => elements_from(buf, past_closing_byte(buf, after), count),
            },
        }
    }
}

/// Reads the group whose block starts at the cursor.
///
/// On success the cursor stands right after the last element read. On failure
/// the cursor does not move.
pub fn read_group(pos: &mut usize, buf: &[u8]) -> (r: Result<Vec<(char, String)>, DecodeError>)
    ensures
        match r {
            Ok(elements) => group_at(buf@, *old(pos) as int) == Ok::<
                (Seq<(char, Seq<char>)>, int),
                DecodeError,
            >((elements.deep_view(), *final(pos) as int)),
            Err(e) => group_at(buf@, *old(pos) as int) == Err::<
                (Seq<(char, Seq<char>)>, int),
                DecodeError,
            >(e) && *final(pos) == *old(pos),
        },
        r is Ok ==> *old(pos) < *final(pos) <= buf@.len(),
{
    let start: usize = *pos;
    if start >= buf.len() {
        return Err(DecodeError::Incomplete);
    }
    if buf[start] != BLOCK_MARKER {
        return Err(DecodeError::Malformed);
    }
    let mut cursor: usize = start + 1;
    let line = match read_line_and_return_next_line(&mut cursor, buf) {
        Ok(line) => line,
        Err(e) => {
            return Err(e);
        },
    };
    skip_closing_byte(&mut cursor, buf);
    let count = match read_count(line, ARRAY_MARKER) {
        Ok(count) => count,
        Err(e) => {
            return Err(e);
        },
    };
    let ghost first = cursor as int;
    let ghost number = count_in(line@, ARRAY_MARKER)->Ok_0;
    let mut elements: Vec<(char, String)> = Vec::new();
    assert(elements.deep_view() =~= Seq::empty());
    assert(preceded_by(Seq::empty(), elements_from(buf@, first, number)) == elements_from(
        buf@,
        first,
        number,
    )) by {
        if let Ok((more, end)) = elements_from(buf@, first, number) {
            assert(Seq::<(char, Seq<char>)>::empty() + more =~= more);
        }
    }
    while cursor < buf.len() && elements.len() < count
        invariant
            *pos == *old(pos),
            start == *old(pos),
            1 <= first <= cursor <= buf@.len(),
            elements.len() <= cursor - first,
            elements.len() <= number,
            count == capped(number),
            group_at(buf@, start as int) == elements_from(buf@, first, number),
            elements_from(buf@, first, number) == preceded_by(
                elements.deep_view(),
                elements_from(buf@, cursor as int, (number - elements.len()) as nat),
            ),
        decreases buf@.len() - cursor,
    {
        let ghost before = elements.deep_view();
        let ghost at = cursor as int;
        match read_element(&mut cursor, buf) {
            Err(e) => {
                return Err(e);
            },
            Ok(element) => {
                let ghost item = (element.0, element.1@);
                elements.push(element);
                proof {
                    assert(elements.deep_view() =~= before.push(item));
                    lemma_preceded_by_push(
                        before,
                        item,
                        elements_from(buf@, cursor as int, (number - elements.len()) as nat),
                    );
                }
            },
        }
    }
    proof {
        let rest = elements_from(buf@, cursor as int, (number - elements.len()) as nat);
        assert(rest == Ok::<(Seq<(char, Seq<char>)>, int), DecodeError>(
            (Seq::empty(), cursor as int),
        ));
        assert(elements.deep_view() + Seq::empty() =~= elements.deep_view());
    }
    *pos = cursor;
    Ok(elements)
}

} // verus!

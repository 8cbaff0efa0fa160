//! What the reader makes of written parts.
//!
//! The lemmas here follow the reader through a buffer that holds a written
//! part at some place: the whole of it, with or without more bytes behind, or
//! only a beginning of it because the buffer ends first.

use vstd::prelude::*;
use crate::count::{count_in, ARRAY_MARKER, BLOCK_MARKER};
use crate::digits::{
    all_digits, decimal_at, decimal_value, is_digit, lemma_digits_end_at, LINE_FEED,
};
use crate::element::frame_at;
use crate::error::DecodeError;
use crate::group::{elements_from, group_at, preceded_by};
use crate::line::line_at;
use crate::response::groups_from;
use crate::written::{
    block_bytes, block_well_formed, elements_bytes, elements_read, elements_well_formed,
    groups_bytes, groups_read, groups_well_formed, kept_elements, line_bytes, WireElement,
    WireGroup,
};

verus! {

/// Whether `buf` holds `written` from `pos` on, as far as `buf` goes: every
/// byte of `written` whose place lies inside `buf` is there.
pub open spec fn agrees(buf: Seq<u8>, pos: int, written: Seq<u8>) -> bool {
    &&& 0 <= pos <= buf.len()
    &&& forall|i: int|
        0 <= i < written.len() && pos + i < buf.len() ==> buf[pos + i] == #[trigger] written[i]
}

/// A buffer that holds two parts in a row holds the first, and the second
/// behind it.
pub proof fn lemma_agrees_split(buf: Seq<u8>, pos: int, first: Seq<u8>, second: Seq<u8>)
    requires
        agrees(buf, pos, first + second),
    ensures
        agrees(buf, pos, first),
        pos + first.len() <= buf.len() ==> agrees(buf, pos + first.len(), second),
{
    let both = first + second;
    assert forall|i: int| 0 <= i < first.len() && pos + i < buf.len() implies buf[pos + i]
        == #[trigger] first[i] by {
        assert(both[i] == first[i]);
    }
    if pos + first.len() <= buf.len() {
        assert forall|i: int|
            0 <= i < second.len() && pos + first.len() + i < buf.len() implies buf[pos
            + first.len() + i] == #[trigger] second[i] by {
            assert(both[first.len() + i] == second[i]);
        }
    }
}

/// A written decimal field reads as its value, up to its line feed; where the
/// buffer ends inside the field or right behind it, the digits are read up to
/// the end of the buffer.
pub proof fn lemma_decimal_field(buf: Seq<u8>, pos: int, field: Seq<u8>)
    requires
        agrees(buf, pos, field.push(LINE_FEED)),
        all_digits(field),
    ensures
        pos + field.len() < buf.len() ==> decimal_at(buf, pos) == Ok::<(nat, int), DecodeError>(
            (decimal_value(field), pos + field.len()),
        ),
        pos + field.len() >= buf.len() ==> (decimal_at(buf, pos) matches Ok((_, end)) && end
            == buf.len()),
{
    let written = field.push(LINE_FEED);
    let end = if pos + field.len() < buf.len() {
        pos + field.len()
    } else {
        buf.len() as int
    };
    assert forall|i: int| pos <= i < end implies is_digit(#[trigger] buf[i]) by {
        assert(written[i - pos] == field[i - pos]);
    }
    if end < buf.len() {
        assert(written[field.len() as int] == LINE_FEED);
        assert(buf[end] == LINE_FEED);
        assert(buf.subrange(pos, end) =~= field) by {
            assert forall|i: int| 0 <= i < field.len() implies buf.subrange(pos, end)[i]
                == field[i] by {
                assert(written[i] == field[i]);
            }
        }
    }
    lemma_digits_end_at(buf, pos, end);
}

/// A written line reads as its content. Where the buffer ends before the line
/// feed of the length field the line is malformed, and where it ends inside the
/// content the line is incomplete.
pub proof fn lemma_line(buf: Seq<u8>, pos: int, length: Seq<u8>, content: Seq<u8>)
    requires
        agrees(buf, pos, line_bytes(length, content)),
        all_digits(length),
        decimal_value(length) == content.len(),
    ensures
        buf.len() <= pos + length.len() ==> line_at(buf, pos) == Err::<
            (Seq<u8>, int),
            DecodeError,
        >(DecodeError::Malformed),
        pos + length.len() < buf.len() < pos + line_bytes(length, content).len() ==> line_at(
            buf,
            pos,
        ) == Err::<(Seq<u8>, int), DecodeError>(DecodeError::Incomplete),
        pos + line_bytes(length, content).len() <= buf.len() ==> line_at(buf, pos) == Ok::<
            (Seq<u8>, int),
            DecodeError,
        >((content, pos + line_bytes(length, content).len())),
{
    lemma_agrees_split(buf, pos, length.push(LINE_FEED), content);
    lemma_decimal_field(buf, pos, length);
    let first = pos + length.len() + 1;
    if first + content.len() <= buf.len() {
        assert(buf.subrange(first, first + content.len()) =~= content);
    }
}

/// A written element reads as its tag and its value as soon as the buffer holds
/// it up to its value; the closing line feed may be missing. Where the buffer
/// ends earlier in the element, the element is incomplete.
pub proof fn lemma_frame(buf: Seq<u8>, pos: int, element: WireElement)
    requires
        agrees(buf, pos, element.bytes()),
        element.well_formed(),
        pos < buf.len(),
    ensures
        buf.len() + 1 < pos + element.bytes().len() ==> frame_at(buf, pos) == Err::<
            ((u8, Seq<u8>), int),
            DecodeError,
        >(DecodeError::Incomplete),
        buf.len() + 1 == pos + element.bytes().len() ==> frame_at(buf, pos) == Ok::<
            ((u8, Seq<u8>), int),
            DecodeError,
        >(((element.tag, element.value), buf.len() as int)),
        pos + element.bytes().len() <= buf.len() ==> frame_at(buf, pos) == Ok::<
            ((u8, Seq<u8>), int),
            DecodeError,
        >(((element.tag, element.value), pos + element.bytes().len())),
{
    let line = line_bytes(element.length, element.value);
    lemma_agrees_split(buf, pos, seq![element.tag], line.push(LINE_FEED));
    assert(seq![element.tag][0] == element.tag);
    assert(line.push(LINE_FEED) =~= line + seq![LINE_FEED]);
    lemma_agrees_split(buf, pos + 1, line, seq![LINE_FEED]);
    lemma_agrees_split(buf, pos + 1, element.length.push(LINE_FEED), element.value);
    lemma_decimal_field(buf, pos + 1, element.length);
    let first = pos + 1 + element.length.len() + 1;
    if first + element.value.len() <= buf.len() {
        assert(buf.subrange(first, first + element.value.len()) =~= element.value);
    }
}

/// The end of a written part as a reader of `buf` reaches it: the place right
/// after the part, or the end of the buffer where that comes first.
pub open spec fn reach(buf: Seq<u8>, pos: int, written: Seq<u8>) -> int {
    if pos + written.len() <= buf.len() {
        pos + written.len()
    } else {
        buf.len() as int
    }
}

/// Written elements read as the elements that are still there, up to the end
/// of the buffer; if the buffer tears one of them the reading is incomplete.
pub proof fn lemma_elements(buf: Seq<u8>, pos: int, elements: Seq<WireElement>)
    requires
        agrees(buf, pos, elements_bytes(elements)),
        elements_well_formed(elements),
    ensures
        match kept_elements(elements, buf.len() - pos) {
            None => elements_from(buf, pos, elements.len()) == Err::<
                (Seq<(char, Seq<char>)>, int),
                DecodeError,
            >(DecodeError::Incomplete),
            Some(kept) => kept <= elements.len() && elements_from(buf, pos, elements.len())
                == Ok::<(Seq<(char, Seq<char>)>, int), DecodeError>(
                (
                    elements_read(elements).take(kept as int),
                    reach(buf, pos, elements_bytes(elements)),
                ),
            ),
        },
        pos + elements_bytes(elements).len() <= buf.len() ==> kept_elements(
            elements,
            buf.len() - pos,
        ) == Some(elements.len()),
    decreases elements.len(),
{
    if elements.len() == 0 {
        assert(elements_read(elements).take(0) =~= Seq::empty());
    } else if buf.len() - pos <= 0 {
        assert(elements_read(elements).take(0) =~= Seq::empty());
    } else {
        let first = elements[0];
        let rest = elements.drop_first();
        let size = first.bytes().len();
        assert(elements_well_formed(rest)) by {
            assert forall|i: int| 0 <= i < rest.len() implies (
                #[trigger] rest[i]
            ).well_formed() by {
                assert(rest[i] == elements[i + 1]);
            }
        }
        lemma_agrees_split(buf, pos, first.bytes(), elements_bytes(rest));
        lemma_frame(buf, pos, first);
        if buf.len() + 1 < pos + size {
        } else if buf.len() + 1 == pos + size {
            assert(elements_from(buf, buf.len() as int, rest.len()) == Ok::<
                (Seq<(char, Seq<char>)>, int),
                DecodeError,
            >((Seq::empty(), buf.len() as int)));
            assert(seq![first.read()] + Seq::empty() =~= elements_read(elements).take(1));
        } else {
            lemma_elements(buf, pos + size, rest);
            match kept_elements(rest, buf.len() - (pos + size)) {
                None => {},
                Some(kept) => {
                    assert(seq![first.read()] + elements_read(rest).take(kept as int)
                        =~= elements_read(elements).take(kept as int + 1));
                },
            }
        }
    }
}

/// A written block reads as the line that holds its marker and its count, and
/// that line carries the count. Where the buffer ends inside the block, the
/// line is malformed or incomplete as [`lemma_line`] says.
pub proof fn lemma_block(
    buf: Seq<u8>,
    pos: int,
    line_length: Seq<u8>,
    marker: u8,
    count: Seq<u8>,
    number: nat,
)
    requires
        agrees(buf, pos, block_bytes(line_length, marker, count)),
        block_well_formed(line_length, count, number),
        pos < buf.len(),
    ensures
        buf[pos] == BLOCK_MARKER,
        count_in(seq![marker] + count, marker) == Ok::<nat, DecodeError>(number),
        buf.len() <= pos + 1 + line_length.len() ==> line_at(buf, pos + 1) == Err::<
            (Seq<u8>, int),
            DecodeError,
        >(DecodeError::Malformed),
        pos + 1 + line_length.len() < buf.len() && buf.len() + 1 < pos + block_bytes(
            line_length,
            marker,
            count,
        ).len() ==> line_at(buf, pos + 1) == Err::<(Seq<u8>, int), DecodeError>(
            DecodeError::Incomplete,
        ),
        pos + block_bytes(line_length, marker, count).len() <= buf.len() + 1 ==> line_at(
            buf,
            pos + 1,
        ) == Ok::<(Seq<u8>, int), DecodeError>(
            (seq![marker] + count, pos + block_bytes(line_length, marker, count).len() - 1),
        ),
{
    let content = seq![marker] + count;
    let line = line_bytes(line_length, content);
    lemma_agrees_split(buf, pos, seq![BLOCK_MARKER], line.push(LINE_FEED));
    assert(seq![BLOCK_MARKER][0] == BLOCK_MARKER);
    assert(line.push(LINE_FEED) =~= line + seq![LINE_FEED]);
    lemma_agrees_split(buf, pos + 1, line, seq![LINE_FEED]);
    lemma_line(buf, pos + 1, line_length, content);
    assert(content.skip(1) =~= count);
    assert(content[0] == marker);
}

/// A written group reads as the elements that are still there, up to the end
/// of the buffer. Where the buffer ends inside the block of the group, the
/// group is malformed or incomplete; where it tears an element, incomplete.
pub proof fn lemma_group(buf: Seq<u8>, pos: int, group: WireGroup)
    requires
        agrees(buf, pos, group.bytes()),
        group.well_formed(),
        pos < buf.len(),
    ensures
        buf.len() <= pos + 1 + group.line_length.len() ==> group_at(buf, pos) == Err::<
            (Seq<(char, Seq<char>)>, int),
            DecodeError,
        >(DecodeError::Malformed),
        pos + 1 + group.line_length.len() < buf.len() && buf.len() + 1 < pos
            + group.block().len() ==> group_at(buf, pos) == Err::<
            (Seq<(char, Seq<char>)>, int),
            DecodeError,
        >(DecodeError::Incomplete),
        pos + group.block().len() <= buf.len() + 1 ==> match kept_elements(
            group.elements,
            buf.len() - (pos + group.block().len()),
        ) {
            None => group_at(buf, pos) == Err::<(Seq<(char, Seq<char>)>, int), DecodeError>(
                DecodeError::Incomplete,
            ),
            Some(kept) => kept <= group.elements.len() && group_at(buf, pos) == Ok::<
                (Seq<(char, Seq<char>)>, int),
                DecodeError,
            >((group.read().take(kept as int), reach(buf, pos, group.bytes()))),
        },
        pos + group.bytes().len() <= buf.len() ==> kept_elements(
            group.elements,
            buf.len() - (pos + group.block().len()),
        ) == Some(group.elements.len()),
{
    let block = group.block();
    lemma_agrees_split(buf, pos, block, elements_bytes(group.elements));
    lemma_block(
        buf,
        pos,
        group.line_length,
        ARRAY_MARKER,
        group.count,
        group.elements.len(),
    );
    if pos + block.len() == buf.len() + 1 {
        assert(group.read().take(0) =~= Seq::empty());
    } else if pos + block.len() <= buf.len() {
        lemma_elements(buf, pos + block.len(), group.elements);
    }
}

/// Putting two runs of items in front, one after the other, is putting their
/// concatenation in front.
pub proof fn lemma_preceded_by_twice<T>(
    first: Seq<T>,
    second: Seq<T>,
    rest: Result<(Seq<T>, int), DecodeError>,
)
    ensures
        preceded_by(first, preceded_by(second, rest)) == preceded_by(first + second, rest),
{
    if let Ok((more, end)) = rest {
        assert(first + (second + more) =~= (first + second) + more);
    }
}

/// The bytes of a run of groups end with the bytes of the last group.
pub proof fn lemma_groups_size(groups: Seq<WireGroup>)
    requires
        groups.len() > 0,
    ensures
        groups_bytes(groups).len() == groups_bytes(groups.drop_last()).len()
            + groups.last().bytes().len(),
    decreases groups.len(),
{
    let rest = groups.drop_first();
    if rest.len() == 0 {
        assert(groups.drop_last() =~= rest);
    } else {
        lemma_groups_size(rest);
        assert(groups.drop_last().drop_first() =~= rest.drop_last());
        assert(groups.drop_last()[0] == groups[0]);
    }
}

/// Well-formed groups stay well formed without the first of them.
pub proof fn lemma_rest_well_formed(groups: Seq<WireGroup>)
    requires
        groups.len() > 0,
        groups_well_formed(groups),
    ensures
        groups[0].well_formed(),
        groups_well_formed(groups.drop_first()),
{
    let rest = groups.drop_first();
    assert forall|i: int| 0 <= i < rest.len() implies (#[trigger] rest[i]).well_formed() by {
        assert(rest[i] == groups[i + 1]);
    }
}

/// A written group that the buffer holds whole reads as that group, and the
/// reader goes on behind it.
pub proof fn lemma_group_whole(
    buf: Seq<u8>,
    pos: int,
    group: WireGroup,
    declared: nat,
    have: nat,
)
    requires
        agrees(buf, pos, group.bytes()),
        group.well_formed(),
        pos + group.bytes().len() <= buf.len(),
        have <= declared,
    ensures
        groups_from(buf, pos, declared, have) == preceded_by(
            seq![group.read()],
            groups_from(buf, pos + group.bytes().len(), declared, have + 1),
        ),
{
    lemma_group(buf, pos, group);
    assert(group.read().take(group.elements.len() as int) =~= group.read());
}

/// A written group in a buffer that ends inside it. Where the buffer holds the
/// group up to some of its elements, the group is read with the elements that
/// are still there, and it is the last one read. Otherwise the reading fails.
pub proof fn lemma_group_cut(buf: Seq<u8>, pos: int, group: WireGroup, declared: nat, have: nat)
    requires
        agrees(buf, pos, group.bytes()),
        group.well_formed(),
        pos < buf.len() < pos + group.bytes().len(),
        have <= declared,
    ensures
        buf.len() + 1 < pos + group.block().len() ==> (groups_from(buf, pos, declared, have)
            matches Err(e) && (e == DecodeError::Incomplete || e == DecodeError::Malformed)),
        pos + group.block().len() <= buf.len() + 1 ==> match kept_elements(
            group.elements,
            buf.len() - (pos + group.block().len()),
        ) {
            None => groups_from(buf, pos, declared, have) == Err::<
                (Seq<Seq<(char, Seq<char>)>>, int),
                DecodeError,
            >(DecodeError::Incomplete),
            Some(kept) => kept <= group.elements.len() && groups_from(buf, pos, declared, have)
                == Ok::<(Seq<Seq<(char, Seq<char>)>>, int), DecodeError>(
                (seq![group.read().take(kept as int)], buf.len() as int),
            ),
        },
{
    lemma_group(buf, pos, group);
    assert(groups_from(buf, buf.len() as int, declared, have + 1) == Ok::<
        (Seq<Seq<(char, Seq<char>)>>, int),
        DecodeError,
    >((Seq::empty(), buf.len() as int)));
    if pos + group.block().len() <= buf.len() + 1 {
        if let Some(kept) = kept_elements(
            group.elements,
            buf.len() - (pos + group.block().len()),
        ) {
            let partial = group.read().take(kept as int);
            assert(seq![partial] + Seq::empty() =~= seq![partial]);
        }
    }
}

/// Written groups that the buffer holds whole read as those groups, and the
/// reader goes on behind them.
pub proof fn lemma_groups(
    buf: Seq<u8>,
    pos: int,
    groups: Seq<WireGroup>,
    declared: nat,
    have: nat,
)
    requires
        agrees(buf, pos, groups_bytes(groups)),
        groups_well_formed(groups),
        pos + groups_bytes(groups).len() <= buf.len(),
        have + groups.len() <= declared + 1,
    ensures
        groups_from(buf, pos, declared, have) == preceded_by(
            groups_read(groups),
            groups_from(buf, pos + groups_bytes(groups).len(), declared, have + groups.len()),
        ),
    decreases groups.len(),
{
    if groups.len() == 0 {
        assert(groups_read(groups) =~= Seq::empty());
        if let Ok((more, end)) = groups_from(buf, pos, declared, have) {
            assert(Seq::<Seq<(char, Seq<char>)>>::empty() + more =~= more);
        }
    } else {
        let first = groups[0];
        let rest = groups.drop_first();
        let size = first.bytes().len();
        lemma_rest_well_formed(groups);
        lemma_agrees_split(buf, pos, first.bytes(), groups_bytes(rest));
        lemma_group_whole(buf, pos, first, declared, have);
        lemma_groups(buf, pos + size, rest, declared, have + 1);
        lemma_preceded_by_twice(
            seq![first.read()],
            groups_read(rest),
            groups_from(buf, pos + groups_bytes(groups).len(), declared, have + groups.len()),
        );
        assert(seq![first.read()] + groups_read(rest) =~= groups_read(groups));
    }
}

/// Where the elements of the last of `groups` start, counted from where the
/// groups start.
pub open spec fn last_elements_offset(groups: Seq<WireGroup>) -> int
    recommends
        groups.len() > 0,
{
    groups_bytes(groups).len() - elements_bytes(groups.last().elements).len()
}

/// How many elements of the last of `groups` are still there when only the
/// first `held` bytes of the groups are left, if no more than whole elements of
/// that group and the line feed before them are missing.
pub open spec fn kept_in_groups(groups: Seq<WireGroup>, held: int) -> Option<nat> {
    if groups.len() == 0 || held + 1 < last_elements_offset(groups) {
        None
    } else {
        kept_elements(groups.last().elements, held - last_elements_offset(groups))
    }
}

/// [`kept_in_groups`] group by group: with one group it looks at the elements
/// of that group, and with more it passes over the first group.
pub proof fn lemma_kept_in_groups(groups: Seq<WireGroup>, held: int)
    requires
        groups.len() > 0,
    ensures
        groups.len() == 1 ==> kept_in_groups(groups, held) == (if held + 1
            < groups[0].block().len() {
            None
        } else {
            kept_elements(groups[0].elements, held - groups[0].block().len())
        }),
        groups.len() > 1 ==> kept_in_groups(groups, held) == (if held
            <= groups[0].bytes().len() {
            None
        } else {
            kept_in_groups(groups.drop_first(), held - groups[0].bytes().len())
        }),
{
    let rest = groups.drop_first();
    if rest.len() == 0 {
        assert(groups_bytes(rest).len() == 0);
    } else {
        lemma_groups_size(rest);
        assert(groups.last() == rest.last());
        assert(rest.last().block().len() >= 4);
    }
}

/// The groups read from all written groups but the last, with one more group
/// behind them, are the first group read and then the others.
proof fn lemma_read_but_last(groups: Seq<WireGroup>, last: Seq<(char, Seq<char>)>)
    requires
        groups.len() > 1,
    ensures
        seq![groups[0].read()] + groups_read(groups.drop_first().drop_last()).push(last)
            == groups_read(groups.drop_last()).push(last),
{
    assert(groups.drop_last().drop_first() =~= groups.drop_first().drop_last());
    assert(seq![groups[0].read()] + groups_read(groups.drop_first().drop_last()).push(last)
        =~= groups_read(groups.drop_last()).push(last));
}

/// What [`lemma_groups_cut`] says of a reading `read` of written `groups` from
/// a buffer of which the groups have `held` bytes and which ends at `end`.
pub open spec fn cut_reading(
    groups: Seq<WireGroup>,
    held: int,
    end: int,
    read: Result<(Seq<Seq<(char, Seq<char>)>>, int), DecodeError>,
) -> bool {
    match kept_in_groups(groups, held) {
        Some(kept) => kept <= groups.last().elements.len() && read == Ok::<
            (Seq<Seq<(char, Seq<char>)>>, int),
            DecodeError,
        >((groups_read(groups.drop_last()).push(groups.last().read().take(kept as int)), end)),
        None => match read {
            Err(e) => e == DecodeError::Incomplete || e == DecodeError::Malformed,
            Ok((read, stop)) => stop >= end && read.len() < groups.len(),
        },
    }
}

/// [`lemma_groups_cut`] for a buffer that ends inside the first group or
/// before it.
proof fn lemma_groups_cut_early(
    buf: Seq<u8>,
    pos: int,
    groups: Seq<WireGroup>,
    declared: nat,
    have: nat,
)
    requires
        groups.len() > 0,
        agrees(buf, pos, groups[0].bytes()),
        groups[0].well_formed(),
        buf.len() < pos + groups[0].bytes().len(),
        have <= declared,
    ensures
        cut_reading(
            groups,
            buf.len() - pos,
            buf.len() as int,
            groups_from(buf, pos, declared, have),
        ),
{
    let first = groups[0];
    let held = buf.len() - pos;
    lemma_kept_in_groups(groups, held);
    if held == 0 {
        assert(first.block().len() >= 4);
    } else {
        lemma_group_cut(buf, pos, first, declared, have);
        if groups.len() == 1 {
            assert(groups.drop_last() =~= Seq::empty());
            if let Some(kept) = kept_in_groups(groups, held) {
                let partial = first.read().take(kept as int);
                assert(groups_read(groups.drop_last()).push(partial) =~= seq![partial]);
            }
        }
    }
}

/// [`lemma_groups_cut`] for a buffer that ends right behind the first of
/// several groups.
proof fn lemma_groups_cut_between(
    buf: Seq<u8>,
    pos: int,
    groups: Seq<WireGroup>,
    declared: nat,
    have: nat,
)
    requires
        groups.len() > 1,
        agrees(buf, pos, groups[0].bytes()),
        groups[0].well_formed(),
        buf.len() == pos + groups[0].bytes().len(),
        have <= declared,
    ensures
        cut_reading(
            groups,
            buf.len() - pos,
            buf.len() as int,
            groups_from(buf, pos, declared, have),
        ),
{
    let first = groups[0];
    lemma_kept_in_groups(groups, buf.len() - pos);
    lemma_group_whole(buf, pos, first, declared, have);
    assert(groups_from(buf, buf.len() as int, declared, have + 1) == Ok::<
        (Seq<Seq<(char, Seq<char>)>>, int),
        DecodeError,
    >((Seq::empty(), buf.len() as int)));
    assert(seq![first.read()] + Seq::empty() =~= seq![first.read()]);
}

/// Written groups in a buffer that ends before they do. Where the buffer still
/// holds the last group up to some of its elements, all groups are read, the
/// last one with the elements that are still there. Otherwise the reading
/// fails, or it stops with fewer groups than were written.
pub proof fn lemma_groups_cut(
    buf: Seq<u8>,
    pos: int,
    groups: Seq<WireGroup>,
    declared: nat,
    have: nat,
)
    requires
        agrees(buf, pos, groups_bytes(groups)),
        groups_well_formed(groups),
        buf.len() < pos + groups_bytes(groups).len(),
        have + groups.len() <= declared + 1,
    ensures
        cut_reading(
            groups,
            buf.len() - pos,
            buf.len() as int,
            groups_from(buf, pos, declared, have),
        ),
    decreases groups.len(),
{
    let first = groups[0];
    let rest = groups.drop_first();
    let size = first.bytes().len();
    let held = buf.len() - pos;
    lemma_rest_well_formed(groups);
    lemma_agrees_split(buf, pos, first.bytes(), groups_bytes(rest));
    if held < size {
        lemma_groups_cut_early(buf, pos, groups, declared, have);
    } else if held == size {
        lemma_groups_cut_between(buf, pos, groups, declared, have);
    } else {
        lemma_kept_in_groups(groups, held);
        lemma_group_whole(buf, pos, first, declared, have);
        lemma_groups_cut(buf, pos + size, rest, declared, have + 1);
        let behind = groups_from(buf, pos + size, declared, have + 1);
        assert(groups_from(buf, pos, declared, have) == preceded_by(seq![first.read()], behind));
        assert(cut_reading(rest, held - size, buf.len() as int, behind));
        assert(groups.last() == rest.last());
        match kept_in_groups(rest, held - size) {
            Some(kept) => {
                lemma_read_but_last(groups, rest.last().read().take(kept as int));
            },
            None => {},
        }
    }
}

} // verus!

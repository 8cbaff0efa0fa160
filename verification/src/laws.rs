//! What holds of the decoder on every buffer of a kind.
//!
//! The laws speak of [`decode`], which is what [`crate::parse`] returns, and of
//! well-formed responses as the module `written` describes them.

use vstd::prelude::*;
use vstd::utf8::{encode_utf8, encode_utf8_decode_utf8, encode_utf8_valid_utf8};
use crate::count::{count_in, ARRAY_MARKER, GROUP_COUNT_MARKER};
use crate::digits::{digits_end, is_digit, lemma_digits_end, LINE_FEED};
use crate::element::{element_at, frame_at};
use crate::error::DecodeError;
use crate::group::group_at;
use crate::line::line_at;
use crate::metaframe::{metaframe_at, SHORTEST_RESPONSE};
use crate::reading::{
    agrees, cut_reading, kept_in_groups, lemma_agrees_split, lemma_block, lemma_groups,
    lemma_groups_cut, lemma_groups_size, reach,
};
use crate::response::{decode, groups_from};
use crate::text::text_of;
use crate::written::{
    encode, fits_tag, groups_bytes, groups_read, lemma_plain_is_well_formed, tags_fit,
    WireElement, WireGroup, WireResponse,
};

verus! {

/// The metaframe of a written response reads as the number of its groups as
/// soon as the buffer holds it up to its last line feed, and fails where the
/// buffer ends earlier.
proof fn lemma_metaframe(buf: Seq<u8>, response: WireResponse)
    requires
        agrees(buf, 0, response.bytes()),
        response.well_formed(),
        buf.len() >= SHORTEST_RESPONSE,
    ensures
        response.metaframe().len() >= SHORTEST_RESPONSE,
        buf.len() + 1 < response.metaframe().len() ==> (metaframe_at(buf, 0) matches Err(e) && (e
            == DecodeError::Incomplete || e == DecodeError::Malformed)),
        response.metaframe().len() <= buf.len() + 1 ==> metaframe_at(buf, 0) == Ok::<
            (nat, int),
            DecodeError,
        >((response.groups.len(), reach(buf, 0, response.metaframe()))),
{
    lemma_agrees_split(buf, 0, response.metaframe(), groups_bytes(response.groups));
    lemma_block(
        buf,
        0,
        response.line_length,
        GROUP_COUNT_MARKER,
        response.count,
        response.groups.len(),
    );
}

/// What a well-formed response decodes to when the buffer holds it and
/// nothing else: its one group, and for any other number of groups the answer
/// that such a response is not supported.
proof fn lemma_whole_response(response: WireResponse)
    requires
        response.well_formed(),
    ensures
        response.groups.len() == 1 ==> decode(response.bytes()) == Ok::<
            Seq<Seq<(char, Seq<char>)>>,
            DecodeError,
        >(seq![response.groups[0].read()]),
        response.groups.len() != 1 ==> decode(response.bytes()) == Err::<
            Seq<Seq<(char, Seq<char>)>>,
            DecodeError,
        >(DecodeError::Unsupported),
{
    let buf = response.bytes();
    let groups = response.groups;
    let start = response.metaframe().len() as int;
    lemma_block_size(response);
    lemma_metaframe(buf, response);
    lemma_agrees_split(buf, 0, response.metaframe(), groups_bytes(groups));
    lemma_groups(buf, start, groups, groups.len(), 0);
    assert(groups_read(groups) + Seq::empty() =~= groups_read(groups));
    if groups.len() == 1 {
        assert(groups_read(groups) =~= seq![groups[0].read()]);
    }
}

/// A metaframe is at least as long as the shortest response, and the bytes of
/// a response are a buffer that holds the response.
proof fn lemma_block_size(response: WireResponse)
    requires
        response.well_formed(),
    ensures
        response.metaframe().len() == response.line_length.len() + response.count.len() + 4,
        response.metaframe().len() >= SHORTEST_RESPONSE,
        agrees(response.bytes(), 0, response.bytes()),
{
}

/// A buffer of fewer than six bytes is incomplete, whatever it holds.
pub proof fn lemma_short_buffer_is_incomplete(buf: Seq<u8>)
    requires
        buf.len() < SHORTEST_RESPONSE,
    ensures
        decode(buf) == Err::<Seq<Seq<(char, Seq<char>)>>, DecodeError>(DecodeError::Incomplete),
{
}

/// A well-formed response that holds exactly one group decodes to that group:
/// its elements in the order in which they were written, each with its tag as a
/// character and its value as text.
pub proof fn lemma_single_group_decodes(response: WireResponse)
    requires
        response.well_formed(),
        response.groups.len() == 1,
    ensures
        decode(response.bytes()) == Ok::<Seq<Seq<(char, Seq<char>)>>, DecodeError>(
            seq![response.groups[0].read()],
        ),
{
    lemma_whole_response(response);
}

/// Text that is written as UTF-8 reads as itself.
pub proof fn lemma_text_round_trip(text: Seq<char>)
    ensures
        text_of(encode_utf8(text)) == text,
{
    encode_utf8_valid_utf8(text);
    encode_utf8_decode_utf8(text);
}

/// Writing and decoding gives back what was written: where a well-formed
/// response holds one group, and that group is a way of writing `elements`,
/// the response decodes to `elements`, tags and values the same and in the same
/// order.
pub proof fn lemma_round_trip(response: WireResponse, elements: Seq<(char, Seq<char>)>)
    requires
        response.well_formed(),
        response.groups.len() == 1,
        response.groups[0].elements.len() == elements.len(),
        forall|i: int|
            0 <= i < elements.len() ==> (#[trigger] response.groups[0].elements[i]).writes(
                elements[i],
            ),
    ensures
        decode(response.bytes()) == Ok::<Seq<Seq<(char, Seq<char>)>>, DecodeError>(
            seq![elements],
        ),
{
    lemma_whole_response(response);
    let written = response.groups[0].elements;
    assert forall|i: int| 0 <= i < elements.len() implies response.groups[0].read()[i]
        == elements[i] by {
        assert(written[i].writes(elements[i]));
        lemma_text_round_trip(elements[i].1);
    }
    assert(response.groups[0].read() =~= elements);
}

/// A tag that fits one byte is written as that byte and read as itself.
proof fn lemma_tag_round_trip(tag: char)
    requires
        fits_tag(tag),
    ensures
        (tag as u8) as char == tag,
{
}

/// What an encoder writes comes back: a single group of elements, written the
/// plain way and decoded, is the same group, tags and values the same and in
/// the same order. The tags are to fit the one byte that the format has for a
/// tag.
pub proof fn lemma_encode_round_trip(elements: Seq<(char, Seq<char>)>)
    requires
        tags_fit(elements),
    ensures
        decode(encode(seq![elements])) == Ok::<Seq<Seq<(char, Seq<char>)>>, DecodeError>(
            seq![elements],
        ),
{
    let response = WireResponse::plain(seq![elements]);
    lemma_plain_is_well_formed(seq![elements]);
    assert(response.groups[0] == WireGroup::plain(elements));
    let group = response.groups[0];
    assert forall|i: int| 0 <= i < elements.len() implies (#[trigger] group.elements[i]).writes(
        elements[i],
    ) by {
        let written = group.elements[i];
        let tag = elements[i].0;
        assert(written == WireElement::plain(elements[i]));
        assert(fits_tag(tag));
        lemma_tag_round_trip(tag);
    }
    lemma_round_trip(response, elements);
}

/// A well-formed response that holds any number of groups but one, two or
/// more or none at all, is not supported: it never decodes to a result, whole
/// or in part, and it is neither incomplete nor malformed.
pub proof fn lemma_batch_is_unsupported(response: WireResponse)
    requires
        response.well_formed(),
        response.groups.len() != 1,
    ensures
        decode(response.bytes()) == Err::<Seq<Seq<(char, Seq<char>)>>, DecodeError>(
            DecodeError::Unsupported,
        ),
{
    lemma_whole_response(response);
}

/// One more byte behind a well-formed response of one group makes the buffer
/// malformed, whatever the byte is.
pub proof fn lemma_extra_byte_is_malformed(response: WireResponse, extra: u8)
    requires
        response.well_formed(),
        response.groups.len() == 1,
    ensures
        decode(response.bytes().push(extra)) == Err::<Seq<Seq<(char, Seq<char>)>>, DecodeError>(
            DecodeError::Malformed,
        ),
{
    let whole = response.bytes();
    let buf = whole.push(extra);
    let start = response.metaframe().len() as int;
    lemma_block_size(response);
    assert(agrees(buf, 0, whole));
    lemma_metaframe(buf, response);
    lemma_agrees_split(buf, 0, response.metaframe(), groups_bytes(response.groups));
    lemma_groups(buf, start, response.groups, 1, 0);
    let end = whole.len() as int;
    assert(buf[end] == extra);
    assert(digits_end(buf, end + 1) == end + 1);
    assert(group_at(buf, end) == Err::<(Seq<(char, Seq<char>)>, int), DecodeError>(
        DecodeError::Malformed,
    ));
}

/// A well-formed response that is cut short does not decode, and is not taken
/// for a batch either: the buffer of its first `cut` bytes is incomplete or
/// malformed. This holds of every cut but the soft ones, which leave a buffer
/// that is a response of its own; see [`lemma_soft_cut_decodes`].
pub proof fn lemma_cut_response_fails(response: WireResponse, cut: int)
    requires
        response.well_formed(),
        0 <= cut < response.bytes().len(),
        response.kept_by_cut(cut) is None,
    ensures
        decode(response.bytes().take(cut)) == Err::<Seq<Seq<(char, Seq<char>)>>, DecodeError>(
            DecodeError::Incomplete,
        ) || decode(response.bytes().take(cut)) == Err::<
            Seq<Seq<(char, Seq<char>)>>,
            DecodeError,
        >(DecodeError::Malformed),
{
    lemma_cut_response(response, cut);
}

/// After a soft cut the buffer reads as the response without the elements that
/// the cut took away: with one group it decodes to the elements of that group
/// that are still there, and with any other number of groups it is not
/// supported.
pub proof fn lemma_soft_cut_decodes(response: WireResponse, cut: int)
    requires
        response.well_formed(),
        0 <= cut < response.bytes().len(),
        response.kept_by_cut(cut) is Some,
    ensures
        response.groups.len() == 1 ==> decode(response.bytes().take(cut)) == Ok::<
            Seq<Seq<(char, Seq<char>)>>,
            DecodeError,
        >(seq![response.groups[0].read().take(response.kept_by_cut(cut)->Some_0 as int)]),
        response.groups.len() != 1 ==> decode(response.bytes().take(cut)) == Err::<
            Seq<Seq<(char, Seq<char>)>>,
            DecodeError,
        >(DecodeError::Unsupported),
{
    lemma_cut_response(response, cut);
}

/// What [`lemma_cut_response`] says of `decoded`, the outcome of decoding the
/// first `cut` bytes of `response`.
spec fn cut_outcome(
    response: WireResponse,
    cut: int,
    decoded: Result<Seq<Seq<(char, Seq<char>)>>, DecodeError>,
) -> bool {
    match response.kept_by_cut(cut) {
        None => decoded == Err::<Seq<Seq<(char, Seq<char>)>>, DecodeError>(
            DecodeError::Incomplete,
        ) || decoded == Err::<Seq<Seq<(char, Seq<char>)>>, DecodeError>(DecodeError::Malformed),
        Some(kept) => if response.groups.len() == 1 {
            decoded == Ok::<Seq<Seq<(char, Seq<char>)>>, DecodeError>(
                seq![response.groups[0].read().take(kept as int)],
            )
        } else {
            decoded == Err::<Seq<Seq<(char, Seq<char>)>>, DecodeError>(DecodeError::Unsupported)
        },
    }
}

/// [`lemma_cut_response`] for a cut in the metaframe.
proof fn lemma_cut_in_metaframe(response: WireResponse, cut: int)
    requires
        response.well_formed(),
        0 <= cut < response.bytes().len(),
        cut < response.metaframe().len(),
    ensures
        cut_outcome(response, cut, decode(response.bytes().take(cut))),
{
    let whole = response.bytes();
    let buf = whole.take(cut);
    let groups = response.groups;
    lemma_block_size(response);
    assert(agrees(buf, 0, whole));
    if groups.len() > 0 {
        lemma_groups_size(groups);
        assert(groups.last().block().len() >= 4);
    } else {
        assert(groups_bytes(groups).len() == 0);
    }
    assert(response.kept_by_cut(cut) is Some ==> groups.len() == 0 && cut + 1
        == response.metaframe().len() && cut >= SHORTEST_RESPONSE);
    if cut >= SHORTEST_RESPONSE {
        lemma_metaframe(buf, response);
        if cut + 1 == response.metaframe().len() {
            assert(groups_from(buf, cut, groups.len(), 0) == Ok::<
                (Seq<Seq<(char, Seq<char>)>>, int),
                DecodeError,
            >((Seq::empty(), cut)));
        }
    }
}

/// [`lemma_cut_response`] for a cut in the groups.
proof fn lemma_cut_in_groups(response: WireResponse, cut: int)
    requires
        response.well_formed(),
        response.metaframe().len() <= cut < response.bytes().len(),
    ensures
        cut_outcome(response, cut, decode(response.bytes().take(cut))),
{
    let whole = response.bytes();
    let buf = whole.take(cut);
    let groups = response.groups;
    let start = response.metaframe().len() as int;
    lemma_block_size(response);
    assert(agrees(buf, 0, whole));
    lemma_metaframe(buf, response);
    assert(metaframe_at(buf, 0) == Ok::<(nat, int), DecodeError>((groups.len(), start)));
    lemma_agrees_split(buf, 0, response.metaframe(), groups_bytes(groups));
    lemma_groups_cut(buf, start, groups, groups.len(), 0);
    let read = groups_from(buf, start, groups.len(), 0);
    assert(cut_reading(groups, cut - start, cut, read));
    assert(kept_in_groups(groups, cut - start) == response.kept_by_cut(cut));
    if let Some(kept) = response.kept_by_cut(cut) {
        let partial = groups.last().read().take(kept as int);
        assert(read == Ok::<(Seq<Seq<(char, Seq<char>)>>, int), DecodeError>(
            (groups_read(groups.drop_last()).push(partial), cut),
        ));
        if groups.len() == 1 {
            assert(groups.drop_last() =~= Seq::empty());
            assert(groups_read(groups.drop_last()).push(partial) =~= seq![
                groups[0].read().take(kept as int),
            ]);
        }
    }
}

/// What the first `cut` bytes of a well-formed response decode to.
proof fn lemma_cut_response(response: WireResponse, cut: int)
    requires
        response.well_formed(),
        0 <= cut < response.bytes().len(),
    ensures
        cut_outcome(response, cut, decode(response.bytes().take(cut))),
{
    if cut < response.metaframe().len() {
        lemma_cut_in_metaframe(response, cut);
    } else {
        lemma_cut_in_groups(response, cut);
    }
}

/// The length field of a line takes digits only: a byte that is no digit and
/// stands before the first line feed makes the line malformed. This holds of
/// every such byte, those with the high bit set among them.
pub proof fn lemma_line_length_takes_digits_only(buf: Seq<u8>, pos: int, at: int)
    requires
        0 <= pos <= at < buf.len(),
        !is_digit(buf[at]),
        forall|i: int| pos <= i <= at ==> buf[i] != LINE_FEED,
    ensures
        line_at(buf, pos) == Err::<(Seq<u8>, int), DecodeError>(DecodeError::Malformed),
{
    lemma_digits_end(buf, pos);
    let end = digits_end(buf, pos);
    if end > at {
        assert(buf.subrange(pos, end)[at - pos] == buf[at]);
    }
}

/// The length field of an element takes digits only: a byte that is no digit
/// and stands behind the tag and before the first line feed makes the element
/// malformed.
pub proof fn lemma_value_length_takes_digits_only(buf: Seq<u8>, pos: int, at: int)
    requires
        0 <= pos < at < buf.len(),
        !is_digit(buf[at]),
        forall|i: int| pos < i <= at ==> buf[i] != LINE_FEED,
    ensures
        frame_at(buf, pos) == Err::<((u8, Seq<u8>), int), DecodeError>(DecodeError::Malformed),
        element_at(buf, pos) == Err::<((char, Seq<char>), int), DecodeError>(
            DecodeError::Malformed,
        ),
{
    lemma_digits_end(buf, pos + 1);
    let end = digits_end(buf, pos + 1);
    if end > at {
        assert(buf.subrange(pos + 1, end)[at - (pos + 1)] == buf[at]);
    }
}

/// A count takes digits only: a byte that is no digit and stands behind the
/// marker of a line that carries a count makes that line malformed.
pub proof fn lemma_count_takes_digits_only(line: Seq<u8>, marker: u8, at: int)
    requires
        1 <= at < line.len(),
        !is_digit(line[at]),
    ensures
        count_in(line, marker) == Err::<nat, DecodeError>(DecodeError::Malformed),
{
    assert(line.skip(1)[at - 1] == line[at]);
}

/// The number of groups takes digits only: where the line of the metaframe
/// holds a byte behind its marker that is no digit, the buffer is malformed.
pub proof fn lemma_group_count_takes_digits_only(buf: Seq<u8>, at: int)
    requires
        buf.len() >= SHORTEST_RESPONSE,
        line_at(buf, 1) matches Ok((line, _)) && 1 <= at < line.len() && !is_digit(line[at]),
    ensures
        metaframe_at(buf, 0) == Err::<(nat, int), DecodeError>(DecodeError::Malformed),
        decode(buf) == Err::<Seq<Seq<(char, Seq<char>)>>, DecodeError>(DecodeError::Malformed),
{
    lemma_count_takes_digits_only(line_at(buf, 1)->Ok_0.0, GROUP_COUNT_MARKER, at);
}

/// The number of elements takes digits only: where the line of a group holds a
/// byte behind its marker that is no digit, the group is malformed.
pub proof fn lemma_element_count_takes_digits_only(buf: Seq<u8>, pos: int, at: int)
    requires
        0 <= pos < buf.len(),
        line_at(buf, pos + 1) matches Ok((line, _)) && 1 <= at < line.len() && !is_digit(
            line[at],
        ),
    ensures
        group_at(buf, pos) == Err::<(Seq<(char, Seq<char>)>, int), DecodeError>(
            DecodeError::Malformed,
        ),
{
    lemma_count_takes_digits_only(line_at(buf, pos + 1)->Ok_0.0, ARRAY_MARKER, at);
}

} // verus!

//! Responses as a writer puts them on the wire.
//!
//! Nothing here runs: the module says which byte sequences are well-formed
//! responses, so that the laws of the decoder can speak of them. A decimal
//! field may be written with leading zeros, so a written part keeps the digits
//! of its fields beside its content. [`encode`] is the plain way of writing,
//! without leading zeros.

use vstd::prelude::*;
use vstd::utf8::encode_utf8;
use crate::count::{ARRAY_MARKER, BLOCK_MARKER, GROUP_COUNT_MARKER};
use crate::digits::{all_digits, decimal_value, is_digit, DIGIT_ZERO, LINE_FEED};
use crate::element::element_of;
use crate::metaframe::SHORTEST_RESPONSE;

verus! {

/// Whether `field` is a way of writing `value`: at least one digit, digits
/// only, spelling `value`.
pub open spec fn is_decimal(field: Seq<u8>, value: nat) -> bool {
    &&& field.len() > 0
    &&& all_digits(field)
    &&& decimal_value(field) == value
}

/// The digits of `value` in base ten, without leading zeros.
pub open spec fn decimal_digits(value: nat) -> Seq<u8>
    decreases value,
{
    if value < 10 {
        seq![(DIGIT_ZERO + value) as u8]
    } else {
        decimal_digits(value / 10).push((DIGIT_ZERO + value % 10) as u8)
    }
}

/// The digits of a number are a way of writing it.
pub proof fn lemma_decimal_digits(value: nat)
    ensures
        is_decimal(decimal_digits(value), value),
    decreases value,
{
    let digits = decimal_digits(value);
    if value < 10 {
        assert(digits.drop_last() =~= Seq::empty());
        assert(decimal_value(digits.drop_last()) == 0);
        assert(digits.last() == DIGIT_ZERO + value);
    } else {
        let front = decimal_digits(value / 10);
        lemma_decimal_digits(value / 10);
        assert(digits.drop_last() =~= front);
        assert(digits.last() == DIGIT_ZERO + value % 10);
        assert(decimal_value(digits) == decimal_value(front) * 10 + value % 10);
        assert forall|i: int| 0 <= i < digits.len() implies is_digit(#[trigger] digits[i]) by {
            if i < front.len() {
                assert(digits[i] == front[i]);
            }
        }
    }
}

/// A line with its length in front: the length field, a line feed, and the
/// content. The byte that closes the line is not part of it.
pub open spec fn line_bytes(length: Seq<u8>, content: Seq<u8>) -> Seq<u8> {
    length.push(LINE_FEED) + content
}

/// A block that carries a count: the block marker, then the line that holds
/// `marker` and the digits of the count, then the closing line feed.
pub open spec fn block_bytes(line_length: Seq<u8>, marker: u8, count: Seq<u8>) -> Seq<u8> {
    seq![BLOCK_MARKER] + line_bytes(line_length, seq![marker] + count).push(LINE_FEED)
}

/// Whether the fields of a block are written correctly for a count of
/// `number`: the line length is that of the marker and the digits of the count.
pub open spec fn block_well_formed(line_length: Seq<u8>, count: Seq<u8>, number: nat) -> bool {
    &&& is_decimal(line_length, 1 + count.len())
    &&& is_decimal(count, number)
}

/// An element as written.
pub struct WireElement {
    /// The tag byte.
    pub tag: u8,
    /// The digits of the length of the value.
    pub length: Seq<u8>,
    /// The bytes of the value.
    pub value: Seq<u8>,
}

impl WireElement {
    /// The length field gives the length of the value.
    pub open spec fn well_formed(self) -> bool {
        is_decimal(self.length, self.value.len())
    }

    /// The bytes of the element: tag, length, line feed, value, line feed.
    pub open spec fn bytes(self) -> Seq<u8> {
        seq![self.tag] + line_bytes(self.length, self.value).push(LINE_FEED)
    }

    /// The element that a reader is to make of it.
    pub open spec fn read(self) -> (char, Seq<char>) {
        element_of((self.tag, self.value))
    }

    /// Whether this is a way of writing `element`: the tag byte is the code
    /// point of the tag character, and the value is the text in UTF-8.
    pub open spec fn writes(self, element: (char, Seq<char>)) -> bool {
        &&& self.tag as char == element.0
        &&& self.value == encode_utf8(element.1)
    }

    /// The plain way of writing `element`, whose tag is to fit one byte.
    pub open spec fn plain(element: (char, Seq<char>)) -> WireElement
        recommends
            fits_tag(element.0),
    {
        WireElement {
            tag: element.0 as u8,
            length: decimal_digits(encode_utf8(element.1).len()),
            value: encode_utf8(element.1),
        }
    }
}

/// Whether a tag character can be written: its code point is below 256, so
/// that it fits the one byte that the format has for it.
pub open spec fn fits_tag(tag: char) -> bool {
    (tag as u32) < 256
}

/// Whether the tag of each of `elements` can be written.
pub open spec fn tags_fit(elements: Seq<(char, Seq<char>)>) -> bool {
    forall|i: int| 0 <= i < elements.len() ==> fits_tag((#[trigger] elements[i]).0)
}

/// Whether each of `elements` is well formed.
pub open spec fn elements_well_formed(elements: Seq<WireElement>) -> bool {
    forall|i: int| 0 <= i < elements.len() ==> (#[trigger] elements[i]).well_formed()
}

/// The bytes of `elements`, one after the other.
pub open spec fn elements_bytes(elements: Seq<WireElement>) -> Seq<u8>
    decreases elements.len(),
{
    if elements.len() == 0 {
        Seq::empty()
    } else {
        elements[0].bytes() + elements_bytes(elements.drop_first())
    }
}

/// What a reader is to make of `elements`.
pub open spec fn elements_read(elements: Seq<WireElement>) -> Seq<(char, Seq<char>)> {
    Seq::new(elements.len(), |i: int| elements[i].read())
}

/// How many of `elements` are still there for a reader when only the first
/// `held` bytes of what was written are left.
///
/// An element is still there when at most its closing line feed is missing. A
/// buffer that ends earlier in an element tears it, and then the answer is
/// `None`. Where nothing of an element is left the reader does not miss it: it
/// stops at the end of the buffer.
pub open spec fn kept_elements(elements: Seq<WireElement>, held: int) -> Option<nat>
    decreases elements.len(),
{
    if elements.len() == 0 || held <= 0 {
        Some(0)
    } else if held + 1 < elements[0].bytes().len() {
        None
    } else {
        match kept_elements(elements.drop_first(), held - elements[0].bytes().len()) {
            None => None,
            Some(kept) => Some(kept + 1),
        }
    }
}

/// A group as written.
pub struct WireGroup {
    /// The digits of the length of the line that holds the count.
    pub line_length: Seq<u8>,
    /// The digits of the number of elements.
    pub count: Seq<u8>,
    /// The elements.
    pub elements: Seq<WireElement>,
}

impl WireGroup {
    /// The fields are written correctly and so is every element.
    pub open spec fn well_formed(self) -> bool {
        &&& block_well_formed(self.line_length, self.count, self.elements.len())
        &&& elements_well_formed(self.elements)
    }

    /// The bytes of the block that announces the elements.
    pub open spec fn block(self) -> Seq<u8> {
        block_bytes(self.line_length, ARRAY_MARKER, self.count)
    }

    /// The bytes of the group: its block, then its elements.
    pub open spec fn bytes(self) -> Seq<u8> {
        self.block() + elements_bytes(self.elements)
    }

    /// The group that a reader is to make of it.
    pub open spec fn read(self) -> Seq<(char, Seq<char>)> {
        elements_read(self.elements)
    }

    /// The plain way of writing a group that holds `elements`.
    pub open spec fn plain(elements: Seq<(char, Seq<char>)>) -> WireGroup {
        let count = decimal_digits(elements.len());
        WireGroup {
            line_length: decimal_digits(1 + count.len()),
            count,
            elements: Seq::new(elements.len(), |i: int| WireElement::plain(elements[i])),
        }
    }
}

/// Whether each of `groups` is well formed.
pub open spec fn groups_well_formed(groups: Seq<WireGroup>) -> bool {
    forall|i: int| 0 <= i < groups.len() ==> (#[trigger] groups[i]).well_formed()
}

/// The bytes of `groups`, one after the other.
pub open spec fn groups_bytes(groups: Seq<WireGroup>) -> Seq<u8>
    decreases groups.len(),
{
    if groups.len() == 0 {
        Seq::empty()
    } else {
        groups[0].bytes() + groups_bytes(groups.drop_first())
    }
}

/// What a reader is to make of `groups`.
pub open spec fn groups_read(groups: Seq<WireGroup>) -> Seq<Seq<(char, Seq<char>)>> {
    Seq::new(groups.len(), |i: int| groups[i].read())
}

/// A response as written.
pub struct WireResponse {
    /// The digits of the length of the line that holds the group count.
    pub line_length: Seq<u8>,
    /// The digits of the number of groups.
    pub count: Seq<u8>,
    /// The groups.
    pub groups: Seq<WireGroup>,
}

impl WireResponse {
    /// The fields of the metaframe are written correctly and so is every
    /// group.
    pub open spec fn well_formed(self) -> bool {
        &&& block_well_formed(self.line_length, self.count, self.groups.len())
        &&& groups_well_formed(self.groups)
    }

    /// The bytes of the metaframe.
    pub open spec fn metaframe(self) -> Seq<u8> {
        block_bytes(self.line_length, GROUP_COUNT_MARKER, self.count)
    }

    /// The bytes of the response: the metaframe, then the groups.
    pub open spec fn bytes(self) -> Seq<u8> {
        self.metaframe() + groups_bytes(self.groups)
    }

    /// The plain way of writing a response that holds `groups`.
    pub open spec fn plain(groups: Seq<Seq<(char, Seq<char>)>>) -> WireResponse {
        let count = decimal_digits(groups.len());
        WireResponse {
            line_length: decimal_digits(1 + count.len()),
            count,
            groups: Seq::new(groups.len(), |i: int| WireGroup::plain(groups[i])),
        }
    }

    /// Where in [`WireResponse::bytes`] the elements of the last group start.
    pub open spec fn last_elements_start(self) -> int
        recommends
            self.groups.len() > 0,
    {
        self.bytes().len() - elements_bytes(self.groups.last().elements).len()
    }

    /// How many elements of the last group are still there when the response
    /// is cut down to its first `cut` bytes, if the cut is a soft one.
    ///
    /// A cut is soft when all that it takes away are whole elements from the
    /// end of the last group and, at most, the one line feed before them. What
    /// is left then reads as a response of its own. For a response without
    /// groups the one soft cut takes the last line feed of the metaframe, if
    /// that leaves a buffer which is not too short to be looked at. Any other
    /// cut gives `None`.
    pub open spec fn kept_by_cut(self, cut: int) -> Option<nat> {
        if self.groups.len() == 0 {
            if cut + 1 == self.bytes().len() && cut >= SHORTEST_RESPONSE {
                Some(0)
            } else {
                None
            }
        } else if cut + 1 < self.last_elements_start() {
            None
        } else {
            kept_elements(self.groups.last().elements, cut - self.last_elements_start())
        }
    }
}

/// The bytes of a response that holds `groups`, written the plain way: every
/// field in decimal without leading zeros, every tag as one byte, every value
/// in UTF-8.
pub open spec fn encode(groups: Seq<Seq<(char, Seq<char>)>>) -> Seq<u8> {
    WireResponse::plain(groups).bytes()
}

/// The plain way of writing gives a well-formed response with as many groups
/// as were handed in.
pub proof fn lemma_plain_is_well_formed(groups: Seq<Seq<(char, Seq<char>)>>)
    ensures
        WireResponse::plain(groups).well_formed(),
        WireResponse::plain(groups).groups.len() == groups.len(),
{
    let response = WireResponse::plain(groups);
    lemma_decimal_digits(groups.len());
    lemma_decimal_digits(1 + response.count.len());
    let written = response.groups;
    assert forall|i: int| 0 <= i < written.len() implies (#[trigger] written[i]).well_formed() by {
        let group = written[i];
        let elements = group.elements;
        assert(group == WireGroup::plain(groups[i]));
        lemma_decimal_digits(groups[i].len());
        lemma_decimal_digits(1 + group.count.len());
        assert forall|j: int| 0 <= j < elements.len() implies (
            #[trigger] elements[j]
        ).well_formed() by {
            assert(elements[j] == WireElement::plain(groups[i][j]));
            lemma_decimal_digits(elements[j].value.len());
        }
    }
}

} // verus!

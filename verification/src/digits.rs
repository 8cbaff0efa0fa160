//! Decimal fields: runs of ASCII digits that give a length or a count.
//!
//! The format puts no limit on how many digits a field may have. In contracts a
//! field stands for the natural number that its digits spell, however large.
//! In the running code that number is held in a `usize` and stops growing at
//! `usize::MAX` instead of wrapping around; see [`capped`].

use vstd::prelude::*;
use crate::error::DecodeError;

verus! {

/// The byte that ends a decimal field and closes a line: a line feed.
pub const LINE_FEED: u8 = 10;

/// `'0'`, the lowest digit.
pub const DIGIT_ZERO: u8 = 48;

/// `'9'`, the highest digit.
pub const DIGIT_NINE: u8 = 57;

/// Whether `byte` is one of the ASCII digits `'0'` to `'9'`.
pub open spec fn is_digit(byte: u8) -> bool {
    DIGIT_ZERO <= byte <= DIGIT_NINE
}

/// The number that the digit `byte` stands for.
pub open spec fn digit_value(byte: u8) -> nat
    recommends
        is_digit(byte),
{
    (byte - DIGIT_ZERO) as nat
}

/// Whether every byte of `bytes` is a digit.
pub open spec fn all_digits(bytes: Seq<u8>) -> bool {
    forall|i: int| 0 <= i < bytes.len() ==> is_digit(#[trigger] bytes[i])
}

/// The number that a run of digits spells in base ten. The empty run spells
/// zero.
pub open spec fn decimal_value(digits: Seq<u8>) -> nat
    recommends
        all_digits(digits),
    decreases digits.len(),
{
    if digits.len() == 0 {
        0
    } else {
        decimal_value(digits.drop_last()) * 10 + digit_value(digits.last())
    }
}

/// `value` as the running code holds it: itself while it fits a `usize`, and
/// `usize::MAX` from there on.
pub open spec fn capped(value: nat) -> usize {
    if value > usize::MAX {
        usize::MAX
    } else {
        value as usize
    }
}

/// Where the run of digits that starts at `from` stops: the first place at or
/// after `from` that holds no digit, which is the end of `buf` if the digits go
/// on that far.
pub open spec fn digits_end(buf: Seq<u8>, from: int) -> int
    decreases buf.len() - from,
{
    if 0 <= from < buf.len() && is_digit(buf[from]) {
        digits_end(buf, from + 1)
    } else {
        from
    }
}

/// What a decimal field reads as: the run of digits from `from` on, which a
/// line feed must end.
///
/// `Ok((value, end))` gives the number spelled and the place of the line feed;
/// `end` is the length of `buf` where the digits run up to the end of the buffer
/// and no line feed is left. A byte that is neither a digit nor a line feed
/// makes the field malformed.
pub open spec fn decimal_at(buf: Seq<u8>, from: int) -> Result<(nat, int), DecodeError> {
    let end = digits_end(buf, from);
    if end < buf.len() && buf[end] != LINE_FEED {
        Err(DecodeError::Malformed)
    } else {
        Ok((decimal_value(buf.subrange(from, end)), end))
    }
}

/// The run of digits from `from` on lies inside the buffer, holds digits only,
/// and stops at the end of the buffer or before a byte that is no digit.
pub proof fn lemma_digits_end(buf: Seq<u8>, from: int)
    requires
        0 <= from <= buf.len(),
    ensures
        from <= digits_end(buf, from) <= buf.len(),
        all_digits(buf.subrange(from, digits_end(buf, from))),
        digits_end(buf, from) < buf.len() ==> !is_digit(buf[digits_end(buf, from)]),
    decreases buf.len() - from,
{
    if from < buf.len() && is_digit(buf[from]) {
        lemma_digits_end(buf, from + 1);
        let end = digits_end(buf, from);
        assert forall|i: int| 0 <= i < end - from implies is_digit(
            #[trigger] buf.subrange(from, end)[i],
        ) by {
            if i > 0 {
                assert(buf.subrange(from, end)[i] == buf.subrange(from + 1, end)[i - 1]);
            }
        }
    }
}

/// A run of digits that is followed by something else stops exactly there.
pub proof fn lemma_digits_end_at(buf: Seq<u8>, from: int, end: int)
    requires
        0 <= from <= end <= buf.len(),
        forall|i: int| from <= i < end ==> is_digit(#[trigger] buf[i]),
        end < buf.len() ==> !is_digit(buf[end]),
    ensures
        digits_end(buf, from) == end,
    decreases end - from,
{
    if from < end {
        lemma_digits_end_at(buf, from + 1, end);
    }
}

/// Capping commutes with taking up one more digit: a number that has reached
/// the cap stays there.
pub proof fn lemma_capped_step(value: nat, digit: nat)
    ensures
        capped(capped(value) as nat * 10 + digit) == capped(value * 10 + digit),
{
}

/// Takes up one more byte of a decimal field.
///
/// A digit is folded into the number read so far, `acc * 10 + digit`, which
/// stops at `usize::MAX`; any other byte is refused as malformed.
pub fn accumulate_digit(acc: usize, byte: u8) -> (r: Result<usize, DecodeError>)
    ensures
        is_digit(byte) ==> r == Ok::<usize, DecodeError>(
            capped(acc as nat * 10 + digit_value(byte)),
        ),
        !is_digit(byte) ==> r == Err::<usize, DecodeError>(DecodeError::Malformed),
{
    if byte < DIGIT_ZERO || byte > DIGIT_NINE {
        return Err(DecodeError::Malformed);
    }
    let digit: usize = (byte - DIGIT_ZERO) as usize;
    match acc.checked_mul(10) {
        None => Ok(usize::MAX),
        Some(tens) => match tens.checked_add(digit) {
            None => Ok(usize::MAX),
            Some(sum) => Ok(sum),
        },
    }
}

/// Reads the decimal field that starts at `from`.
///
/// On success the pair holds the number read, capped, and the place where the
/// digits stop: a line feed, or the end of the buffer.
pub fn read_decimal(buf: &[u8], from: usize) -> (r: Result<(usize, usize), DecodeError>)
    requires
        from <= buf@.len(),
    ensures
        match r {
            Ok((value, end)) => decimal_at(buf@, from as int) matches Ok((number, stop))
                && value == capped(number) && end == stop,
            Err(e) => decimal_at(buf@, from as int) == Err::<(nat, int), DecodeError>(e),
        },
        r matches Ok((_, end)) ==> from <= end <= buf@.len(),
{
    let mut at: usize = from;
    let mut value: usize = 0;
    loop
        invariant
            from <= at <= buf@.len(),
            digits_end(buf@, from as int) == digits_end(buf@, at as int),
            value == capped(decimal_value(buf@.subrange(from as int, at as int))),
        decreases buf@.len() - at,
    {
        if at >= buf.len() {
            return Ok((value, at));
        }
        let byte = buf[at];
        if byte == LINE_FEED {
            return Ok((value, at));
        }
        match accumulate_digit(value, byte) {
            Err(e) => {
                return Err(e);
            },
            Ok(next) => {
                proof {
                    let before = buf@.subrange(from as int, at as int);
                    let after = buf@.subrange(from as int, at + 1);
                    assert(after.drop_last() == before);
                    lemma_capped_step(decimal_value(before), digit_value(byte));
                }
                value = next;
                at += 1;
            },
        }
    }
}

} // verus!

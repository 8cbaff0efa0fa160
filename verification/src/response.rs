//! Whole responses: the metaframe, the groups, and what the decoder makes of
//! them.

use vstd::prelude::*;
use crate::digits::capped;
use crate::error::DecodeError;
use crate::group::{group_at, lemma_preceded_by_push, preceded_by, read_group};
use crate::metaframe::{metaframe_at, read_metaframe, SHORTEST_RESPONSE};

verus! {

/// The groups read from `pos` on, in the order in which they stand, and the
/// place where reading stops.
///
/// `declared` is the number of groups that the metaframe announced and `have`
/// the number read before `pos`. Reading goes on while bytes are left and no
/// more than `declared` groups have been read, so it may take one group more
/// than was announced. A group that fails makes the whole reading fail.
pub open spec fn groups_from(buf: Seq<u8>, pos: int, declared: nat, have: nat) -> Result<
    (Seq<Seq<(char, Seq<char>)>>, int),
    DecodeError,
>
    decreases declared + 1 - have,
{
    if pos >= buf.len() || have > declared {
        Ok((Seq::empty(), pos))
    } else {
        match group_at(buf, pos) {
            Err(e) => Err(e),
            Ok((group, next)) => preceded_by(
                seq![group],
                groups_from(buf, next, declared, have + 1),
            ),
        }
    }
}

/// What a reading that went through without failure amounts to.
///
/// Bytes left over make the response malformed. With all bytes used, a number
/// of groups other than the one declared makes it incomplete. A response that
/// holds as many groups as it declares is handed back if that number is one,
/// and is unsupported otherwise.
pub open spec fn outcome(
    groups: Seq<Seq<(char, Seq<char>)>>,
    declared: nat,
    exhausted: bool,
) -> Result<Seq<Seq<(char, Seq<char>)>>, DecodeError> {
    if !exhausted {
        Err(DecodeError::Malformed)
    } else if groups.len() != declared {
        Err(DecodeError::Incomplete)
    } else if declared != 1 {
        Err(DecodeError::Unsupported)
    } else {
        Ok(groups)
    }
}

/// What a buffer decodes to: the groups of the response, each a sequence of
/// elements, each element a tag character and a text; or the reason why there
/// is no such result.
pub open spec fn decode(buf: Seq<u8>) -> Result<Seq<Seq<(char, Seq<char>)>>, DecodeError> {
    match metaframe_at(buf, 0) {
        Err(e) => Err(e),
        Ok((declared, start)) => match groups_from(buf, start, declared, 0) {
            Err(e) => Err(e),
            Ok((groups, end)) => outcome(groups, declared, end >= buf.len()),
        },
    }
}

/// Decodes one response.
///
/// The result is what [`decode`] says of the bytes of `buffer`: the groups of
/// the response on success, and otherwise the one error that applies. Nothing
/// of a response that fails is handed back. A buffer of fewer than six bytes is
/// always incomplete, and a success always holds exactly one group.
pub fn parse(buffer: &[u8]) -> (r: Result<Vec<Vec<(char, String)>>, DecodeError>)
    ensures
        match r {
            Ok(groups) => decode(buffer@) == Ok::<Seq<Seq<(char, Seq<char>)>>, DecodeError>(
                groups.deep_view(),
            ),
            Err(e) => decode(buffer@) == Err::<Seq<Seq<(char, Seq<char>)>>, DecodeError>(e),
        },
        buffer@.len() < SHORTEST_RESPONSE ==> r == Err::<Vec<Vec<(char, String)>>, DecodeError>(
            DecodeError::Incomplete,
        ),
        r matches Ok(groups) ==> groups.len() == 1,
{
    let mut pos: usize = 0;
    let declared = match read_metaframe(&mut pos, buffer) {
        Ok(declared) => declared,
        Err(e) => {
            return Err(e);
        },
    };
    let ghost number = metaframe_at(buffer@, 0)->Ok_0.0;
    let ghost first = pos as int;
    let mut groups: Vec<Vec<(char, String)>> = Vec::new();
    assert(groups.deep_view() =~= Seq::empty());
    assert(preceded_by(Seq::empty(), groups_from(buffer@, first, number, 0)) == groups_from(
        buffer@,
        first,
        number,
        0,
    )) by {
        if let Ok((more, end)) = groups_from(buffer@, first, number, 0) {
            assert(Seq::<Seq<(char, Seq<char>)>>::empty() + more =~= more);
        }
    }
    while pos < buffer.len() && groups.len() <= declared
        invariant
            metaframe_at(buffer@, 0) == Ok::<(nat, int), DecodeError>((number, first)),
            1 <= first <= pos <= buffer@.len(),
            groups.len() <= pos - first,
            groups.len() <= number + 1,
            declared == capped(number),
            groups_from(buffer@, first, number, 0) == preceded_by(
                groups.deep_view(),
                groups_from(buffer@, pos as int, number, groups.len() as nat),
            ),
        decreases buffer@.len() - pos,
    {
        let ghost before = groups.deep_view();
        match read_group(&mut pos, buffer) {
            Err(e) => {
                return Err(e);
            },
            Ok(group) => {
                let ghost item = group.deep_view();
                groups.push(group);
                proof {
                    assert(groups.deep_view() =~= before.push(item));
                    lemma_preceded_by_push(
                        before,
                        item,
                        groups_from(buffer@, pos as int, number, groups.len() as nat),
                    );
                }
            },
        }
    }
    proof {
        let rest = groups_from(buffer@, pos as int, number, groups.len() as nat);
        assert(rest == Ok::<(Seq<Seq<(char, Seq<char>)>>, int), DecodeError>(
            (Seq::empty(), pos as int),
        ));
        assert(groups.deep_view() + Seq::empty() =~= groups.deep_view());
    }
    if pos < buffer.len() {
        Err(DecodeError::Malformed)
    } else if groups.len() != declared {
        Err(DecodeError::Incomplete)
    } else if declared != 1 {
        Err(DecodeError::Unsupported)
    } else {
        Ok(groups)
    }
}

} // verus!

//! The ways in which decoding a response can fail.

use vstd::prelude::*;

verus! {

/// Why a buffer could not be decoded. The three kinds exclude each other, and
/// each one ends the call.
#[derive(Clone, Copy, Debug, PartialEq, Eq, Structural)]
pub enum DecodeError {
    /// The buffer stops before the bytes that the format calls for are all
    /// there. Reading more bytes and decoding the whole buffer again may help.
    Incomplete,
    /// A byte is not what the format allows at its place. Decoding the same
    /// bytes again will fail in the same way.
    Malformed,
    /// The buffer is well formed but does not announce exactly one group, which
    /// is all that this decoder hands back.
    Unsupported,
}

impl DecodeError {
    /// The text of [`DecodeError::message`].
    pub open spec fn message_text(self) -> Seq<char> {
        match self {
            DecodeError::Incomplete => "response is incomplete"@,
            DecodeError::Malformed => "response is malformed"@,
            DecodeError::Unsupported => "batched responses are not supported"@,
        }
    }

    /// A short description of the failure for people to read.
    pub fn message(&self) -> (text: String)
        ensures
            text@ == self.message_text(),
    {
        match self {
            DecodeError::Incomplete => "response is incomplete".to_owned(),
            DecodeError::Malformed => "response is malformed".to_owned(),
            DecodeError::Unsupported => "batched responses are not supported".to_owned(),
        }
    }
}

} // verus!

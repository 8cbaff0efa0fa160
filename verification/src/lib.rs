//! Decoder for the responses of the Skytable wire protocol.
//!
//! A response is one fully buffered byte sequence. [`parse`] walks it once and
//! hands back the groups of typed elements that it holds, or says why it could
//! not.

pub mod count;
pub mod digits;
pub mod element;
pub mod error;
pub mod group;
pub mod laws;
pub mod line;
pub mod metaframe;
pub mod reading;
pub mod response;
pub mod text;
pub mod written;

pub use error::DecodeError;
pub use response::parse;

//! Failures of the store, of the protocol and of the table format.
use vstd::prelude::*;
use vstd::string::StringExecFns;

verus! {

/// The two ways in which the index and a segment can disagree.
#[derive(Debug, Clone, Copy, PartialEq, Eq, Structural)]
pub enum Corruption {
    /// The record that the index points at is a tombstone.
    UnexpectedRemove,
    /// The segment ends before the record that the index points at is complete.
    UnexpectedEof,
}

/// Everything that can go wrong in this library.
#[derive(Debug, Clone, PartialEq, Eq)]
pub enum CaveyError {
    /// A file or a socket failed; the text describes how.
    IoError(String),
    /// Bytes that should hold a record or a message do not.
    DecodeError,
    /// A record or a message has no encoding.
    EncodeError,
    /// The index and the segment disagree.
    DataCorruption(Corruption),
    /// The key to remove is not in the store.
    KeyNotFound,
    /// The data directory belongs to another engine, whose marker is given.
    EngineMismatch(String),
    /// The server answered a write with a value, which is given.
    UnexpectedResponse(String),
    /// The server reported a failure, whose message is given.
    Remote(String),
    /// A segment's file name, which is given, is not a generation number.
    InvalidGeneration(String),
}

/// The description of a `DecodeError`.
pub const DECODE_TEXT: &'static str = "malformed record or message";

/// The description of an `EncodeError`.
pub const ENCODE_TEXT: &'static str = "record or message cannot be encoded";

/// The description of an `UnexpectedRemove`.
pub const UNEXPECTED_REMOVE: &'static str = "unexpected remove";

/// The description of an `UnexpectedEof`.
pub const UNEXPECTED_EOF: &'static str = "unexpected eof";

/// The description of a `KeyNotFound`.
pub const KEY_NOT_FOUND: &'static str = "Key not found";

/// What the description of an `EngineMismatch` starts with.
pub const WRONG_FORMAT: &'static str = "cavey error: wrong data format: ";

/// What the description of an `UnexpectedResponse` starts with.
pub const UNEXPECTED_RESPONSE: &'static str = "cavey error: unexpected response ";

/// What the description of a `Remote` starts with.
pub const REMOTE: &'static str = "cavey error: ";

/// What the description of an `InvalidGeneration` starts with.
pub const INVALID_NAME: &'static str = "invalid segment name: ";

/// What `{:?}` prints for a string: a name for the text that
/// [`debug_quoted`] returns.
pub uninterp spec fn debug_text(s: Seq<char>) -> Seq<char>;

/// Formats a string with `{:?}`, as `std::fmt::Debug` for `str` does
/// (quoted, with escapes). Nothing is proved of the text; it is only named.
#[verifier::external_body]
fn debug_quoted(s: &str) -> (r: String)
    ensures
        r@ == debug_text(s@),
{
    format!("{:?}", s)
}

impl CaveyError {
    /// The description of this error, as a sequence of characters.
    pub open spec fn message_spec(self) -> Seq<char> {
        match self {
            CaveyError::IoError(text) => text@,
            CaveyError::DecodeError => DECODE_TEXT@,
            CaveyError::EncodeError => ENCODE_TEXT@,
            CaveyError::DataCorruption(Corruption::UnexpectedRemove) => UNEXPECTED_REMOVE@,
            CaveyError::DataCorruption(Corruption::UnexpectedEof) => UNEXPECTED_EOF@,
            CaveyError::KeyNotFound => KEY_NOT_FOUND@,
            CaveyError::EngineMismatch(found) => WRONG_FORMAT@ + found@,
            CaveyError::UnexpectedResponse(value) => UNEXPECTED_RESPONSE@ + debug_text(value@),
            CaveyError::Remote(text) => REMOTE@ + text@,
            CaveyError::InvalidGeneration(name) => INVALID_NAME@ + name@,
        }
    }

    /// A human-readable description of this error.
    pub fn message(&self) -> (r: String)
        ensures
            r@ == self.message_spec(),
    {
        match self {
            CaveyError::IoError(text) => text.clone(),
            CaveyError::DecodeError => String::from_str(DECODE_TEXT),
            CaveyError::EncodeError => String::from_str(ENCODE_TEXT),
            CaveyError::DataCorruption(Corruption::UnexpectedRemove) => {
                String::from_str(UNEXPECTED_REMOVE)
            },
            CaveyError::DataCorruption(Corruption::UnexpectedEof) => {
                String::from_str(UNEXPECTED_EOF)
            },
            CaveyError::KeyNotFound => String::from_str(KEY_NOT_FOUND),
            CaveyError::EngineMismatch(found) => {
                String::from_str(WRONG_FORMAT).concat(found.as_str())
            },
            CaveyError::UnexpectedResponse(value) => {
                let quoted = debug_quoted(value.as_str());
                String::from_str(UNEXPECTED_RESPONSE).concat(quoted.as_str())
            },
            CaveyError::Remote(text) => String::from_str(REMOTE).concat(text.as_str()),
            CaveyError::InvalidGeneration(name) => {
                String::from_str(INVALID_NAME).concat(name.as_str())
            },
        }
    }
}

} // verus!

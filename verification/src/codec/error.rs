//! Failures of the record codec.

use vstd::prelude::*;

verus! {

/// Why a buffer could not be decoded, or a value could not be encoded.
#[derive(Clone, Copy, Debug, PartialEq, Eq, Structural)]
pub enum CodecError {
    /// Fewer bytes are available than the structure requires.
    ShortBuffer,
    /// A type tag is outside the closed set of tags.
    InvalidTag,
    /// Bytes that must be text are not UTF-8.
    InvalidUtf8,
    /// A length does not agree with the structure it belongs to, or does not
    /// fit the 32-bit length prefix.
    BadLength,
}

impl CodecError {
    /// A short description for reports.
    pub fn message(&self) -> (text: String)
        ensures
            text@ == (match *self {
                CodecError::ShortBuffer => "buffer too short"@,
                CodecError::InvalidTag => "invalid type tag"@,
                CodecError::InvalidUtf8 => "invalid UTF-8"@,
                CodecError::BadLength => "bad length"@,
            }),
    {
        match self {
            CodecError::ShortBuffer => "buffer too short".to_owned(),
            CodecError::InvalidTag => "invalid type tag".to_owned(),
            CodecError::InvalidUtf8 => "invalid UTF-8".to_owned(),
            CodecError::BadLength => "bad length".to_owned(),
        }
    }
}

} // verus!

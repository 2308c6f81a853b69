//! The failures that encoding and decoding report.

use vstd::prelude::*;

verus! {

/// Why a buffer could not be decoded or a value could not be encoded.
///
/// Every failure is returned; none aborts the process.
#[derive(Debug, PartialEq, Eq)]
pub enum Error {
    /// A byte in tag position is no tag code, or `End` stands where a value
    /// is owed.
    MalformedTag,
    /// The buffer ends before a field is complete.
    UnexpectedEof,
    /// A count read from the buffer exceeds the configured bound, or a
    /// sequence is too long for its count field.
    SequenceTooLong,
    /// The data has another shape than the one asked for.
    TypeMismatch,
    /// The name of a compound entry does not fit its 16-bit length prefix.
    NameTooLong,
    /// The outermost value is not a compound.
    RootMustBeCompound,
    /// The buffer starts with the gzip magic bytes.
    LikelyCompressedInput,
    /// A message supplied by the consumer of the codec.
    BespokeMessage(String),
}

impl Clone for Error {
    fn clone(&self) -> (copy: Error)
        ensures
            copy == *self,
    {
        match self {
            Error::MalformedTag => Error::MalformedTag,
            Error::UnexpectedEof => Error::UnexpectedEof,
            Error::SequenceTooLong => Error::SequenceTooLong,
            Error::TypeMismatch => Error::TypeMismatch,
            Error::NameTooLong => Error::NameTooLong,
            Error::RootMustBeCompound => Error::RootMustBeCompound,
            Error::LikelyCompressedInput => Error::LikelyCompressedInput,
            Error::BespokeMessage(message) => Error::BespokeMessage(message.clone()),
        }
    }
}

impl Error {
    /// The text that describes this error.
    pub open spec fn text(self) -> Seq<char> {
        match self {
            Error::MalformedTag => "malformed tag"@,
            Error::UnexpectedEof => "unexpected end of input"@,
            Error::SequenceTooLong => "sequence too long"@,
            Error::TypeMismatch => "type mismatch"@,
            Error::NameTooLong => "name too long"@,
            Error::RootMustBeCompound => "root must be a compound"@,
            Error::LikelyCompressedInput => "input appears to be gzip compressed"@,
            Error::BespokeMessage(message) => message@,
        }
    }

    /// Wraps a consumer's message.
    pub fn bespoke(message: String) -> (e: Error)
        ensures
            e == Error::BespokeMessage(message),
    {
        Error::BespokeMessage(message)
    }

    /// A description fit for showing to a user.
    pub fn to_string(&self) -> (s: String)
        ensures
            s@ == self.text(),
    {
        match self {
            Error::MalformedTag => "malformed tag".to_owned(),
            Error::UnexpectedEof => "unexpected end of input".to_owned(),
            Error::SequenceTooLong => "sequence too long".to_owned(),
            Error::TypeMismatch => "type mismatch".to_owned(),
            Error::NameTooLong => "name too long".to_owned(),
            Error::RootMustBeCompound => "root must be a compound".to_owned(),
            Error::LikelyCompressedInput => "input appears to be gzip compressed".to_owned(),
            Error::BespokeMessage(message) => message.clone(),
        }
    }
}

} // verus!

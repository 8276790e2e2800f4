//! The closed set of failures that operations of this crate report.

use vstd::prelude::*;
use vstd::string::StringExecFns;

verus! {

/// Why an operation did not complete.
#[derive(Clone, Copy, Debug, PartialEq, Eq, Structural)]
pub enum Error {
    /// No object, index or ref exists where one was looked for.
    NotFound,
    /// Stored bytes do not decompress, or lack the NUL that ends the header.
    CorruptObject,
    /// An object header is not a word, a space and decimal digits.
    MalformedHeader,
    /// An index does not start with its four magic bytes.
    BadSignature,
    /// An index declares a version other than 2.
    UnsupportedVersion,
    /// A name or path is not valid UTF-8 text.
    EncodingError,
    /// A path is longer than the twelve bits of the index length field allow.
    PathTooLong,
    /// `HEAD` holds a bare digest instead of a symbolic ref.
    UnsupportedState,
    /// An index ends before the entries that its header announces.
    Truncated,
    /// An index holds more entries than its four-byte count can express.
    TooManyEntries,
    /// The compressor reported a failure while an object was being stored.
    CompressionFailed,
}

impl Error {
    /// The text of the message, as a sequence of characters.
    pub open spec fn message_text(self) -> Seq<char> {
        match self {
            Error::NotFound => "not found"@,
            Error::CorruptObject => "corrupt object"@,
            Error::MalformedHeader => "malformed object header"@,
            Error::BadSignature => "invalid index signature"@,
            Error::UnsupportedVersion => "unsupported index version"@,
            Error::EncodingError => "name or path is not valid UTF-8"@,
            Error::PathTooLong => "path too long for the index"@,
            Error::UnsupportedState => "detached HEAD state is not supported"@,
            Error::Truncated => "index ends unexpectedly"@,
            Error::TooManyEntries => "too many index entries"@,
            Error::CompressionFailed => "compression failed"@,
        }
    }

    /// A short description for the user.
    pub fn message(&self) -> (text: String)
        ensures
            text@ == self.message_text(),
    {
        match self {
            Error::NotFound => String::from_str("not found"),
            Error::CorruptObject => String::from_str("corrupt object"),
            Error::MalformedHeader => String::from_str("malformed object header"),
            Error::BadSignature => String::from_str("invalid index signature"),
            Error::UnsupportedVersion => String::from_str("unsupported index version"),
            Error::EncodingError => String::from_str("name or path is not valid UTF-8"),
            Error::PathTooLong => String::from_str("path too long for the index"),
            Error::UnsupportedState => String::from_str("detached HEAD state is not supported"),
            Error::Truncated => String::from_str("index ends unexpectedly"),
            Error::TooManyEntries => String::from_str("too many index entries"),
            Error::CompressionFailed => String::from_str("compression failed"),
        }
    }
}

} // verus!

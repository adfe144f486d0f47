//! Error types shared by all parsers of this crate.

use crate::formats::common::{chars_to_string, extend_chars, render_u64, str_to_chars};
use crate::formats::common::dec_str;
use crate::formats::SubtitleFormat;
use vstd::prelude::*;

verus! {

/// A result type used crate-wide for error handling.
pub type Result<T> = core::result::Result<T, Error>;

#[derive(Clone, Copy, Debug, PartialEq, Eq, Structural)]
/// What a parser expected at the place where it stopped.
pub enum ExpectedToken {
    /// A subtitle index line (a line holding one integer).
    IndexLine,
    /// A timespan line like `00:24:45,670 --> 00:24:45,680`.
    TimespanLine,
    /// A timestamp like `00:41:36:961` after a `timestamp:` field.
    Timestamp,
    /// A subtitle line like `{0}{25}text1|text2`.
    SubtitleLine,
    /// A `Format:` line with one `Start`, one `End` and a final `Text`
    /// field inside an `[Events]` section.
    FieldsInfo,
    /// A dialogue line with the declared number of cells and well-formed
    /// timestamps.
    DialogueLine,
    /// A decodable `VobSub` packet stream.
    VobSubData,
}

#[derive(Clone, Copy, Debug, PartialEq, Eq, Structural)]
/// Error kind for a crate-wide error.
pub enum ErrorKind {
    /// Parsing error: the 0-based number of the line where the parse
    /// stopped, and what was expected there.
    ParsingError {
        /// The 0-based number of the offending line (for a record that was
        /// still open at the end of the input: the line count).
        line: usize,
        /// What the parser expected at that line.
        expected: ExpectedToken,
    },
    /// The file format is not supported by this library.
    UnknownFileFormat,
    /// Decoding the byte stream with the given encoding produced replacement
    /// characters.
    DecodingError,
    /// The attempted operation does not work on binary subtitle formats.
    TextFormatOnly,
    /// The attempted operation does not work on this format.
    UpdatingEntriesNotSupported {
        /// The format for which updating the subtitle entries is not supported.
        format: SubtitleFormat,
    },
}

/// The description an error kind renders to.
pub open spec fn spec_message(kind: ErrorKind) -> Seq<char> {
    match kind {
        ErrorKind::ParsingError { line, expected } => "expected "@ + (match expected {
            ExpectedToken::IndexLine => "a subtitle index line"@,
            ExpectedToken::TimespanLine => "a timespan line"@,
            ExpectedToken::Timestamp => "a timestamp"@,
            ExpectedToken::SubtitleLine => "a subtitle line"@,
            ExpectedToken::FieldsInfo => "a fields info line"@,
            ExpectedToken::DialogueLine => "a well-formed dialogue line"@,
            ExpectedToken::VobSubData => "a VobSub packet stream"@,
        }) + " at line "@ + dec_str(line as int),
        ErrorKind::UnknownFileFormat => "unknown file format"@,
        ErrorKind::DecodingError => "could not decode subtitle bytes to text"@,
        ErrorKind::TextFormatOnly => "operation only works on text subtitle formats"@,
        ErrorKind::UpdatingEntriesNotSupported { format } => "updating entries is not supported for this format"@,
    }
}

impl ErrorKind {
    /// A human-readable description of the error: for a parsing error, which
    /// token was expected and the 0-based line number.
    pub fn message(&self) -> (r: String)
        ensures
            r@ == spec_message(*self),
    {
        match *self {
            ErrorKind::ParsingError { line, expected } => {
                let mut v = str_to_chars("expected ");
                let tok = str_to_chars(
                    match expected {
                        ExpectedToken::IndexLine => "a subtitle index line",
                        ExpectedToken::TimespanLine => "a timespan line",
                        ExpectedToken::Timestamp => "a timestamp",
                        ExpectedToken::SubtitleLine => "a subtitle line",
                        ExpectedToken::FieldsInfo => "a fields info line",
                        ExpectedToken::DialogueLine => "a well-formed dialogue line",
                        ExpectedToken::VobSubData => "a VobSub packet stream",
                    },
                );
                extend_chars(&mut v, &tok);
                let at = str_to_chars(" at line ");
                extend_chars(&mut v, &at);
                let mut num = render_u64(line as u64);
                v.append(&mut num);
                proof {
                    assert(v@ =~= spec_message(*self));
                }
                chars_to_string(&v)
            },
            ErrorKind::UnknownFileFormat => {
                let s = String::from_str("unknown file format");
                s
            },
            ErrorKind::DecodingError => {
                let s = String::from_str("could not decode subtitle bytes to text");
                s
            },
            ErrorKind::TextFormatOnly => {
                let s = String::from_str("operation only works on text subtitle formats");
                s
            },
            ErrorKind::UpdatingEntriesNotSupported { format } => {
                let s = String::from_str("updating entries is not supported for this format");
                s
            },
        }
    }
}

#[derive(Clone, Copy, Debug)]
/// The error structure, wrapping the error kind enum variant.
pub struct Error {
    kind: ErrorKind,
}

impl View for Error {
    type V = ErrorKind;

    closed spec fn view(&self) -> ErrorKind {
        self.kind
    }
}

impl Error {
    /// Returns the actual error kind for this error.
    pub fn kind(&self) -> (k: ErrorKind)
        ensures
            k == self@,
    {
        self.kind
    }

    /// A human-readable description of this error.
    pub fn message(&self) -> (r: String)
        ensures
            r@ == spec_message(self@),
    {
        self.kind.message()
    }

    /// Wraps an error kind.
    pub fn from_kind(kind: ErrorKind) -> (r: Error)
        ensures
            r@ == kind,
    {
        Error { kind }
    }
}

} // verus!

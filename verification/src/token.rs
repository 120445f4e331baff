//! Tokens produced by the scanner, and the positions they carry.

use vstd::prelude::*;

verus! {

/// A position in the input: byte offset, line and column (both from zero).
#[derive(Clone, Copy, Debug, PartialEq, Eq)]
pub struct Mark {
    /// The byte offset from the start of the input.
    pub index: u64,
    /// The line, counted from zero.
    pub line: u64,
    /// The column, counted from zero in characters.
    pub column: u64,
}

impl Default for Mark {
    fn default() -> (r: Self)
        ensures
            r == (Mark { index: 0, line: 0, column: 0 }),
    {
        Mark { index: 0, line: 0, column: 0 }
    }
}

/// The stream encoding.
#[derive(Clone, Copy, Debug, PartialEq, Eq)]
pub enum Encoding {
    /// Let the parser choose the encoding.
    Any,
    /// The default UTF-8 encoding.
    Utf8,
    /// The UTF-16-LE encoding with BOM.
    Utf16Le,
    /// The UTF-16-BE encoding with BOM.
    Utf16Be,
}

/// Scalar styles.
#[derive(Clone, Copy, Debug, PartialEq, Eq)]
pub enum ScalarStyle {
    /// Let the emitter choose the style.
    Any,
    /// The plain scalar style.
    Plain,
    /// The single-quoted scalar style.
    SingleQuoted,
    /// The double-quoted scalar style.
    DoubleQuoted,
    /// The literal scalar style.
    Literal,
    /// The folded scalar style.
    Folded,
}

/// The kind of a token, with the data it carries.
#[derive(Clone, Debug, PartialEq, Eq)]
pub enum TokenData {
    /// A STREAM-START token.
    StreamStart {
        /// The stream encoding.
        encoding: Encoding,
    },
    /// A STREAM-END token.
    StreamEnd,
    /// A VERSION-DIRECTIVE token.
    VersionDirective {
        /// The major version number.
        major: i32,
        /// The minor version number.
        minor: i32,
    },
    /// A TAG-DIRECTIVE token.
    TagDirective {
        /// The tag handle.
        handle: String,
        /// The tag prefix.
        prefix: String,
    },
    /// A DOCUMENT-START token.
    DocumentStart,
    /// A DOCUMENT-END token.
    DocumentEnd,
    /// A BLOCK-SEQUENCE-START token.
    BlockSequenceStart,
    /// A BLOCK-MAPPING-START token.
    BlockMappingStart,
    /// A BLOCK-END token.
    BlockEnd,
    /// A FLOW-SEQUENCE-START token.
    FlowSequenceStart,
    /// A FLOW-SEQUENCE-END token.
    FlowSequenceEnd,
    /// A FLOW-MAPPING-START token.
    FlowMappingStart,
    /// A FLOW-MAPPING-END token.
    FlowMappingEnd,
    /// A BLOCK-ENTRY token.
    BlockEntry,
    /// A FLOW-ENTRY token.
    FlowEntry,
    /// A KEY token.
    Key,
    /// A VALUE token.
    Value,
    /// An ALIAS token.
    Alias {
        /// The alias value.
        value: String,
    },
    /// An ANCHOR token.
    Anchor {
        /// The anchor value.
        value: String,
    },
    /// A TAG token.
    Tag {
        /// The tag handle.
        handle: String,
        /// The tag suffix.
        suffix: String,
    },
    /// A SCALAR token.
    Scalar {
        /// The scalar value.
        value: String,
        /// The scalar style.
        style: ScalarStyle,
    },
}

/// A token: its kind and data, and where it starts and ends in the input.
#[derive(Clone, Debug, PartialEq, Eq)]
pub struct Token {
    /// The token type.
    pub data: TokenData,
    /// The beginning of the token.
    pub start_mark: Mark,
    /// The end of the token.
    pub end_mark: Mark,
}

/// A place where a mapping key may have begun without a `?` indicator.
#[derive(Clone, Copy, Debug, PartialEq, Eq)]
pub struct SimpleKey {
    /// Is a simple key possible?
    pub possible: bool,
    /// Is a simple key required?
    pub required: bool,
    /// The number of the token.
    pub token_number: usize,
    /// The position mark.
    pub mark: Mark,
}

/// The kind of an error.
#[derive(Clone, Copy, Debug, PartialEq, Eq)]
pub enum ErrorKind {
    /// An error found while scanning the input into tokens.
    Scanner,
}

/// An error with the problem found, where, and what was being scanned.
#[derive(Clone, Copy, Debug, PartialEq, Eq)]
pub struct Error {
    /// The kind of error.
    pub kind: ErrorKind,
    /// What was wrong.
    pub problem: &'static str,
    /// Where it was found.
    pub problem_mark: Mark,
    /// What was being scanned.
    pub context: &'static str,
    /// Where that began.
    pub context_mark: Mark,
}

impl Error {
    /// The scanner error with these details.
    pub open spec fn scanner_spec(
        context: &'static str,
        context_mark: Mark,
        problem: &'static str,
        problem_mark: Mark,
    ) -> Error {
        Error { kind: ErrorKind::Scanner, problem, problem_mark, context, context_mark }
    }

    /// A scanner error.
    pub fn scanner(
        context: &'static str,
        context_mark: Mark,
        problem: &'static str,
        problem_mark: Mark,
    ) -> (r: Error)
        ensures
            r == Error::scanner_spec(context, context_mark, problem, problem_mark),
    {
        Error { kind: ErrorKind::Scanner, problem, problem_mark, context, context_mark }
    }
}

/// The result of a scanning operation.
pub type Result<T> = core::result::Result<T, Error>;

} // verus!

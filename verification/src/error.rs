//! Why a parse attempt did not produce a value.

use vstd::prelude::*;

verus! {

/// The ways in which bytes at the front of a buffer can fail to be a value.
#[derive(Clone, Copy, Debug, PartialEq, Eq, Structural)]
pub enum InvalidKind {
    /// The text of an integer is not UTF-8.
    IntUtf8,
    /// The text of an integer is not a decimal literal of a 64-bit integer.
    Int,
    /// The text of a length is not UTF-8.
    LenUtf8,
    /// The text of a length is not a decimal literal of a machine-sized length.
    Len,
    /// A dictionary key is not a byte string.
    DictKey,
    /// The first byte cannot begin any value.
    Prefix,
}

impl InvalidKind {
    /// The diagnostic text of each kind.
    pub open spec fn text(self) -> &'static str {
        match self {
            InvalidKind::IntUtf8 => "invalid int utf8",
            InvalidKind::Int => "invalid int",
            InvalidKind::LenUtf8 => "invalid len utf8",
            InvalidKind::Len => "invalid len",
            InvalidKind::DictKey => "dict key must be bytes",
            InvalidKind::Prefix => "invalid bencode prefix",
        }
    }

    /// The diagnostic text, for a log line.
    pub fn message(&self) -> (r: &'static str)
        ensures
            r == self.text(),
    {
        match self {
            InvalidKind::IntUtf8 => "invalid int utf8",
            InvalidKind::Int => "invalid int",
            InvalidKind::LenUtf8 => "invalid len utf8",
            InvalidKind::Len => "invalid len",
            InvalidKind::DictKey => "dict key must be bytes",
            InvalidKind::Prefix => "invalid bencode prefix",
        }
    }
}

/// The outcome of a parse attempt that is not a value.
#[derive(Clone, Copy, Debug, PartialEq, Eq, Structural)]
pub enum ParseError {
    /// The buffer ends before the value does; more input may complete it.
    NeedMore,
    /// No input that follows can make the front of the buffer a value.
    Invalid(InvalidKind),
}

} // verus!

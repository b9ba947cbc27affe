//! What can go wrong in a parse, and where.

use vstd::prelude::*;

verus! {

/// A failure of the grammar, with the offset that it is reported at as a
/// mathematical integer.
pub enum Fault {
    /// The byte at the offset opens no token, or stands where a string's
    /// length should end in a colon.
    UnexpectedByte(int),
    /// The string that starts at the offset declares more bytes than follow.
    TruncatedString(int),
    /// The integer that starts at the offset is not a canonical decimal
    /// number that fits in 64 bits.
    MalformedInteger(int),
    /// The token that starts at the offset stands where a dictionary expects
    /// a key, and is no text.
    NonStringKey(int),
    /// The terminator at the offset closes nothing, or stands where a
    /// dictionary expects the value of a key.
    UnexpectedTerminator(int),
    /// The input, whose length is the offset, ends before the document does.
    UnterminatedDocument(int),
}

/// The error of a failed parse. Each variant carries a byte offset into the
/// input: that of the first byte of the token that the error was found in,
/// and for `UnterminatedDocument` the length of the input.
#[derive(Clone, Copy, Debug, PartialEq, Eq)]
pub enum ParseError {
    /// A byte that opens no token, or one that stands where a string's
    /// length should end in a colon.
    UnexpectedByte(usize),
    /// A string that declares more bytes than follow it.
    TruncatedString(usize),
    /// An integer that is not a canonical decimal number that fits in 64
    /// bits: it is empty, holds a byte that is no digit, has a leading zero
    /// or is `-0`.
    MalformedInteger(usize),
    /// A token other than a text where a dictionary expects a key.
    NonStringKey(usize),
    /// A terminator that closes nothing, or that stands where a dictionary
    /// expects the value of a key.
    UnexpectedTerminator(usize),
    /// The input ends before the document does.
    UnterminatedDocument(usize),
}

impl View for ParseError {
    type V = Fault;

    open spec fn view(&self) -> Fault {
        match self {
            ParseError::UnexpectedByte(at) => Fault::UnexpectedByte(*at as int),
            ParseError::TruncatedString(at) => Fault::TruncatedString(*at as int),
            ParseError::MalformedInteger(at) => Fault::MalformedInteger(*at as int),
            ParseError::NonStringKey(at) => Fault::NonStringKey(*at as int),
            ParseError::UnexpectedTerminator(at) => Fault::UnexpectedTerminator(*at as int),
            ParseError::UnterminatedDocument(at) => Fault::UnterminatedDocument(*at as int),
        }
    }
}

impl Fault {
    /// The offset that the failure is reported at.
    pub open spec fn offset(self) -> int {
        match self {
            Fault::UnexpectedByte(at) => at,
            Fault::TruncatedString(at) => at,
            Fault::MalformedInteger(at) => at,
            Fault::NonStringKey(at) => at,
            Fault::UnexpectedTerminator(at) => at,
            Fault::UnterminatedDocument(at) => at,
        }
    }
}

impl ParseError {
    /// The byte offset that the error is reported at.
    pub fn offset(&self) -> (at: usize)
        ensures
            at == self@.offset(),
    {
        match self {
            ParseError::UnexpectedByte(at) => *at,
            ParseError::TruncatedString(at) => *at,
            ParseError::MalformedInteger(at) => *at,
            ParseError::NonStringKey(at) => *at,
            ParseError::UnexpectedTerminator(at) => *at,
            ParseError::UnterminatedDocument(at) => *at,
        }
    }
}

} // verus!

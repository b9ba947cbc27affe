//! The scanners of the two tokens that stand for themselves: integers and
//! strings.

use crate::digits::{digits_to_u64, lemma_digit_run_end, scan_digits};
use crate::error::{Fault, ParseError};
use crate::grammar::{classified, integer, string};
use crate::marks::{COLON, DIGIT_ZERO, END_MARK, MINUS};
use crate::text::{hex_text, utf8_text};
use crate::value::{BEncode, Value};
use vstd::prelude::*;
use vstd::slice::{slice_subrange, slice_to_vec};

verus! {

/// The scanner's result is what the grammar says: the same value and the
/// same offset behind it, or the same failure.
pub open spec fn scanned(
    result: Result<(usize, BEncode), ParseError>,
    expected: Result<(Value, int), Fault>,
) -> bool {
    match result {
        Ok((next, token)) => expected == Ok::<(Value, int), Fault>((token@, next as int)),
        Err(error) => expected == Err::<(Value, int), Fault>(error@),
    }
}

impl BEncode {
    /// Makes a value of the bytes of a string: a `String` where they are
    /// valid UTF-8; where they are not, their lowercase hex rendering as a
    /// `String` if `parse_hex` is set, and else a `BinaryStr` of the bytes
    /// unchanged.
    pub fn classify(payload: &[u8], parse_hex: bool) -> (token: BEncode)
        ensures
            token@ == classified(payload@, parse_hex),
    {
        match utf8_text(payload) {
            Some(text) => {
                proof {
                    crate::text::lemma_text_of_bytes(text@, payload@);
                }
                BEncode::String(text.to_owned())
            },
            None => {
                if parse_hex {
                    BEncode::String(hex_text(payload))
                } else {
                    BEncode::BinaryStr(slice_to_vec(payload))
                }
            },
        }
    }

    /// Scans the integer whose lead byte is at `idx`, and gives the offset
    /// behind it with its value.
    pub fn parse_int(bytes: &[u8], idx: usize) -> (result: Result<(usize, BEncode), ParseError>)
        ensures
            scanned(result, integer(bytes@, idx as int)),
    {
        let len = bytes.len();
        if idx >= len {
            return Err(ParseError::UnterminatedDocument(len));
        }
        let negative = idx + 1 < len && bytes[idx + 1] == MINUS;
        let first = if negative {
            idx + 2
        } else {
            idx + 1
        };
        let end = scan_digits(bytes, first);
        proof {
            lemma_digit_run_end(bytes@, first as int);
        }
        if end >= len {
            return Err(ParseError::UnterminatedDocument(len));
        }
        if bytes[end] != END_MARK || end == first {
            return Err(ParseError::MalformedInteger(idx));
        }
        if bytes[first] == DIGIT_ZERO && (negative || end - first > 1) {
            return Err(ParseError::MalformedInteger(idx));
        }
        match digits_to_u64(bytes, first, end) {
            None => Err(ParseError::MalformedInteger(idx)),
            Some(magnitude) => {
                if negative {
                    if magnitude > 0x8000_0000_0000_0000u64 {
                        Err(ParseError::MalformedInteger(idx))
                    } else {
                        Ok((end + 1, BEncode::Int((-(magnitude as i128)) as i64)))
                    }
                } else {
                    if magnitude > 0x7fff_ffff_ffff_ffffu64 {
                        Err(ParseError::MalformedInteger(idx))
                    } else {
                        Ok((end + 1, BEncode::Int(magnitude as i64)))
                    }
                }
            },
        }
    }

    /// Scans the string that starts at `idx`, and gives the offset behind
    /// it with its value, which `classify` makes of its bytes.
    pub fn parse_str(bytes: &[u8], idx: usize, parse_hex: bool) -> (result: Result<
        (usize, BEncode),
        ParseError,
    >)
        ensures
            scanned(result, string(bytes@, idx as int, parse_hex)),
    {
        let len = bytes.len();
        let colon = scan_digits(bytes, idx);
        proof {
            lemma_digit_run_end(bytes@, idx as int);
        }
        if colon >= len {
            return Err(ParseError::UnterminatedDocument(len));
        }
        if colon == idx || bytes[colon] != COLON {
            return Err(ParseError::UnexpectedByte(colon));
        }
        let start = colon + 1;
        let left = len - start;
        match digits_to_u64(bytes, idx, colon) {
            None => Err(ParseError::TruncatedString(idx)),
            Some(length) => {
                if length > left as u64 {
                    Err(ParseError::TruncatedString(idx))
                } else {
                    let end = start + length as usize;
                    let payload = slice_subrange(bytes, start, end);
                    Ok((end, Self::classify(payload, parse_hex)))
                }
            },
        }
    }
}

} // verus!

//! The grammar of a document: what a sequence of bytes denotes, and with
//! which failure a sequence that denotes nothing is refused.
//!
//! Each function takes the whole input and the offset at which it reads,
//! and gives the value it read together with the offset behind it.

use crate::digits::{digit_run_end, digits_value, is_digit, lemma_digit_run_end};
use crate::error::Fault;
use crate::marks::{COLON, DICT_MARK, DIGIT_ZERO, END_MARK, INT_MARK, LIST_MARK, MINUS};
use crate::order::inserted;
use crate::text::lower_hex;
use crate::value::Value;
use vstd::prelude::*;
use vstd::utf8::{decode_utf8, valid_utf8};

verus! {

/// What a string's bytes become: the text that they encode where they are
/// valid UTF-8; where they are not, their lowercase hex rendering as a text
/// if `hex` is set, and else the bytes themselves.
pub open spec fn classified(payload: Seq<u8>, hex: bool) -> Value {
    if valid_utf8(payload) {
        Value::Text(decode_utf8(payload))
    } else if hex {
        Value::Text(lower_hex(payload))
    } else {
        Value::Bytes(payload)
    }
}

/// The digits of an integer are canonical: there is at least one, and a
/// leading zero stands alone and without a sign.
pub open spec fn canonical_digits(digits: Seq<u8>, negative: bool) -> bool {
    digits.len() >= 1 && (digits[0] == DIGIT_ZERO ==> digits.len() == 1 && !negative)
}

/// The integer token whose lead byte is at `pos`: an optional `-`, a run of
/// digits and `e`. Where the input ends before a byte that is no digit, the
/// document is unterminated. Else the token is malformed unless that byte is
/// `e`, the digits are canonical and the number fits in 64 bits.
pub open spec fn integer(input: Seq<u8>, pos: int) -> Result<(Value, int), Fault> {
    let negative = 0 <= pos + 1 < input.len() && input[pos + 1] == MINUS;
    let first = if negative {
        pos + 2
    } else {
        pos + 1
    };
    let end = digit_run_end(input, first);
    let digits = input.subrange(first, end);
    let number = if negative {
        -digits_value(digits)
    } else {
        digits_value(digits) as int
    };
    if end >= input.len() {
        Err(Fault::UnterminatedDocument(input.len() as int))
    } else if input[end] != END_MARK || !canonical_digits(digits, negative) || number < i64::MIN
        || number > i64::MAX {
        Err(Fault::MalformedInteger(pos))
    } else {
        Ok((Value::Int(number), end + 1))
    }
}

/// The string token that starts at `pos`: a run of digits, `:`, and as many
/// bytes as the digits say. Where the input ends within the digits, the
/// document is unterminated; a byte other than `:` behind them, or no digit
/// at all, is unexpected; and where fewer bytes follow the colon than the
/// digits say, the string is truncated.
pub open spec fn string(input: Seq<u8>, pos: int, hex: bool) -> Result<(Value, int), Fault> {
    let colon = digit_run_end(input, pos);
    let length = digits_value(input.subrange(pos, colon));
    if colon >= input.len() {
        Err(Fault::UnterminatedDocument(input.len() as int))
    } else if colon == pos || input[colon] != COLON {
        Err(Fault::UnexpectedByte(colon))
    } else if length > input.len() - (colon + 1) {
        Err(Fault::TruncatedString(pos))
    } else {
        Ok((classified(input.subrange(colon + 1, colon + 1 + length), hex), colon + 1 + length))
    }
}

/// A token read at `pos` ends at `next`: behind `pos` and within the input.
/// Every token that `value` reads does; the functions below ask for it
/// before they read on, which lets them be defined by recursion.
pub open spec fn reads_on(input: Seq<u8>, pos: int, next: int) -> bool {
    pos < next <= input.len()
}

/// The value that starts at `pos`. Its lead byte says what it is: `i` an
/// integer, a digit a string, `l` a list, `d` a dictionary. A terminator
/// where a value should start is unexpected, and so is any other byte.
pub open spec fn value(input: Seq<u8>, pos: int, hex: bool) -> Result<(Value, int), Fault>
    decreases input.len() - pos, 0nat,
{
    if pos < 0 || pos >= input.len() {
        Err(Fault::UnterminatedDocument(input.len() as int))
    } else if input[pos] == INT_MARK {
        integer(input, pos)
    } else if is_digit(input[pos]) {
        string(input, pos, hex)
    } else if input[pos] == LIST_MARK {
        list_rest(input, pos + 1, hex, Seq::empty())
    } else if input[pos] == DICT_MARK {
        dict_rest(input, pos + 1, hex, Seq::empty())
    } else if input[pos] == END_MARK {
        Err(Fault::UnexpectedTerminator(pos))
    } else {
        Err(Fault::UnexpectedByte(pos))
    }
}

/// The rest of a list of which `items` were read: at `pos` stands the
/// terminator, or another item.
pub open spec fn list_rest(input: Seq<u8>, pos: int, hex: bool, items: Seq<Value>) -> Result<
    (Value, int),
    Fault,
>
    decreases input.len() - pos, 1nat,
{
    if pos < 0 || pos >= input.len() {
        Err(Fault::UnterminatedDocument(input.len() as int))
    } else if input[pos] == END_MARK {
        Ok((Value::List(items), pos + 1))
    } else {
        match value(input, pos, hex) {
            Err(fault) => Err(fault),
            Ok((item, next)) => if reads_on(input, pos, next) {
                list_rest(input, next, hex, items.push(item))
            } else {
                Err(Fault::UnterminatedDocument(input.len() as int))
            },
        }
    }
}

/// The rest of a dictionary of which `entries` were read: at `pos` stands
/// the terminator, or a key and behind it the value of that key. A key is a
/// text; any other value in its place is refused, at the offset where it
/// starts. A value stored under a key that the dictionary has already
/// replaces the earlier one.
pub open spec fn dict_rest(
    input: Seq<u8>,
    pos: int,
    hex: bool,
    entries: Seq<(Seq<char>, Value)>,
) -> Result<(Value, int), Fault>
    decreases input.len() - pos, 1nat,
{
    if pos < 0 || pos >= input.len() {
        Err(Fault::UnterminatedDocument(input.len() as int))
    } else if input[pos] == END_MARK {
        Ok((Value::Dict(entries), pos + 1))
    } else {
        match value(input, pos, hex) {
            Err(fault) => Err(fault),
            Ok((Value::Text(key), after_key)) => if reads_on(input, pos, after_key) {
                match value(input, after_key, hex) {
                    Err(fault) => Err(fault),
                    Ok((item, next)) => if reads_on(input, after_key, next) {
                        dict_rest(input, next, hex, inserted(entries, key, item))
                    } else {
                        Err(Fault::UnterminatedDocument(input.len() as int))
                    },
                }
            } else {
                Err(Fault::UnterminatedDocument(input.len() as int))
            },
            Ok(_) => Err(Fault::NonStringKey(pos)),
        }
    }
}

/// What the input denotes: the value that starts at its first byte.
/// Whatever follows that value is not read.
pub open spec fn document(input: Seq<u8>, hex: bool) -> Result<Value, Fault> {
    match value(input, 0, hex) {
        Ok((root, _)) => Ok(root),
        Err(fault) => Err(fault),
    }
}

/// Every value that is read ends behind the offset at which it starts, and
/// within the input.
pub proof fn lemma_value_reads_on(input: Seq<u8>, pos: int, hex: bool)
    ensures
        value(input, pos, hex) matches Ok((_, next)) ==> reads_on(input, pos, next),
    decreases input.len() - pos, 0nat,
{
    if 0 <= pos < input.len() {
        if input[pos] == INT_MARK {
            lemma_digit_run_end(input, pos + 1);
            lemma_digit_run_end(input, pos + 2);
        } else if is_digit(input[pos]) {
            lemma_digit_run_end(input, pos);
        } else if input[pos] == LIST_MARK {
            lemma_list_rest_reads_on(input, pos + 1, hex, Seq::empty());
        } else if input[pos] == DICT_MARK {
            lemma_dict_rest_reads_on(input, pos + 1, hex, Seq::empty());
        }
    }
}

/// A list that is read to its end ends behind the offset at which its rest
/// starts, and within the input.
pub proof fn lemma_list_rest_reads_on(input: Seq<u8>, pos: int, hex: bool, items: Seq<Value>)
    ensures
        list_rest(input, pos, hex, items) matches Ok((_, next)) ==> reads_on(input, pos, next),
    decreases input.len() - pos, 1nat,
{
    if 0 <= pos < input.len() && input[pos] != END_MARK {
        lemma_value_reads_on(input, pos, hex);
        if let Ok((item, next)) = value(input, pos, hex) {
            lemma_list_rest_reads_on(input, next, hex, items.push(item));
        }
    }
}

/// A dictionary that is read to its end ends behind the offset at which
/// its rest starts, and within the input.
pub proof fn lemma_dict_rest_reads_on(
    input: Seq<u8>,
    pos: int,
    hex: bool,
    entries: Seq<(Seq<char>, Value)>,
)
    ensures
        dict_rest(input, pos, hex, entries) matches Ok((_, next)) ==> reads_on(input, pos, next),
    decreases input.len() - pos, 1nat,
{
    if 0 <= pos < input.len() && input[pos] != END_MARK {
        lemma_value_reads_on(input, pos, hex);
        if let Ok((Value::Text(key), after_key)) = value(input, pos, hex) {
            lemma_value_reads_on(input, after_key, hex);
            if let Ok((item, next)) = value(input, after_key, hex) {
                lemma_dict_rest_reads_on(input, next, hex, inserted(entries, key, item));
            }
        }
    }
}

} // verus!

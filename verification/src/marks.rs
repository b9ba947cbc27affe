//! The bytes that have a meaning of their own in the format.

use vstd::prelude::*;

verus! {

/// `0`, the first of the ten digits.
pub const DIGIT_ZERO: u8 = 48;

/// `9`, the last of the ten digits.
pub const DIGIT_NINE: u8 = 57;

/// `-`, the sign of a negative integer.
pub const MINUS: u8 = 45;

/// `:`, which parts a string's length from its bytes.
pub const COLON: u8 = 58;

/// `i`, which opens an integer.
pub const INT_MARK: u8 = 105;

/// `l`, which opens a list.
pub const LIST_MARK: u8 = 108;

/// `d`, which opens a dictionary.
pub const DICT_MARK: u8 = 100;

/// `e`, which closes an integer, a list or a dictionary.
pub const END_MARK: u8 = 101;

} // verus!

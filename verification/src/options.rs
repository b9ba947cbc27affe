//! The configurable options that the parser takes.

use vstd::prelude::*;

verus! {

/// Options of one parse.
#[derive(Clone, Copy, Debug, PartialEq, Eq)]
pub struct Options {
    /// Tells the parser what to make of a byte string that is not valid
    /// UTF-8: `true` renders it as a text of lowercase hex digits, `false`
    /// keeps it as an opaque byte sequence.
    pub parse_hex: bool,
}

impl Options {
    /// The default keeps byte strings that are not valid UTF-8 as they are,
    /// so that nothing is lost when the value is encoded again.
    pub fn default() -> (options: Self)
        ensures
            options == (Options { parse_hex: false }),
    {
        Self { parse_hex: false }
    }
}

} // verus!

//! A codec for bencode, the length-prefixed format of BitTorrent metadata:
//! a parser from bytes to a value, an encoder from a value to its canonical
//! bytes, and the value model that the two share.
//!
//! What the parser accepts is stated as a grammar in [`grammar`]; the parser
//! itself is a scan with an explicit stack, proved to follow that grammar.
//! [`roundtrip`] proves that what was encoded is parsed back unchanged.

pub mod digits;
pub mod encode;
pub mod error;
pub mod grammar;
pub mod marks;
pub mod options;
pub mod order;
pub mod parser;
pub mod render;
pub mod roundtrip;
pub mod scan;
pub mod text;
pub mod value;
pub mod wellformed;

pub use error::ParseError;
pub use options::Options;
pub use value::{BEncode, Dict};

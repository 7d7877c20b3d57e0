//! A decoder for the BEncode binary serialization format.
//!
//! BEncode (the wire format of torrent metainfo files) encodes byte strings,
//! integers, lists and dictionaries over a byte stream with explicit length
//! prefixes and terminator markers.  This crate parses an arbitrary byte
//! buffer into a tree of [`Item`] values, or fails cleanly on malformed or
//! truncated input, never reading past the buffer's end.
//!
//! The grammar is written down once as a specification-level parser
//! ([`grammar`]); the executable parser ([`parser`]) is proved to return
//! exactly what that specification says on every input; and [`laws`] proves
//! that decoding inverts a canonical encoder on every value the grammar can
//! produce.

pub mod bencoding;
pub mod grammar;
pub mod item;
pub mod laws;
pub mod parser;

pub use item::Item;
pub use item::ParseError;
pub use item::SpecItem;

pub use bencoding::BEncoding;
pub use parser::parse_bytearray;
pub use parser::parse_bytes;
pub use parser::parse_dictionary;
pub use parser::parse_integer;
pub use parser::parse_item;
pub use parser::parse_list;

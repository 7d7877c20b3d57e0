//! The public decoder: a parsed BEncode snippet and the entry points that
//! produce one from bytes or text.

use vstd::prelude::*;
use vstd::utf8::encode_utf8;

use crate::grammar::spec_parse_document;
use crate::item::Item;
use crate::item::SpecItem;
use crate::item::abs_items;
use crate::parser::parse_bytes;

verus! {

/// Represents an entire parsed BEncode snippet: the sequence of top-level
/// items decoded from one buffer, owned by the caller.
#[derive(Debug)]
pub struct BEncoding {
    items: Vec<Item>,
}

impl View for BEncoding {
    type V = Seq<SpecItem>;

    closed spec fn view(&self) -> Seq<SpecItem> {
        abs_items(self.items@)
    }
}

impl BEncoding {
    /// Decodes a byte buffer, returning `None` unless the whole buffer is one
    /// or more well-formed BEncode items with nothing left over.
    pub fn decode(bytes: &[u8]) -> (r: Option<Self>)
        ensures
            (match spec_parse_document(bytes@) {
                Ok(items) => r matches Some(b) && b@ == items,
                Err(_) => r is None,
            }),
    {
        match parse_bytes(bytes) {
            Ok(items) => Some(BEncoding { items }),
            Err(_) => None,
        }
    }

    /// Decodes a BEncode string by reading it as its UTF-8 bytes.
    pub fn decode_str(data: &str) -> (r: Option<Self>)
        ensures
            (match spec_parse_document(encode_utf8(data@)) {
                Ok(items) => r matches Some(b) && b@ == items,
                Err(_) => r is None,
            }),
    {
        Self::decode(data.as_bytes())
    }

    /// The decoded top-level items, in order.
    pub fn items(&self) -> (r: &Vec<Item>)
        ensures
            abs_items(r@) == self@,
    {
        &self.items
    }
}

} // verus!

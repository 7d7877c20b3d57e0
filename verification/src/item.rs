//! The data model: a decoded BEncode value, its mathematical shape, and the
//! reasons a parse can fail.

use vstd::prelude::*;

verus! {

/// Why a parse failed.  Every sub-parse failure propagates immediately and
/// unconditionally to the top-level call; there is no partial result.
#[derive(Debug, Clone, Copy, PartialEq, Eq)]
pub enum ParseError {
    /// The input ended before a production was complete: a declared length or
    /// an expected terminator was not found before the end of the buffer.
    Truncated,
    /// An integer production held a non-digit, an empty digit run, or a value
    /// that does not fit the target integer width.
    MalformedInteger,
    /// A dictionary key production was not a byte string, or its bytes were
    /// not valid UTF-8 text.
    MalformedKey,
    /// The next byte matched no production at an item boundary.
    UnexpectedByte,
    /// One or more well-formed items were parsed, but bytes remained that the
    /// top-level entry point requires to be consumed.
    TrailingData,
}

/// Represents a single decoded BEncode item.
///
/// Dictionary entries are kept in parse order; keys are unique (a later
/// binding of a key overwrites the value of the earlier one, in place).
#[derive(Debug, PartialEq)]
pub enum Item {
    ByteArray(Vec<u8>),
    Integer(usize),
    Dictionary(Vec<(String, Item)>),
    List(Vec<Item>),
}

/// The mathematical shape of a decoded item: what an [`Item`] stands for,
/// with sequences in place of vectors and character sequences in place of
/// strings.  Contracts throughout the crate speak of this type.
#[verifier::ext_equal]
pub enum SpecItem {
    ByteArray(Seq<u8>),
    Integer(usize),
    Dictionary(Seq<(Seq<char>, SpecItem)>),
    List(Seq<SpecItem>),
}

impl Item {
    /// The shape this item stands for.
    pub open spec fn deep(self) -> SpecItem
        decreases self,
    {
        match self {
            Item::ByteArray(b) => SpecItem::ByteArray(b@),
            Item::Integer(n) => SpecItem::Integer(n),
            Item::Dictionary(ps) => SpecItem::Dictionary(abs_pairs(ps@)),
            Item::List(v) => SpecItem::List(abs_items(v@)),
        }
    }
}

impl View for Item {
    type V = SpecItem;

    open spec fn view(&self) -> SpecItem {
        self.deep()
    }
}

/// The shapes of a sequence of items, elementwise.
pub open spec fn abs_items(v: Seq<Item>) -> Seq<SpecItem>
    decreases v,
{
    if v.len() == 0 {
        Seq::empty()
    } else {
        seq![v[0].deep()] + abs_items(v.drop_first())
    }
}

/// The shapes of a sequence of dictionary entries, elementwise.
pub open spec fn abs_pairs(ps: Seq<(String, Item)>) -> Seq<(Seq<char>, SpecItem)>
    decreases ps,
{
    if ps.len() == 0 {
        Seq::empty()
    } else {
        seq![(ps[0].0@, ps[0].1.deep())] + abs_pairs(ps.drop_first())
    }
}

/// [`abs_items`] maps a sequence elementwise: it keeps the length and takes
/// each element to its shape.
pub proof fn lemma_abs_items(v: Seq<Item>)
    ensures
        abs_items(v).len() == v.len(),
        forall|i: int| 0 <= i < v.len() ==> abs_items(v)[i] == v[i].deep(),
    decreases v,
{
    if v.len() > 0 {
        lemma_abs_items(v.drop_first());
    }
}

/// [`abs_pairs`] maps a sequence elementwise: it keeps the length and takes
/// each entry to its key's characters and its value's shape.
pub proof fn lemma_abs_pairs(ps: Seq<(String, Item)>)
    ensures
        abs_pairs(ps).len() == ps.len(),
        forall|i: int| 0 <= i < ps.len() ==> abs_pairs(ps)[i] == (ps[i].0@, ps[i].1.deep()),
    decreases ps,
{
    if ps.len() > 0 {
        lemma_abs_pairs(ps.drop_first());
    }
}

/// Appending an item and then taking shapes is taking shapes and then
/// appending the item's shape.
pub proof fn lemma_abs_items_push(v: Seq<Item>, x: Item)
    ensures
        abs_items(v.push(x)) == abs_items(v).push(x.deep()),
{
    lemma_abs_items(v);
    lemma_abs_items(v.push(x));
    assert(abs_items(v.push(x)) =~= abs_items(v).push(x.deep()));
}

/// The entry-sequence analogue of [`lemma_abs_items_push`].
pub proof fn lemma_abs_pairs_push(ps: Seq<(String, Item)>, k: String, x: Item)
    ensures
        abs_pairs(ps.push((k, x))) == abs_pairs(ps).push((k@, x.deep())),
{
    lemma_abs_pairs(ps);
    lemma_abs_pairs(ps.push((k, x)));
    assert(abs_pairs(ps.push((k, x))) =~= abs_pairs(ps).push((k@, x.deep())));
}

} // verus!

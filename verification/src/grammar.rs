//! The BEncode grammar, written down as a total specification-level parser.
//!
//! [`spec_parse_item`] is the meaning of the grammar dispatch applied at an
//! item boundary: it says, for every buffer and position, exactly which value
//! a well-formed production denotes and, for every ill-formed one, the reason
//! it is rejected.  The executable parser is proved to return precisely what
//! these functions say.

use vstd::prelude::*;
use vstd::utf8::decode_utf8;
use vstd::utf8::valid_utf8;

use crate::item::ParseError;
use crate::item::SpecItem;

verus! {

/// Start marker for an integer production.
pub const INTEGER_START: u8 = 105;

/// Start marker for a list production.
pub const LIST_START: u8 = 108;

/// Start marker for a dictionary production.
pub const DICT_START: u8 = 100;

/// End marker for integers, lists and dictionaries.
pub const END: u8 = 101;

/// Separator between a byte string's declared length and its payload.
pub const ARRAY_SEP: u8 = 58;

/// Whether a byte is an ASCII decimal digit.
pub open spec fn is_digit(b: u8) -> bool {
    48 <= b <= 57
}

/// The position just past the maximal run of decimal digits starting at `i`.
pub open spec fn digit_run_end(s: Seq<u8>, i: int) -> int
    decreases s.len() - i,
{
    if i < 0 || i >= s.len() || !is_digit(s[i]) {
        i
    } else {
        digit_run_end(s, i + 1)
    }
}

/// The value of the decimal digit run `s[i .. j)`, most significant first.
pub open spec fn digits_value(s: Seq<u8>, i: int, j: int) -> int
    decreases j - i,
{
    if i >= j {
        0
    } else {
        digits_value(s, i, j - 1) * 10 + (s[j - 1] - 48)
    }
}

/// A byte-string production at `i`: a maximal run of decimal digits giving
/// the declared length `L`, the separator, then exactly `L` payload bytes.
/// Fails if the digit run is empty, if the separator is missing, or if fewer
/// than `L` bytes remain.
pub open spec fn spec_parse_bytearray(s: Seq<u8>, i: int) -> Result<(Seq<u8>, int), ParseError> {
    let e = digit_run_end(s, i);
    if i < 0 || i >= s.len() {
        Err(ParseError::Truncated)
    } else if e == i {
        Err(ParseError::UnexpectedByte)
    } else if e >= s.len() {
        Err(ParseError::Truncated)
    } else if s[e] != ARRAY_SEP {
        Err(ParseError::UnexpectedByte)
    } else if digits_value(s, i, e) > s.len() - (e + 1) {
        Err(ParseError::Truncated)
    } else {
        Ok((s.subrange(e + 1, e + 1 + digits_value(s, i, e)), e + 1 + digits_value(s, i, e)))
    }
}

/// An integer production at `i`: the start marker, a maximal run of decimal
/// digits as the unsigned magnitude, then the end marker.  Fails if the digit
/// run is empty, if a non-digit byte stands before the end marker, or if the
/// magnitude does not fit in `usize`.
pub open spec fn spec_parse_integer(s: Seq<u8>, i: int) -> Result<(usize, int), ParseError> {
    if i < 0 || i >= s.len() {
        Err(ParseError::Truncated)
    } else if s[i] != INTEGER_START {
        Err(ParseError::UnexpectedByte)
    } else {
        let e = digit_run_end(s, i + 1);
        if e >= s.len() {
            Err(ParseError::Truncated)
        } else if s[e] != END {
            Err(ParseError::MalformedInteger)
        } else if e == i + 1 {
            Err(ParseError::MalformedInteger)
        } else if digits_value(s, i + 1, e) > usize::MAX {
            Err(ParseError::MalformedInteger)
        } else {
            Ok((digits_value(s, i + 1, e) as usize, e + 1))
        }
    }
}

/// Insert a binding into a dictionary kept in parse order: a later binding of
/// a present key overwrites that key's value in place; a new key is appended.
pub open spec fn dict_insert(
    ps: Seq<(Seq<char>, SpecItem)>,
    k: Seq<char>,
    v: SpecItem,
) -> Seq<(Seq<char>, SpecItem)>
    decreases ps.len(),
{
    if ps.len() == 0 {
        seq![(k, v)]
    } else if ps[0].0 == k {
        seq![(k, v)] + ps.drop_first()
    } else {
        seq![ps[0]] + dict_insert(ps.drop_first(), k, v)
    }
}

/// An item production at `i`: dispatch on the leading byte to an integer, a
/// list, a dictionary or a byte string.  Any other leading byte, or end of
/// input where an item is expected, is a parse failure.
pub open spec fn spec_parse_item(s: Seq<u8>, i: int) -> Result<(SpecItem, int), ParseError>
    decreases s.len() - i, 0int,
{
    if i < 0 || i >= s.len() {
        Err(ParseError::Truncated)
    } else if s[i] == INTEGER_START {
        match spec_parse_integer(s, i) {
            Ok((n, j)) => Ok((SpecItem::Integer(n), j)),
            Err(e) => Err(e),
        }
    } else if s[i] == LIST_START {
        match spec_parse_list_items(s, i + 1, Seq::empty()) {
            Ok((items, j)) => Ok((SpecItem::List(items), j)),
            Err(e) => Err(e),
        }
    } else if s[i] == DICT_START {
        match spec_parse_dict_pairs(s, i + 1, Seq::empty()) {
            Ok((ps, j)) => Ok((SpecItem::Dictionary(ps), j)),
            Err(e) => Err(e),
        }
    } else if is_digit(s[i]) {
        match spec_parse_bytearray(s, i) {
            Ok((b, j)) => Ok((SpecItem::ByteArray(b), j)),
            Err(e) => Err(e),
        }
    } else {
        Err(ParseError::UnexpectedByte)
    }
}

/// The items of a list production, from `i` up to and including the end
/// marker, appended to `acc`.  Zero items is valid.
///
/// The branches that stop when a sub-parse fails to move forward keep the
/// recursion well-founded; [`lemma_parse_item_advances`] shows they are never
/// reached.
pub open spec fn spec_parse_list_items(
    s: Seq<u8>,
    i: int,
    acc: Seq<SpecItem>,
) -> Result<(Seq<SpecItem>, int), ParseError>
    decreases s.len() - i, 1int,
{
    if i < 0 || i >= s.len() {
        Err(ParseError::Truncated)
    } else if s[i] == END {
        Ok((acc, i + 1))
    } else {
        match spec_parse_item(s, i) {
            Err(e) => Err(e),
            Ok((v, j)) => if j <= i || j > s.len() {
                Err(ParseError::Truncated)
            } else {
                spec_parse_list_items(s, j, acc.push(v))
            },
        }
    }
}

/// The entries of a dictionary production, from `i` up to and including the
/// end marker, folded into `acc` by [`dict_insert`].  Each entry is a
/// byte-string key whose bytes must be valid UTF-8 text, then an item.  Zero
/// entries is valid.
pub open spec fn spec_parse_dict_pairs(
    s: Seq<u8>,
    i: int,
    acc: Seq<(Seq<char>, SpecItem)>,
) -> Result<(Seq<(Seq<char>, SpecItem)>, int), ParseError>
    decreases s.len() - i, 1int,
{
    if i < 0 || i >= s.len() {
        Err(ParseError::Truncated)
    } else if s[i] == END {
        Ok((acc, i + 1))
    } else if !is_digit(s[i]) {
        Err(ParseError::MalformedKey)
    } else {
        match spec_parse_bytearray(s, i) {
            Err(e) => Err(e),
            Ok((kb, j)) => if !valid_utf8(kb) {
                Err(ParseError::MalformedKey)
            } else if j <= i || j > s.len() {
                Err(ParseError::Truncated)
            } else {
                match spec_parse_item(s, j) {
                    Err(e) => Err(e),
                    Ok((v, j2)) => if j2 <= j || j2 > s.len() {
                        Err(ParseError::Truncated)
                    } else {
                        spec_parse_dict_pairs(s, j2, dict_insert(acc, decode_utf8(kb), v))
                    },
                }
            },
        }
    }
}

/// A list production at `i`: the start marker, the items, the end marker.
pub open spec fn spec_parse_list(s: Seq<u8>, i: int) -> Result<(Seq<SpecItem>, int), ParseError> {
    if i < 0 || i >= s.len() {
        Err(ParseError::Truncated)
    } else if s[i] != LIST_START {
        Err(ParseError::UnexpectedByte)
    } else {
        spec_parse_list_items(s, i + 1, Seq::empty())
    }
}

/// A dictionary production at `i`: the start marker, the entries, the end
/// marker.
pub open spec fn spec_parse_dictionary(s: Seq<u8>, i: int) -> Result<
    (Seq<(Seq<char>, SpecItem)>, int),
    ParseError,
> {
    if i < 0 || i >= s.len() {
        Err(ParseError::Truncated)
    } else if s[i] != DICT_START {
        Err(ParseError::UnexpectedByte)
    } else {
        spec_parse_dict_pairs(s, i + 1, Seq::empty())
    }
}

/// Greedily parse further items after a first one, as long as another item
/// begins; stop, without failing, at the first position where none does.
pub open spec fn spec_parse_rest(s: Seq<u8>, i: int, acc: Seq<SpecItem>) -> (Seq<SpecItem>, int)
    decreases s.len() - i, 1int,
{
    if i < 0 || i >= s.len() {
        (acc, i)
    } else {
        match spec_parse_item(s, i) {
            Err(_) => (acc, i),
            Ok((v, j)) => if j <= i || j > s.len() {
                (acc, i)
            } else {
                spec_parse_rest(s, j, acc.push(v))
            },
        }
    }
}

/// When the key is already bound, [`dict_insert`] overwrites the first
/// binding in place.
pub proof fn lemma_dict_insert_found(
    ps: Seq<(Seq<char>, SpecItem)>,
    k: Seq<char>,
    v: SpecItem,
    idx: int,
)
    requires
        0 <= idx < ps.len(),
        ps[idx].0 == k,
        forall|t: int| 0 <= t < idx ==> ps[t].0 != k,
    ensures
        dict_insert(ps, k, v) == ps.update(idx, (k, v)),
    decreases idx,
{
    if idx == 0 {
        assert(dict_insert(ps, k, v) =~= ps.update(0, (k, v)));
    } else {
        lemma_dict_insert_found(ps.drop_first(), k, v, idx - 1);
        assert(seq![ps[0]] + ps.drop_first().update(idx - 1, (k, v)) =~= ps.update(idx, (k, v)));
    }
}

/// When the key is not yet bound, [`dict_insert`] appends the binding.
pub proof fn lemma_dict_insert_absent(ps: Seq<(Seq<char>, SpecItem)>, k: Seq<char>, v: SpecItem)
    requires
        forall|t: int| 0 <= t < ps.len() ==> ps[t].0 != k,
    ensures
        dict_insert(ps, k, v) == ps.push((k, v)),
    decreases ps.len(),
{
    if ps.len() == 0 {
        assert(dict_insert(ps, k, v) =~= ps.push((k, v)));
    } else {
        lemma_dict_insert_absent(ps.drop_first(), k, v);
        assert(seq![ps[0]] + ps.drop_first().push((k, v)) =~= ps.push((k, v)));
    }
}

/// The digit run starting at `i` ends between `i` and the end of the buffer;
/// every byte before its end is a digit, and the byte at its end, if there is
/// one, is not.
pub proof fn lemma_digit_run_end(s: Seq<u8>, i: int)
    requires
        0 <= i <= s.len(),
    ensures
        i <= digit_run_end(s, i) <= s.len(),
        forall|k: int| i <= k < digit_run_end(s, i) ==> is_digit(s[k]),
        digit_run_end(s, i) < s.len() ==> !is_digit(s[digit_run_end(s, i)]),
    decreases s.len() - i,
{
    if i < s.len() && is_digit(s[i]) {
        lemma_digit_run_end(s, i + 1);
    }
}

/// The value of a digit run is never negative.
pub proof fn lemma_digits_value_nonneg(s: Seq<u8>, i: int, j: int)
    requires
        forall|k: int| i <= k < j ==> is_digit(s[k]),
    ensures
        0 <= digits_value(s, i, j),
    decreases j - i,
{
    if i < j {
        lemma_digits_value_nonneg(s, i, j - 1);
    }
}

/// Extending a digit run to the right never lowers its value.
pub proof fn lemma_digits_value_mono(s: Seq<u8>, i: int, j: int, j2: int)
    requires
        i <= j <= j2,
        forall|k: int| i <= k < j2 ==> is_digit(s[k]),
    ensures
        digits_value(s, i, j) <= digits_value(s, i, j2),
    decreases j2 - j,
{
    if j < j2 {
        lemma_digits_value_mono(s, i, j, j2 - 1);
        lemma_digits_value_nonneg(s, i, j2 - 1);
    }
}

/// A successful item parse consumes at least one byte and never reads past
/// the end of the buffer.  In particular the stop branches of
/// [`spec_parse_list_items`] and [`spec_parse_dict_pairs`] are never reached.
pub proof fn lemma_parse_item_advances(s: Seq<u8>, i: int)
    ensures
        spec_parse_item(s, i) matches Ok(p) ==> i < p.1 <= s.len(),
    decreases s.len() - i, 0int,
{
    if 0 <= i < s.len() {
        if s[i] == INTEGER_START {
            lemma_digit_run_end(s, i + 1);
        } else if s[i] == LIST_START {
            lemma_parse_list_items_advances(s, i + 1, Seq::empty());
        } else if s[i] == DICT_START {
            lemma_parse_dict_pairs_advances(s, i + 1, Seq::empty());
        } else if is_digit(s[i]) {
            lemma_parse_bytearray_advances(s, i);
        }
    }
}

/// The byte-string analogue of [`lemma_parse_item_advances`].
pub proof fn lemma_parse_bytearray_advances(s: Seq<u8>, i: int)
    ensures
        spec_parse_bytearray(s, i) matches Ok(p) ==> i < p.1 <= s.len(),
{
    if 0 <= i < s.len() {
        lemma_digit_run_end(s, i);
        let e = digit_run_end(s, i);
        if e != i && e < s.len() && s[e] == ARRAY_SEP {
            lemma_digits_value_nonneg(s, i, e);
        }
    }
}

/// The list-items analogue of [`lemma_parse_item_advances`].
pub proof fn lemma_parse_list_items_advances(s: Seq<u8>, i: int, acc: Seq<SpecItem>)
    ensures
        spec_parse_list_items(s, i, acc) matches Ok(p) ==> i < p.1 <= s.len(),
    decreases s.len() - i, 1int,
{
    if 0 <= i < s.len() && s[i] != END {
        lemma_parse_item_advances(s, i);
        if let Ok((v, j)) = spec_parse_item(s, i) {
            if i < j <= s.len() {
                lemma_parse_list_items_advances(s, j, acc.push(v));
            }
        }
    }
}

/// The dictionary-entries analogue of [`lemma_parse_item_advances`].
pub proof fn lemma_parse_dict_pairs_advances(
    s: Seq<u8>,
    i: int,
    acc: Seq<(Seq<char>, SpecItem)>,
)
    ensures
        spec_parse_dict_pairs(s, i, acc) matches Ok(p) ==> i < p.1 <= s.len(),
    decreases s.len() - i, 1int,
{
    if 0 <= i < s.len() && s[i] != END && is_digit(s[i]) {
        lemma_parse_bytearray_advances(s, i);
        if let Ok((kb, j)) = spec_parse_bytearray(s, i) {
            if valid_utf8(kb) && i < j <= s.len() {
                lemma_parse_item_advances(s, j);
                if let Ok((v, j2)) = spec_parse_item(s, j) {
                    if j < j2 <= s.len() {
                        lemma_parse_dict_pairs_advances(
                            s,
                            j2,
                            dict_insert(acc, decode_utf8(kb), v),
                        );
                    }
                }
            }
        }
    }
}

/// A whole buffer: one or more concatenated top-level items, with nothing
/// left over.  An empty buffer is a parse failure, not an empty document;
/// bytes that remain after the last parsable item are trailing data.
pub open spec fn spec_parse_document(s: Seq<u8>) -> Result<Seq<SpecItem>, ParseError> {
    match spec_parse_item(s, 0) {
        Err(e) => Err(e),
        Ok((v, j)) => {
            let (items, end) = spec_parse_rest(s, j, seq![v]);
            if end == s.len() {
                Ok(items)
            } else {
                Err(ParseError::TrailingData)
            }
        },
    }
}

} // verus!

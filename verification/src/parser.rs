//! The executable parser: recursive descent over a byte buffer, proved to
//! return exactly what the grammar's specification-level parser says, for
//! every input.
//!
//! Every function takes the buffer and the position to start at, and on
//! success returns the parsed value together with the position just past it.

use vstd::prelude::*;
use vstd::slice::slice_subrange;
use vstd::slice::slice_to_vec;

use vstd::utf8::decode_utf8;
use vstd::utf8::valid_utf8;

use crate::grammar::ARRAY_SEP;
use crate::grammar::DICT_START;
use crate::grammar::END;
use crate::grammar::INTEGER_START;
use crate::grammar::LIST_START;
use crate::grammar::dict_insert;
use crate::grammar::digit_run_end;
use crate::grammar::digits_value;
use crate::grammar::is_digit;
use crate::grammar::lemma_dict_insert_absent;
use crate::grammar::lemma_dict_insert_found;
use crate::grammar::lemma_digit_run_end;
use crate::grammar::lemma_digits_value_mono;
use crate::grammar::spec_parse_bytearray;
use crate::grammar::spec_parse_dict_pairs;
use crate::grammar::spec_parse_dictionary;
use crate::grammar::spec_parse_document;
use crate::grammar::spec_parse_integer;
use crate::grammar::spec_parse_item;
use crate::grammar::spec_parse_list;
use crate::grammar::spec_parse_list_items;
use crate::grammar::spec_parse_rest;
use crate::item::Item;
use crate::item::ParseError;
use crate::item::SpecItem;
use crate::item::abs_items;
use crate::item::abs_pairs;
use crate::item::lemma_abs_items_push;
use crate::item::lemma_abs_pairs;

verus! {

/// Parse a single BEncoded integer of the form `i<digits>e`.
pub fn parse_integer(input: &[u8], from: usize) -> (r: Result<(usize, usize), ParseError>)
    requires
        from <= input@.len(),
    ensures
        (match spec_parse_integer(input@, from as int) {
            Ok(p) => r matches Ok(q) && q.0 == p.0 && q.1 as int == p.1,
            Err(e) => r matches Err(e2) && e2 == e,
        }),
        r matches Ok(q) ==> from < q.1 <= input@.len(),
{
    let ghost s = input@;
    if from >= input.len() {
        return Err(ParseError::Truncated);
    }
    if input[from] != INTEGER_START {
        return Err(ParseError::UnexpectedByte);
    }
    let mut j: usize = from + 1;
    while j < input.len() && input[j] >= 48 && input[j] <= 57
        invariant
            from + 1 <= j <= s.len(),
            input@ == s,
            digit_run_end(s, from + 1) == digit_run_end(s, j as int),
        decreases s.len() - j,
    {
        j = j + 1;
    }
    proof {
        lemma_digit_run_end(s, from + 1);
    }
    assert(j as int == digit_run_end(s, from + 1));
    if j >= input.len() {
        return Err(ParseError::Truncated);
    }
    if input[j] != END {
        return Err(ParseError::MalformedInteger);
    }
    if j == from + 1 {
        return Err(ParseError::MalformedInteger);
    }
    let mut acc: usize = 0;
    let mut k: usize = from + 1;
    while k < j
        invariant
            from + 1 <= k <= j <= s.len(),
            input@ == s,
            from < s.len(),
            s[from as int] == INTEGER_START,
            j as int == digit_run_end(s, from + 1),
            j < s.len(),
            s[j as int] == END,
            from + 1 < j,
            forall|t: int| from + 1 <= t < j ==> is_digit(s[t]),
            acc as int == digits_value(s, from + 1, k as int),
        decreases j - k,
    {
        let d = input[k] - 48;
        if acc > (usize::MAX - d as usize) / 10 {
            proof {
                let m = (usize::MAX - d) as int;
                assert(m == (m / 10) * 10 + m % 10);
                assert(acc as int * 10 + d as int > usize::MAX as int);
                assert(digits_value(s, from + 1, k + 1) == acc as int * 10 + d as int);
                lemma_digits_value_mono(s, from + 1, k + 1, j as int);
            }
            return Err(ParseError::MalformedInteger);
        }
        proof {
            let m = (usize::MAX - d) as int;
            assert(m == (m / 10) * 10 + m % 10);
            assert(acc as int * 10 + d as int <= usize::MAX as int);
        }
        acc = acc * 10 + d as usize;
        k = k + 1;
    }
    Ok((acc, j + 1))
}

/// Parse a single BEncoded byte string of the form `<length>:<data>`,
/// returning an owned copy of the payload.
pub fn parse_bytearray(input: &[u8], from: usize) -> (r: Result<(Vec<u8>, usize), ParseError>)
    requires
        from <= input@.len(),
    ensures
        (match spec_parse_bytearray(input@, from as int) {
            Ok(p) => r matches Ok(q) && q.0@ == p.0 && q.1 as int == p.1,
            Err(e) => r matches Err(e2) && e2 == e,
        }),
        r matches Ok(q) ==> from < q.1 <= input@.len(),
{
    let ghost s = input@;
    if from >= input.len() {
        return Err(ParseError::Truncated);
    }
    let mut j: usize = from;
    while j < input.len() && input[j] >= 48 && input[j] <= 57
        invariant
            from <= j <= s.len(),
            input@ == s,
            digit_run_end(s, from as int) == digit_run_end(s, j as int),
        decreases s.len() - j,
    {
        j = j + 1;
    }
    proof {
        lemma_digit_run_end(s, from as int);
    }
    assert(j as int == digit_run_end(s, from as int));
    if j == from {
        return Err(ParseError::UnexpectedByte);
    }
    if j >= input.len() {
        return Err(ParseError::Truncated);
    }
    if input[j] != ARRAY_SEP {
        return Err(ParseError::UnexpectedByte);
    }
    // The payload can hold at most the bytes that remain after the separator,
    // so a declared length beyond that, overflowing or not, is truncation.
    let remaining: usize = input.len() - (j + 1);
    let mut len: usize = 0;
    let mut k: usize = from;
    while k < j
        invariant
            from <= k <= j <= s.len(),
            input@ == s,
            from < j,
            j as int == digit_run_end(s, from as int),
            j < s.len(),
            s[j as int] == ARRAY_SEP,
            remaining as int == s.len() - (j + 1),
            forall|t: int| from <= t < j ==> is_digit(s[t]),
            len as int == digits_value(s, from as int, k as int),
            len <= remaining,
        decreases j - k,
    {
        let d = input[k] - 48;
        let ghost next = digits_value(s, from as int, k + 1);
        proof {
            assert(next == len as int * 10 + d as int);
            lemma_digits_value_mono(s, from as int, k + 1, j as int);
        }
        if len > (usize::MAX - d as usize) / 10 {
            proof {
                let m = (usize::MAX - d) as int;
                assert(m == (m / 10) * 10 + m % 10);
                assert(next > usize::MAX as int);
            }
            return Err(ParseError::Truncated);
        }
        proof {
            let m = (usize::MAX - d) as int;
            assert(m == (m / 10) * 10 + m % 10);
            assert(next <= usize::MAX as int);
        }
        len = len * 10 + d as usize;
        if len > remaining {
            return Err(ParseError::Truncated);
        }
        k = k + 1;
    }
    let payload = slice_to_vec(slice_subrange(input, j + 1, j + 1 + len));
    Ok((payload, j + 1 + len))
}

/// Relies on `String::from_utf8`: the conversion succeeds exactly when the
/// bytes are valid UTF-8 in the sense of vstd's model, and then the string's
/// characters are their decoding.
#[verifier::external_body]
fn utf8_to_string(bytes: Vec<u8>) -> (r: Option<String>)
    ensures
        (r matches Some(t) ==> valid_utf8(bytes@) && t@ == decode_utf8(bytes@)),
        (r is None ==> !valid_utf8(bytes@)),
{
    String::from_utf8(bytes).ok()
}

/// The position of the first binding of a key, if the key is bound.
fn find_key(entries: &Vec<(String, Item)>, k: &String) -> (r: Option<usize>)
    ensures
        (r matches Some(i) ==> i < entries@.len() && entries@[i as int].0@ == k@ && forall|t: int|
            0 <= t < i ==> entries@[t].0@ != k@),
        (r is None ==> forall|t: int| 0 <= t < entries@.len() ==> entries@[t].0@ != k@),
{
    let mut idx: usize = 0;
    while idx < entries.len()
        invariant
            idx <= entries@.len(),
            forall|t: int| 0 <= t < idx ==> entries@[t].0@ != k@,
        decreases entries@.len() - idx,
    {
        if entries[idx].0 == *k {
            return Some(idx);
        }
        idx = idx + 1;
    }
    None
}

/// Bind a key in a dictionary kept in parse order: overwrite the value of an
/// existing binding of the same key in place, or append a new binding.
fn dict_set(entries: &mut Vec<(String, Item)>, k: String, v: Item)
    ensures
        abs_pairs(final(entries)@) == dict_insert(abs_pairs(old(entries)@), k@, v.deep()),
{
    let ghost gps = entries@;
    let ghost gk = k@;
    let ghost gv = v.deep();
    proof {
        lemma_abs_pairs(gps);
    }
    if let Some(idx) = find_key(entries, &k) {
        proof {
            lemma_dict_insert_found(abs_pairs(gps), gk, gv, idx as int);
        }
        entries[idx] = (k, v);
        proof {
            lemma_abs_pairs(entries@);
            assert(abs_pairs(entries@) =~= abs_pairs(gps).update(idx as int, (gk, gv)));
        }
    } else {
        proof {
            lemma_dict_insert_absent(abs_pairs(gps), gk, gv);
        }
        entries.push((k, v));
        proof {
            lemma_abs_pairs(entries@);
            assert(abs_pairs(entries@) =~= abs_pairs(gps).push((gk, gv)));
        }
    }
}

/// Parse any BEncoded item, dispatching on its leading byte.
pub fn parse_item(input: &[u8], from: usize) -> (r: Result<(Item, usize), ParseError>)
    requires
        from <= input@.len(),
    ensures
        (match spec_parse_item(input@, from as int) {
            Ok(p) => r matches Ok(q) && q.0.deep() == p.0 && q.1 as int == p.1,
            Err(e) => r matches Err(e2) && e2 == e,
        }),
        r matches Ok(q) ==> from < q.1 <= input@.len(),
    decreases input@.len() - from, 1int,
{
    if from >= input.len() {
        return Err(ParseError::Truncated);
    }
    let b = input[from];
    if b == INTEGER_START {
        match parse_integer(input, from) {
            Ok((n, j)) => Ok((Item::Integer(n), j)),
            Err(e) => Err(e),
        }
    } else if b == LIST_START {
        match parse_list(input, from) {
            Ok((v, j)) => Ok((Item::List(v), j)),
            Err(e) => Err(e),
        }
    } else if b == DICT_START {
        match parse_dictionary(input, from) {
            Ok((ps, j)) => Ok((Item::Dictionary(ps), j)),
            Err(e) => Err(e),
        }
    } else if b >= 48 && b <= 57 {
        match parse_bytearray(input, from) {
            Ok((v, j)) => Ok((Item::ByteArray(v), j)),
            Err(e) => Err(e),
        }
    } else {
        Err(ParseError::UnexpectedByte)
    }
}

/// Parse a BEncoded list of the form `l<item>*e`.
pub fn parse_list(input: &[u8], from: usize) -> (r: Result<(Vec<Item>, usize), ParseError>)
    requires
        from <= input@.len(),
    ensures
        (match spec_parse_list(input@, from as int) {
            Ok(p) => r matches Ok(q) && abs_items(q.0@) == p.0 && q.1 as int == p.1,
            Err(e) => r matches Err(e2) && e2 == e,
        }),
        r matches Ok(q) ==> from < q.1 <= input@.len(),
    decreases input@.len() - from, 0int,
{
    let ghost s = input@;
    if from >= input.len() {
        return Err(ParseError::Truncated);
    }
    if input[from] != LIST_START {
        return Err(ParseError::UnexpectedByte);
    }
    let mut items: Vec<Item> = Vec::new();
    let mut j: usize = from + 1;
    proof {
        assert(abs_items(items@) =~= Seq::<SpecItem>::empty());
    }
    loop
        invariant
            from + 1 <= j <= s.len(),
            input@ == s,
            from < s.len(),
            s[from as int] == LIST_START,
            spec_parse_list_items(s, from + 1, Seq::empty()) == spec_parse_list_items(
                s,
                j as int,
                abs_items(items@),
            ),
        decreases s.len() - j,
    {
        if j >= input.len() {
            return Err(ParseError::Truncated);
        }
        if input[j] == END {
            return Ok((items, j + 1));
        }
        match parse_item(input, j) {
            Err(e) => {
                return Err(e);
            },
            Ok((v, j2)) => {
                proof {
                    lemma_abs_items_push(items@, v);
                }
                items.push(v);
                j = j2;
            },
        }
    }
}

/// Parse a BEncoded dictionary of the form `d(<byte-string key><item>)*e`.
/// Entries come back in parse order; a repeated key keeps the position of its
/// first binding and the value of its last.
pub fn parse_dictionary(input: &[u8], from: usize) -> (r: Result<
    (Vec<(String, Item)>, usize),
    ParseError,
>)
    requires
        from <= input@.len(),
    ensures
        (match spec_parse_dictionary(input@, from as int) {
            Ok(p) => r matches Ok(q) && abs_pairs(q.0@) == p.0 && q.1 as int == p.1,
            Err(e) => r matches Err(e2) && e2 == e,
        }),
        r matches Ok(q) ==> from < q.1 <= input@.len(),
    decreases input@.len() - from, 0int,
{
    let ghost s = input@;
    if from >= input.len() {
        return Err(ParseError::Truncated);
    }
    if input[from] != DICT_START {
        return Err(ParseError::UnexpectedByte);
    }
    let mut entries: Vec<(String, Item)> = Vec::new();
    let mut j: usize = from + 1;
    proof {
        assert(abs_pairs(entries@) =~= Seq::<(Seq<char>, SpecItem)>::empty());
    }
    loop
        invariant
            from + 1 <= j <= s.len(),
            input@ == s,
            from < s.len(),
            s[from as int] == DICT_START,
            spec_parse_dict_pairs(s, from + 1, Seq::empty()) == spec_parse_dict_pairs(
                s,
                j as int,
                abs_pairs(entries@),
            ),
        decreases s.len() - j,
    {
        if j >= input.len() {
            return Err(ParseError::Truncated);
        }
        if input[j] == END {
            return Ok((entries, j + 1));
        }
        if !(input[j] >= 48 && input[j] <= 57) {
            return Err(ParseError::MalformedKey);
        }
        match parse_bytearray(input, j) {
            Err(e) => {
                return Err(e);
            },
            Ok((kb, j1)) => {
                let ghost gkb = kb@;
                match utf8_to_string(kb) {
                    None => {
                        return Err(ParseError::MalformedKey);
                    },
                    Some(key) => {
                        match parse_item(input, j1) {
                            Err(e) => {
                                return Err(e);
                            },
                            Ok((v, j2)) => {
                                let ghost gacc = abs_pairs(entries@);
                                let ghost gv = v.deep();
                                dict_set(&mut entries, key, v);
                                proof {
                                    assert(spec_parse_dict_pairs(s, j as int, gacc)
                                        == spec_parse_dict_pairs(
                                        s,
                                        j2 as int,
                                        dict_insert(gacc, decode_utf8(gkb), gv),
                                    ));
                                }
                                j = j2;
                            },
                        }
                    },
                }
            },
        }
    }
}

/// Parse a whole buffer as one or more concatenated top-level BEncode items.
/// Succeeds only when the items account for every byte of the buffer.
pub fn parse_bytes(input: &[u8]) -> (r: Result<Vec<Item>, ParseError>)
    ensures
        (match spec_parse_document(input@) {
            Ok(items) => r matches Ok(v) && abs_items(v@) == items,
            Err(e) => r matches Err(e2) && e2 == e,
        }),
{
    let ghost s = input@;
    match parse_item(input, 0) {
        Err(e) => Err(e),
        Ok((first, j0)) => {
            let ghost gfirst = first.deep();
            let ghost gj0 = j0;
            let mut items: Vec<Item> = Vec::new();
            proof {
                lemma_abs_items_push(items@, first);
                assert(Seq::<SpecItem>::empty().push(gfirst) =~= seq![gfirst]);
            }
            items.push(first);
            let mut j: usize = j0;
            loop
                invariant
                    0 < j <= s.len(),
                    input@ == s,
                    spec_parse_item(s, 0) == Ok::<(SpecItem, int), ParseError>((
                        gfirst,
                        gj0 as int,
                    )),
                    spec_parse_rest(s, gj0 as int, seq![gfirst]) == spec_parse_rest(
                        s,
                        j as int,
                        abs_items(items@),
                    ),
                decreases s.len() - j,
            {
                if j >= input.len() {
                    return Ok(items);
                }
                match parse_item(input, j) {
                    Err(_) => {
                        return Err(ParseError::TrailingData);
                    },
                    Ok((v, j2)) => {
                        proof {
                            lemma_abs_items_push(items@, v);
                        }
                        items.push(v);
                        j = j2;
                    },
                }
            }
        },
    }
}

} // verus!

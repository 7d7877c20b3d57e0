//! The laws the decoder obeys, proved once and for all: a
//! specification-level encoder symmetric to the grammar, and proofs that
//! decoding inverts it on every value the grammar can produce.

use vstd::prelude::*;
use vstd::utf8::decode_utf8;
use vstd::utf8::encode_utf8;
use vstd::utf8::encode_utf8_decode_utf8;
use vstd::utf8::encode_utf8_valid_utf8;
use vstd::utf8::valid_utf8;

use crate::grammar::ARRAY_SEP;
use crate::grammar::DICT_START;
use crate::grammar::END;
use crate::grammar::INTEGER_START;
use crate::grammar::LIST_START;
use crate::grammar::digit_run_end;
use crate::grammar::digits_value;
use crate::grammar::is_digit;
use crate::grammar::dict_insert;
use crate::grammar::lemma_dict_insert_absent;
use crate::grammar::lemma_dict_insert_found;
use crate::grammar::spec_parse_bytearray;
use crate::grammar::spec_parse_dict_pairs;
use crate::grammar::spec_parse_document;
use crate::grammar::spec_parse_integer;
use crate::grammar::spec_parse_item;
use crate::grammar::spec_parse_list_items;
use crate::grammar::spec_parse_rest;
use crate::item::ParseError;
use crate::item::SpecItem;

verus! {

/// The canonical decimal digits of `n`, most significant first, without
/// leading zeros (`0` itself is the single digit `0`).
pub open spec fn digits_of(n: nat) -> Seq<u8>
    decreases n,
{
    if n <= 9 {
        seq![(48 + n) as u8]
    } else {
        digits_of(n / 10) + seq![(48 + n % 10) as u8]
    }
}

/// The canonical encoding of a value: exactly the byte strings the grammar
/// derives.
pub open spec fn spec_encode(v: SpecItem) -> Seq<u8>
    decreases v,
{
    match v {
        SpecItem::ByteArray(b) => digits_of(b.len()) + seq![ARRAY_SEP] + b,
        SpecItem::Integer(n) => seq![INTEGER_START] + digits_of(n as nat) + seq![END],
        SpecItem::List(items) => seq![LIST_START] + encode_list(items) + seq![END],
        SpecItem::Dictionary(ps) => seq![DICT_START] + encode_entries(ps) + seq![END],
    }
}

/// The concatenated encodings of a list's items.
pub open spec fn encode_list(items: Seq<SpecItem>) -> Seq<u8>
    decreases items,
{
    if items.len() == 0 {
        Seq::empty()
    } else {
        spec_encode(items[0]) + encode_list(items.drop_first())
    }
}

/// The concatenated encodings of a dictionary's entries: each key as a
/// byte string holding its UTF-8 bytes, then its value.
pub open spec fn encode_entries(ps: Seq<(Seq<char>, SpecItem)>) -> Seq<u8>
    decreases ps,
{
    if ps.len() == 0 {
        Seq::empty()
    } else {
        digits_of(encode_utf8(ps[0].0).len()) + seq![ARRAY_SEP] + encode_utf8(ps[0].0)
            + spec_encode(ps[0].1) + encode_entries(ps.drop_first())
    }
}

/// A shape the grammar itself can produce: every dictionary, at every level,
/// binds each key once.
pub open spec fn wf_item(v: SpecItem) -> bool
    decreases v,
{
    match v {
        SpecItem::ByteArray(_) => true,
        SpecItem::Integer(_) => true,
        SpecItem::List(items) => forall|i: int|
            0 <= i < items.len() ==> wf_item(#[trigger] items[i]),
        SpecItem::Dictionary(ps) => {
            &&& forall|i: int, t: int| 0 <= i < t < ps.len() ==> ps[i].0 != ps[t].0
            &&& forall|i: int| 0 <= i < ps.len() ==> wf_item(#[trigger] ps[i].1)
        },
    }
}

/// The canonical digits of `n` are a nonempty digit run whose value is `n`.
pub proof fn lemma_digits_of(n: nat)
    ensures
        digits_of(n).len() >= 1,
        forall|t: int| 0 <= t < digits_of(n).len() ==> is_digit(#[trigger] digits_of(n)[t]),
        digits_value(digits_of(n), 0, digits_of(n).len() as int) == n,
    decreases n,
{
    if n <= 9 {
        let d = digits_of(n);
        assert(digits_value(d, 0, 0) == 0);
        assert(d[0] == (48 + n) as u8);
        assert(digits_value(d, 0, 1) == d[0] - 48);
    } else {
        lemma_digits_of(n / 10);
        let d = digits_of(n);
        let head = digits_of(n / 10);
        assert(forall|t: int| 0 <= t < head.len() ==> d[t] == head[t]);
        lemma_digits_value_shift(d, head, 0);
        assert(d[d.len() - 1] == (48 + n % 10) as u8);
        assert(d[d.len() - 1] - 48 == n % 10);
        assert(digits_value(d, 0, d.len() as int) == digits_value(d, 0, d.len() - 1) * 10 + (
        d[d.len() - 1] - 48));
        assert(n / 10 * 10 + n % 10 == n);
    }
}

/// The value of a digit run depends only on the bytes of the run: reading
/// `d` embedded in `s` at position `p` gives the value of `d`.
pub proof fn lemma_digits_value_shift(s: Seq<u8>, d: Seq<u8>, p: int)
    requires
        0 <= p,
        p + d.len() <= s.len(),
        forall|t: int| 0 <= t < d.len() ==> s[p + t] == d[t],
    ensures
        digits_value(s, p, p + d.len()) == digits_value(d, 0, d.len() as int),
    decreases d.len(),
{
    if d.len() > 0 {
        let head = d.drop_last();
        assert(forall|t: int| 0 <= t < head.len() ==> s[p + t] == head[t]);
        lemma_digits_value_shift(s, head, p);
        lemma_digits_value_shift(d, head, 0);
        assert(s[p + d.len() - 1] == d[d.len() - 1]);
        assert(digits_value(s, p, p + d.len()) == digits_value(s, p, p + d.len() - 1) * 10 + (
        s[p + d.len() - 1] - 48));
        assert(digits_value(d, 0, d.len() as int) == digits_value(d, 0, d.len() - 1) * 10 + (
        d[d.len() - 1] - 48));
    }
}

/// When the bytes from `p` up to `q` are digits and the byte at `q` is not,
/// the digit run starting at `p` ends exactly at `q`.
pub proof fn lemma_digit_run_end_exact(s: Seq<u8>, p: int, q: int)
    requires
        0 <= p <= q < s.len(),
        forall|t: int| p <= t < q ==> is_digit(s[t]),
        !is_digit(s[q]),
    ensures
        digit_run_end(s, p) == q,
    decreases q - p,
{
    if p < q {
        lemma_digit_run_end_exact(s, p + 1, q);
    }
}

/// Every encoding is at least two bytes long, opens with the byte that
/// selects its own production, and never opens with the end marker.
pub proof fn lemma_encode_first(v: SpecItem)
    ensures
        spec_encode(v).len() >= 2,
        spec_encode(v)[0] != END,
        (v matches SpecItem::ByteArray(_) ==> is_digit(spec_encode(v)[0])),
        (v matches SpecItem::Integer(_) ==> spec_encode(v)[0] == INTEGER_START),
        (v matches SpecItem::List(_) ==> spec_encode(v)[0] == LIST_START),
        (v matches SpecItem::Dictionary(_) ==> spec_encode(v)[0] == DICT_START),
{
    match v {
        SpecItem::ByteArray(b) => {
            lemma_digits_of(b.len());
            assert(spec_encode(v)[0] == digits_of(b.len())[0]);
        },
        SpecItem::Integer(n) => {
            lemma_digits_of(n as nat);
        },
        SpecItem::List(_) => {},
        SpecItem::Dictionary(_) => {},
    }
}

/// [`dict_insert`] keeps a dictionary well-formed: keys stay pairwise
/// distinct, and every value is either a value that was already bound or the
/// one being inserted.
pub proof fn lemma_dict_insert_wf(ps: Seq<(Seq<char>, SpecItem)>, k: Seq<char>, v: SpecItem)
    requires
        forall|i: int, t: int| 0 <= i < t < ps.len() ==> ps[i].0 != ps[t].0,
        forall|i: int| 0 <= i < ps.len() ==> wf_item(#[trigger] ps[i].1),
        wf_item(v),
    ensures
        forall|i: int, t: int|
            0 <= i < t < dict_insert(ps, k, v).len() ==> dict_insert(ps, k, v)[i].0
                != dict_insert(ps, k, v)[t].0,
        forall|i: int|
            0 <= i < dict_insert(ps, k, v).len() ==> wf_item(
                #[trigger] dict_insert(ps, k, v)[i].1,
            ),
{
    if exists|i: int| 0 <= i < ps.len() && ps[i].0 == k {
        let idx = choose|i: int| 0 <= i < ps.len() && ps[i].0 == k;
        assert(forall|t: int| 0 <= t < idx ==> ps[t].0 != k);
        lemma_dict_insert_found(ps, k, v, idx);
        let res = ps.update(idx, (k, v));
        assert(forall|i: int| 0 <= i < res.len() ==> res[i].0 == ps[i].0);
    } else {
        assert(forall|t: int| 0 <= t < ps.len() ==> ps[t].0 != k);
        lemma_dict_insert_absent(ps, k, v);
    }
}

/// Every item a successful parse returns is well-formed: at every level each
/// dictionary binds a key once.
pub proof fn lemma_parse_item_wf(s: Seq<u8>, i: int)
    ensures
        spec_parse_item(s, i) matches Ok(p) ==> wf_item(p.0),
    decreases s.len() - i, 0int,
{
    if 0 <= i < s.len() {
        if s[i] == LIST_START {
            lemma_parse_list_items_wf(s, i + 1, Seq::empty());
        } else if s[i] == DICT_START {
            lemma_parse_dict_pairs_wf(s, i + 1, Seq::empty());
        }
    }
}

/// The list-items analogue of [`lemma_parse_item_wf`].
pub proof fn lemma_parse_list_items_wf(s: Seq<u8>, i: int, acc: Seq<SpecItem>)
    requires
        forall|t: int| 0 <= t < acc.len() ==> wf_item(#[trigger] acc[t]),
    ensures
        spec_parse_list_items(s, i, acc) matches Ok(p) ==> forall|t: int|
            0 <= t < p.0.len() ==> wf_item(#[trigger] p.0[t]),
    decreases s.len() - i, 1int,
{
    if 0 <= i < s.len() && s[i] != END {
        lemma_parse_item_wf(s, i);
        if let Ok((v, j)) = spec_parse_item(s, i) {
            if i < j <= s.len() {
                lemma_parse_list_items_wf(s, j, acc.push(v));
            }
        }
    }
}

/// The dictionary-entries analogue of [`lemma_parse_item_wf`].
pub proof fn lemma_parse_dict_pairs_wf(s: Seq<u8>, i: int, acc: Seq<(Seq<char>, SpecItem)>)
    requires
        forall|i2: int, t: int| 0 <= i2 < t < acc.len() ==> acc[i2].0 != acc[t].0,
        forall|t: int| 0 <= t < acc.len() ==> wf_item(#[trigger] acc[t].1),
    ensures
        spec_parse_dict_pairs(s, i, acc) matches Ok(p) ==> {
            &&& forall|i2: int, t: int| 0 <= i2 < t < p.0.len() ==> p.0[i2].0 != p.0[t].0
            &&& forall|t: int| 0 <= t < p.0.len() ==> wf_item(#[trigger] p.0[t].1)
        },
    decreases s.len() - i, 1int,
{
    if 0 <= i < s.len() && s[i] != END && is_digit(s[i]) {
        if let Ok((kb, j)) = spec_parse_bytearray(s, i) {
            if valid_utf8(kb) && i < j <= s.len() {
                lemma_parse_item_wf(s, j);
                if let Ok((v, j2)) = spec_parse_item(s, j) {
                    if j < j2 <= s.len() {
                        lemma_dict_insert_wf(acc, decode_utf8(kb), v);
                        lemma_parse_dict_pairs_wf(s, j2, dict_insert(acc, decode_utf8(kb), v));
                    }
                }
            }
        }
    }
}

/// Law: every item of a successfully decoded document is well-formed, so the
/// values the decoder can produce are exactly the values the round-trip law
/// speaks of.
pub proof fn lemma_document_wf(s: Seq<u8>)
    ensures
        spec_parse_document(s) matches Ok(items) ==> forall|t: int|
            0 <= t < items.len() ==> wf_item(#[trigger] items[t]),
{
    lemma_parse_item_wf(s, 0);
    if let Ok((v, j)) = spec_parse_item(s, 0) {
        lemma_parse_rest_wf(s, j, seq![v]);
    }
}

/// The top-level analogue of [`lemma_parse_item_wf`].
pub proof fn lemma_parse_rest_wf(s: Seq<u8>, i: int, acc: Seq<SpecItem>)
    requires
        forall|t: int| 0 <= t < acc.len() ==> wf_item(#[trigger] acc[t]),
    ensures
        forall|t: int|
            0 <= t < spec_parse_rest(s, i, acc).0.len() ==> wf_item(
                #[trigger] spec_parse_rest(s, i, acc).0[t],
            ),
    decreases s.len() - i,
{
    if 0 <= i < s.len() {
        lemma_parse_item_wf(s, i);
        match spec_parse_item(s, i) {
            Ok((v, j)) => {
                if i < j <= s.len() {
                    assert(forall|t: int|
                        0 <= t < acc.push(v).len() ==> wf_item(#[trigger] acc.push(v)[t]));
                    lemma_parse_rest_wf(s, j, acc.push(v));
                    assert(spec_parse_rest(s, i, acc) == spec_parse_rest(s, j, acc.push(v)));
                } else {
                    assert(spec_parse_rest(s, i, acc) == (acc, i));
                }
            },
            Err(_) => {
                assert(spec_parse_rest(s, i, acc) == (acc, i));
            },
        }
    } else {
        assert(spec_parse_rest(s, i, acc) == (acc, i));
    }
}

/// Decoding inverts encoding for a byte string, wherever it stands in a
/// buffer: parsing at the start of its encoding succeeds with exactly the
/// payload and stops exactly past it.
pub proof fn lemma_round_trip_bytearray(b: Seq<u8>, prefix: Seq<u8>, rest: Seq<u8>)
    ensures
        ({
            let enc = digits_of(b.len()) + seq![ARRAY_SEP] + b;
            spec_parse_bytearray(prefix + enc + rest, prefix.len() as int)
                == Ok::<(Seq<u8>, int), ParseError>((b, prefix.len() + enc.len() as int))
        }),
{
    let d = digits_of(b.len());
    let enc = d + seq![ARRAY_SEP] + b;
    let s = prefix + enc + rest;
    let p = prefix.len() as int;
    lemma_digits_of(b.len());
    assert(forall|t: int| 0 <= t < d.len() ==> s[p + t] == d[t]);
    assert(s[p + d.len()] == ARRAY_SEP);
    assert(!is_digit(ARRAY_SEP));
    lemma_digit_run_end_exact(s, p, p + d.len() as int);
    lemma_digits_value_shift(s, d, p);
    let e = p + d.len() as int;
    assert(digits_value(s, p, e) == b.len());
    assert(s.len() - (e + 1) == b.len() + rest.len());
    assert(s.subrange(e + 1, e + 1 + b.len()) =~= b);
}

/// Decoding inverts encoding for an integer, wherever it stands in a buffer.
pub proof fn lemma_round_trip_integer(n: usize, prefix: Seq<u8>, rest: Seq<u8>)
    ensures
        ({
            let enc = seq![INTEGER_START] + digits_of(n as nat) + seq![END];
            spec_parse_integer(prefix + enc + rest, prefix.len() as int)
                == Ok::<(usize, int), ParseError>((n, prefix.len() + enc.len() as int))
        }),
{
    let d = digits_of(n as nat);
    let enc = seq![INTEGER_START] + d + seq![END];
    let s = prefix + enc + rest;
    let p = prefix.len() as int;
    lemma_digits_of(n as nat);
    assert(s[p] == INTEGER_START);
    assert(forall|t: int| 0 <= t < d.len() ==> s[p + 1 + t] == d[t]);
    assert(s[p + 1 + d.len()] == END);
    assert(!is_digit(END));
    lemma_digit_run_end_exact(s, p + 1, p + 1 + d.len() as int);
    lemma_digits_value_shift(s, d, p + 1);
    assert(digits_value(s, p + 1, p + 1 + d.len()) == n);
}

/// Decoding inverts encoding for every well-formed value, wherever its
/// encoding stands in a buffer: parsing at its start succeeds with exactly
/// that value and stops exactly past its encoding.
pub proof fn lemma_round_trip_item(v: SpecItem, prefix: Seq<u8>, rest: Seq<u8>)
    requires
        wf_item(v),
    ensures
        spec_parse_item(prefix + spec_encode(v) + rest, prefix.len() as int)
            == Ok::<(SpecItem, int), ParseError>((
            v,
            prefix.len() + spec_encode(v).len() as int,
        )),
    decreases v,
{
    let enc = spec_encode(v);
    let s = prefix + enc + rest;
    let p = prefix.len() as int;
    lemma_encode_first(v);
    assert(s[p] == enc[0]);
    match v {
        SpecItem::ByteArray(b) => {
            lemma_round_trip_bytearray(b, prefix, rest);
        },
        SpecItem::Integer(n) => {
            lemma_round_trip_integer(n, prefix, rest);
        },
        SpecItem::List(items) => {
            let body = encode_list(items);
            assert(s =~= (prefix + seq![LIST_START]) + body + seq![END] + rest);
            lemma_round_trip_list_items(items, prefix + seq![LIST_START], rest, Seq::empty());
            assert(Seq::<SpecItem>::empty() + items =~= items);
        },
        SpecItem::Dictionary(ps) => {
            let body = encode_entries(ps);
            assert(s =~= (prefix + seq![DICT_START]) + body + seq![END] + rest);
            lemma_round_trip_dict_entries(ps, prefix + seq![DICT_START], rest, Seq::empty());
            assert(Seq::<(Seq<char>, SpecItem)>::empty() + ps =~= ps);
        },
    }
}

/// Decoding inverts encoding for the items of a list: starting from the
/// accumulated items, parsing the concatenated encodings up to the end
/// marker appends exactly those items.
pub proof fn lemma_round_trip_list_items(
    items: Seq<SpecItem>,
    prefix: Seq<u8>,
    rest: Seq<u8>,
    acc: Seq<SpecItem>,
)
    requires
        forall|i: int| 0 <= i < items.len() ==> wf_item(#[trigger] items[i]),
    ensures
        spec_parse_list_items(
            prefix + encode_list(items) + seq![END] + rest,
            prefix.len() as int,
            acc,
        ) == Ok::<(Seq<SpecItem>, int), ParseError>((
            acc + items,
            prefix.len() + encode_list(items).len() as int + 1,
        )),
    decreases items,
{
    let s = prefix + encode_list(items) + seq![END] + rest;
    let p = prefix.len() as int;
    if items.len() == 0 {
        assert(s[p] == END);
        assert(acc + items =~= acc);
    } else {
        let v0 = items[0];
        let tail = items.drop_first();
        let enc0 = spec_encode(v0);
        lemma_encode_first(v0);
        assert(s[p] == enc0[0]);
        assert(s =~= prefix + enc0 + (encode_list(tail) + seq![END] + rest));
        lemma_round_trip_item(v0, prefix, encode_list(tail) + seq![END] + rest);
        let j = p + enc0.len() as int;
        assert(spec_parse_item(s, p) == Ok::<(SpecItem, int), ParseError>((v0, j)));
        assert(s =~= (prefix + enc0) + encode_list(tail) + seq![END] + rest);
        assert(forall|i: int| 0 <= i < tail.len() ==> wf_item(#[trigger] tail[i]));
        lemma_round_trip_list_items(tail, prefix + enc0, rest, acc.push(v0));
        assert(acc.push(v0) + tail =~= acc + items);
    }
}

/// Decoding inverts encoding for the entries of a dictionary whose keys are
/// distinct and not yet bound in the accumulator.
#[verifier::rlimit(60)]
pub proof fn lemma_round_trip_dict_entries(
    ps: Seq<(Seq<char>, SpecItem)>,
    prefix: Seq<u8>,
    rest: Seq<u8>,
    acc: Seq<(Seq<char>, SpecItem)>,
)
    requires
        forall|i: int, t: int| 0 <= i < t < ps.len() ==> ps[i].0 != ps[t].0,
        forall|i: int| 0 <= i < ps.len() ==> wf_item(#[trigger] ps[i].1),
        forall|i: int, t: int|
            0 <= i < acc.len() && 0 <= t < ps.len() ==> acc[i].0 != ps[t].0,
    ensures
        spec_parse_dict_pairs(
            prefix + encode_entries(ps) + seq![END] + rest,
            prefix.len() as int,
            acc,
        ) == Ok::<(Seq<(Seq<char>, SpecItem)>, int), ParseError>((
            acc + ps,
            prefix.len() + encode_entries(ps).len() as int + 1,
        )),
    decreases ps,
{
    let s = prefix + encode_entries(ps) + seq![END] + rest;
    let p = prefix.len() as int;
    if ps.len() == 0 {
        assert(s[p] == END);
        assert(acc + ps =~= acc);
    } else {
        let k0 = ps[0].0;
        let v0 = ps[0].1;
        let tail = ps.drop_first();
        let kb = encode_utf8(k0);
        let kenc = digits_of(kb.len()) + seq![ARRAY_SEP] + kb;
        lemma_digits_of(kb.len());
        assert(s[p] == kenc[0]);
        assert(is_digit(s[p]) && s[p] != END);
        let after_key = spec_encode(v0) + (encode_entries(tail) + seq![END] + rest);
        assert(s =~= prefix + kenc + after_key);
        lemma_round_trip_bytearray(kb, prefix, after_key);
        let j = p + kenc.len() as int;
        assert(spec_parse_bytearray(s, p) == Ok::<(Seq<u8>, int), ParseError>((kb, j)));
        encode_utf8_valid_utf8(k0);
        encode_utf8_decode_utf8(k0);
        assert(s =~= (prefix + kenc) + spec_encode(v0) + (encode_entries(tail) + seq![END]
            + rest));
        lemma_round_trip_item(v0, prefix + kenc, encode_entries(tail) + seq![END] + rest);
        let j2 = j + spec_encode(v0).len() as int;
        assert(spec_parse_item(s, j) == Ok::<(SpecItem, int), ParseError>((v0, j2)));
        assert(forall|i: int| 0 <= i < acc.len() ==> acc[i].0 != k0);
        lemma_dict_insert_absent(acc, k0, v0);
        assert(s =~= (prefix + kenc + spec_encode(v0)) + encode_entries(tail) + seq![END]
            + rest);
        assert(forall|i: int, t: int| 0 <= i < t < tail.len() ==> tail[i].0 != tail[t].0);
        assert(forall|i: int| 0 <= i < tail.len() ==> wf_item(#[trigger] tail[i].1));
        assert(forall|i: int, t: int|
            0 <= i < acc.push((k0, v0)).len() && 0 <= t < tail.len() ==> acc.push((
                k0,
                v0,
            ))[i].0 != tail[t].0);
        lemma_round_trip_dict_entries(tail, prefix + kenc + spec_encode(v0), rest, acc.push(
            (k0, v0),
        ));
        assert(acc.push((k0, v0)) + tail =~= acc + ps);
    }
}

/// Law: round trip on canonical forms.  For every value the grammar can
/// produce, decoding the canonical encoding of that value succeeds, consumes
/// the whole buffer, and returns exactly that value as the only item.
pub proof fn lemma_round_trip(v: SpecItem)
    requires
        wf_item(v),
    ensures
        spec_parse_document(spec_encode(v)) == Ok::<Seq<SpecItem>, ParseError>(seq![v]),
{
    let enc = spec_encode(v);
    lemma_round_trip_item(v, Seq::empty(), Seq::empty());
    assert(Seq::<u8>::empty() + enc + Seq::<u8>::empty() =~= enc);
    lemma_encode_first(v);
    assert(spec_parse_item(enc, 0) == Ok::<(SpecItem, int), ParseError>((v, enc.len() as int)));
    assert(spec_parse_rest(enc, enc.len() as int, seq![v]) == (seq![v], enc.len() as int));
}

/// Law: byte-string lengths are exact.  Decoding `<L>:<payload>` where the
/// payload has length exactly `L` succeeds with exactly that payload.
pub proof fn lemma_bytearray_exact(payload: Seq<u8>)
    ensures
        ({
            let enc = digits_of(payload.len()) + seq![ARRAY_SEP] + payload;
            spec_parse_bytearray(enc, 0) == Ok::<(Seq<u8>, int), ParseError>((
                payload,
                enc.len() as int,
            ))
        }),
{
    let enc = digits_of(payload.len()) + seq![ARRAY_SEP] + payload;
    lemma_round_trip_bytearray(payload, Seq::empty(), Seq::empty());
    assert(Seq::<u8>::empty() + enc + Seq::<u8>::empty() =~= enc);
}

/// Law: a digit run whose value does not fit the target integer width is
/// rejected as a malformed integer, however it is terminated.
pub proof fn lemma_integer_overflow(d: Seq<u8>, rest: Seq<u8>)
    requires
        d.len() >= 1,
        forall|t: int| 0 <= t < d.len() ==> is_digit(d[t]),
        digits_value(d, 0, d.len() as int) > usize::MAX,
    ensures
        spec_parse_integer(seq![INTEGER_START] + d + seq![END] + rest, 0)
            == Err::<(usize, int), ParseError>(ParseError::MalformedInteger),
{
    let s = seq![INTEGER_START] + d + seq![END] + rest;
    assert(s[0] == INTEGER_START);
    assert(forall|t: int| 0 <= t < d.len() ==> s[1 + t] == d[t]);
    assert(s[1 + d.len() as int] == END);
    assert(!is_digit(END));
    lemma_digit_run_end_exact(s, 1, 1 + d.len() as int);
    lemma_digits_value_shift(s, d, 1);
}

/// Law: a payload shorter than the declared length is rejected as truncated.
pub proof fn lemma_bytearray_truncated(declared: nat, payload: Seq<u8>)
    requires
        payload.len() < declared,
    ensures
        spec_parse_bytearray(digits_of(declared) + seq![ARRAY_SEP] + payload, 0)
            == Err::<(Seq<u8>, int), ParseError>(ParseError::Truncated),
{
    let d = digits_of(declared);
    let s = d + seq![ARRAY_SEP] + payload;
    lemma_digits_of(declared);
    assert(forall|t: int| 0 <= t < d.len() ==> s[t] == d[t]);
    assert(s[d.len() as int] == ARRAY_SEP);
    assert(!is_digit(ARRAY_SEP));
    lemma_digit_run_end_exact(s, 0, d.len() as int);
    lemma_digits_value_shift(s, d, 0);
    assert(digits_value(s, 0, d.len() as int) == declared);
    assert(s.len() - (d.len() + 1) == payload.len());
}

} // verus!

use bencoding::BEncoding;
use bencoding::Item;
use bencoding::ParseError;
use bencoding::parse_bytearray;
use bencoding::parse_bytes;
use bencoding::parse_dictionary;
use bencoding::parse_integer;
use bencoding::parse_item;
use bencoding::parse_list;

#[test]
fn bytearray_exact_length() {
    assert_eq!(parse_bytearray(b"0:", 0), Ok((Vec::new(), 2)));
    assert_eq!(parse_bytearray(b"3:abc", 0), Ok((b"abc".to_vec(), 5)));
    assert_eq!(parse_bytearray(b"3:ab", 0), Err(ParseError::Truncated));
    assert_eq!(parse_bytearray(b"2:", 0), Err(ParseError::Truncated));
}

#[test]
fn bytearray_malformed() {
    assert_eq!(parse_bytearray(b":abc", 0), Err(ParseError::UnexpectedByte));
    assert_eq!(parse_bytearray(b"12", 0), Err(ParseError::Truncated));
    assert_eq!(parse_bytearray(b"", 0), Err(ParseError::Truncated));
    // A declared length too large for the machine word certainly exceeds the
    // remaining bytes.
    assert_eq!(
        parse_bytearray(b"99999999999999999999999999:aa", 0),
        Err(ParseError::Truncated)
    );
}

#[test]
fn empty_buffer_is_truncated() {
    assert_eq!(parse_bytes(b""), Err(ParseError::Truncated));
}

#[test]
fn integer_boundaries() {
    assert_eq!(parse_integer(b"i0e", 0), Ok((0, 3)));
    assert_eq!(parse_integer(b"i10e", 0), Ok((10, 4)));
    assert_eq!(parse_integer(b"ie", 0), Err(ParseError::MalformedInteger));
    assert_eq!(parse_integer(b"i-1e", 0), Err(ParseError::MalformedInteger));
    assert_eq!(parse_integer(b"i1x2e", 0), Err(ParseError::MalformedInteger));
    assert_eq!(parse_integer(b"i12", 0), Err(ParseError::Truncated));
    assert_eq!(
        parse_integer(b"i99999999999999999999999999e", 0),
        Err(ParseError::MalformedInteger)
    );
    assert_eq!(
        parse_integer(format!("i{}e", usize::MAX).as_bytes(), 0),
        Ok((usize::MAX, usize::MAX.to_string().len() + 2))
    );
}

#[test]
fn empty_composites() {
    let list = BEncoding::decode(b"le").unwrap();
    assert_eq!(list.items(), &vec![Item::List(Vec::new())]);
    let dict = BEncoding::decode(b"de").unwrap();
    assert_eq!(dict.items(), &vec![Item::Dictionary(Vec::new())]);
}

#[test]
fn nested_structures() {
    let doc = BEncoding::decode(b"d4:infod6:lengthi20eee").unwrap();
    assert_eq!(
        doc.items(),
        &vec![Item::Dictionary(vec![(
            "info".to_owned(),
            Item::Dictionary(vec![("length".to_owned(), Item::Integer(20))])
        )])]
    );
}

#[test]
fn scenario_bytes() {
    let doc = BEncoding::decode(b"4:spam").unwrap();
    assert_eq!(doc.items(), &vec![Item::ByteArray(b"spam".to_vec())]);
}

#[test]
fn scenario_integer() {
    let doc = BEncoding::decode(b"i10e").unwrap();
    assert_eq!(doc.items(), &vec![Item::Integer(10)]);
}

#[test]
fn scenario_list() {
    let doc = BEncoding::decode(b"l4:spami10ee").unwrap();
    assert_eq!(
        doc.items(),
        &vec![Item::List(vec![
            Item::ByteArray(b"spam".to_vec()),
            Item::Integer(10)
        ])]
    );
}

#[test]
fn scenario_dictionary() {
    let doc = BEncoding::decode(b"d3:cow3:moo4:spam4:eggse").unwrap();
    assert_eq!(
        doc.items(),
        &vec![Item::Dictionary(vec![
            ("cow".to_owned(), Item::ByteArray(b"moo".to_vec())),
            ("spam".to_owned(), Item::ByteArray(b"eggs".to_vec()))
        ])]
    );
}

#[test]
fn scenario_truncated() {
    assert!(BEncoding::decode(b"10:aa").is_none());
}

#[test]
fn scenario_empty_buffer() {
    assert!(BEncoding::decode(b"").is_none());
}

#[test]
fn multiple_top_level_items() {
    let doc = BEncoding::decode(b"i1e4:spam").unwrap();
    assert_eq!(
        doc.items(),
        &vec![Item::Integer(1), Item::ByteArray(b"spam".to_vec())]
    );
}

#[test]
fn trailing_data_rejected() {
    assert_eq!(parse_bytes(b"i1ex"), Err(ParseError::TrailingData));
    assert!(BEncoding::decode(b"i1ex").is_none());
}

#[test]
fn unexpected_byte_rejected() {
    assert_eq!(parse_item(b"x", 0), Err(ParseError::UnexpectedByte));
    assert_eq!(parse_bytes(b"x"), Err(ParseError::UnexpectedByte));
}

#[test]
fn unterminated_composites_rejected() {
    assert_eq!(parse_list(b"l4:spam", 0), Err(ParseError::Truncated));
    assert_eq!(parse_dictionary(b"d3:cow3:moo", 0), Err(ParseError::Truncated));
}

#[test]
fn dictionary_key_must_be_byte_string() {
    assert_eq!(parse_dictionary(b"di1ei2ee", 0), Err(ParseError::MalformedKey));
}

#[test]
fn dictionary_key_must_be_text() {
    // 0xff 0xfe is not valid UTF-8, so the whole parse fails.
    assert_eq!(
        parse_dictionary(b"d2:\xff\xfei1ee", 0),
        Err(ParseError::MalformedKey)
    );
}

#[test]
fn dictionary_key_beyond_ascii() {
    // The two bytes 0xc3 0xa9 decode to the single character with a diacritic,
    // not to two characters: the key conversion really decodes UTF-8.
    let doc = BEncoding::decode(b"d3:\xc3\xa9xi1ee").unwrap();
    assert_eq!(
        doc.items(),
        &vec![Item::Dictionary(vec![(
            "\u{e9}x".to_owned(),
            Item::Integer(1)
        )])]
    );
}

#[test]
fn duplicate_keys_keep_place_and_last_value() {
    let doc = BEncoding::decode(b"d1:ai1e1:bi2e1:ai3ee").unwrap();
    assert_eq!(
        doc.items(),
        &vec![Item::Dictionary(vec![
            ("a".to_owned(), Item::Integer(3)),
            ("b".to_owned(), Item::Integer(2))
        ])]
    );
}

#[test]
fn decode_str_matches_decode() {
    let doc = BEncoding::decode_str("l4:spami10ee").unwrap();
    assert_eq!(
        doc.items(),
        &vec![Item::List(vec![
            Item::ByteArray(b"spam".to_vec()),
            Item::Integer(10)
        ])]
    );
    assert!(BEncoding::decode_str("i-1e").is_none());
}

#[test]
fn zero_length_byte_string_needs_separator() {
    let doc = BEncoding::decode(b"0:").unwrap();
    assert_eq!(doc.items(), &vec![Item::ByteArray(Vec::new())]);
    assert!(BEncoding::decode(b"0").is_none());
}

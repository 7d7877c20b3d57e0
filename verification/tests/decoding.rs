use bencoding::Item;
use bencoding::parse_bytearray;
use bencoding::parse_dictionary;
use bencoding::parse_list;

#[test]
fn test_number_parser() {}

#[test]
fn test_bytearray_parser() {
    assert_eq!(parse_bytearray(b"4:spam", 0), Ok((b"spam".to_vec(), 6)));
    assert_eq!(parse_bytearray(b"5:sp am", 0), Ok((b"sp am".to_vec(), 7)));
    assert_eq!(parse_bytearray(b"2:spam", 0), Ok((b"sp".to_vec(), 4)));
    assert!(parse_bytearray(b"10:aa", 0).is_err());
}

#[test]
fn test_list_parser() {
    assert_eq!(
        parse_list(b"l4:spam4:eggse", 0),
        Ok((
            vec![
                Item::ByteArray(b"spam".to_vec()),
                Item::ByteArray(b"eggs".to_vec())
            ],
            14
        ))
    );

    assert_eq!(
        parse_list(b"l4:spami10ee", 0),
        Ok((vec![Item::ByteArray(b"spam".to_vec()), Item::Integer(10)], 12))
    );
}

#[test]
fn test_dict_parser() {
    assert_eq!(
        parse_dictionary(b"d3:cow3:moo4:spam4:eggse", 0),
        Ok((
            vec![
                ("cow".to_owned(), Item::ByteArray(b"moo".to_vec())),
                ("spam".to_owned(), Item::ByteArray(b"eggs".to_vec()))
            ],
            24
        ))
    );

    assert_eq!(
        parse_dictionary(b"d4:spaml1:a1:bee", 0),
        Ok((
            vec![(
                "spam".to_owned(),
                Item::List(vec![
                    Item::ByteArray(b"a".to_vec()),
                    Item::ByteArray(b"b".to_vec())
                ])
            )],
            16
        ))
    );

    assert_eq!(
        parse_dictionary(b"d4:infod6:lengthi20eee", 0),
        Ok((
            vec![(
                "info".to_owned(),
                Item::Dictionary(vec![("length".to_owned(), Item::Integer(20))])
            )],
            22
        ))
    );
}

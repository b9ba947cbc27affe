use bencode_parser::{BEncode, Dict, Options, ParseError};

fn parse(input: &[u8]) -> Result<BEncode, ParseError> {
    BEncode::parse(input.to_vec(), Options::default())
}

fn text(s: &str) -> BEncode {
    BEncode::String(s.to_string())
}

fn dict(entries: Vec<(&str, BEncode)>) -> Dict {
    let mut dict = Dict::new();
    for (key, value) in entries {
        dict.insert(key.to_string(), value);
    }
    dict
}

#[test]
fn empty_input_is_unterminated() {
    assert_eq!(parse(b""), Err(ParseError::UnterminatedDocument(0)));
}

#[test]
fn empty_list_and_dictionary() {
    assert_eq!(parse(b"le"), Ok(BEncode::List(vec![])));
    assert_eq!(parse(b"de"), Ok(BEncode::Dictionary(Dict::new())));
}

#[test]
fn list_keeps_the_order_of_its_items() {
    assert_eq!(
        parse(b"l4:spami42el1:xee"),
        Ok(BEncode::List(vec![
            text("spam"),
            BEncode::Int(42),
            BEncode::List(vec![text("x")]),
        ]))
    );
}

#[test]
fn dictionary_of_keys_and_values() {
    assert_eq!(
        parse(b"d3:bar4:spam3:fooi42ee"),
        Ok(BEncode::Dictionary(dict(vec![
            ("bar", text("spam")),
            ("foo", BEncode::Int(42)),
        ])))
    );
}

#[test]
fn text_after_a_key_is_its_value() {
    let parsed = parse(b"d1:a1:b1:c1:de").unwrap();
    match parsed {
        BEncode::Dictionary(d) => {
            assert_eq!(d.len(), 2);
            assert_eq!(d.get("a"), Some(&text("b")));
            assert_eq!(d.get("c"), Some(&text("d")));
            assert_eq!(d.get("b"), None);
        }
        other => panic!("no dictionary: {:?}", other),
    }
}

#[test]
fn keys_are_held_in_byte_order_whatever_the_input() {
    let parsed = parse(b"d1:bi1e1:ai2ee").unwrap();
    assert_eq!(BEncode::encode(&parsed), b"d1:ai2e1:bi1ee".to_vec());
    assert_eq!(parsed, parse(b"d1:ai2e1:bi1ee").unwrap());
}

#[test]
fn keys_inserted_out_of_order_are_encoded_in_order() {
    let mut d = Dict::new();
    d.insert("b".to_string(), BEncode::Int(1));
    d.insert("a".to_string(), BEncode::Int(2));
    assert_eq!(
        BEncode::encode(&BEncode::Dictionary(d)),
        b"d1:ai2e1:bi1ee".to_vec()
    );
}

#[test]
fn order_of_insertion_does_not_matter() {
    let one = dict(vec![
        ("zeta", BEncode::Int(1)),
        ("alpha", BEncode::Int(2)),
        ("mid", BEncode::Int(3)),
        ("alphabet", BEncode::Int(4)),
    ]);
    let other = dict(vec![
        ("alphabet", BEncode::Int(4)),
        ("mid", BEncode::Int(3)),
        ("alpha", BEncode::Int(2)),
        ("zeta", BEncode::Int(1)),
    ]);
    assert_eq!(one, other);
    let keys: Vec<&str> = (0..one.len())
        .map(|i| one.entry(i).unwrap().0.as_str())
        .collect();
    assert_eq!(keys, vec!["alpha", "alphabet", "mid", "zeta"]);
    assert_eq!(one.entry(4), None);
}

#[test]
fn keys_are_ordered_by_bytes_not_by_letters() {
    let d = dict(vec![
        ("é", BEncode::Int(1)),
        ("z", BEncode::Int(2)),
        ("Z", BEncode::Int(3)),
        ("", BEncode::Int(4)),
    ]);
    let keys: Vec<&str> = (0..d.len())
        .map(|i| d.entry(i).unwrap().0.as_str())
        .collect();
    assert_eq!(keys, vec!["", "Z", "z", "é"]);
}

#[test]
fn later_value_replaces_the_earlier_one() {
    let mut d = Dict::new();
    d.insert("k".to_string(), BEncode::Int(1));
    d.insert("k".to_string(), BEncode::Int(2));
    assert_eq!(d.len(), 1);
    assert_eq!(d.get("k"), Some(&BEncode::Int(2)));
    assert_eq!(
        parse(b"d1:ki1e1:ki2ee"),
        Ok(BEncode::Dictionary(dict(vec![("k", BEncode::Int(2))])))
    );
}

#[test]
fn integer_as_key_is_refused() {
    assert_eq!(parse(b"di1ei2ee"), Err(ParseError::NonStringKey(1)));
}

#[test]
fn list_as_key_is_refused_where_it_starts() {
    assert_eq!(parse(b"d1:ai1elei2ee"), Err(ParseError::NonStringKey(7)));
    assert_eq!(parse(b"dde1:ae"), Err(ParseError::NonStringKey(1)));
}

#[test]
fn bytes_as_key_are_refused() {
    assert_eq!(
        parse(&[b'd', b'1', b':', 0xff, b'i', b'1', b'e', b'e']),
        Err(ParseError::NonStringKey(1))
    );
}

#[test]
fn hex_of_bytes_is_a_key() {
    let parsed = BEncode::parse(
        vec![b'd', b'1', b':', 0xff, b'i', b'1', b'e', b'e'],
        Options { parse_hex: true },
    );
    assert_eq!(
        parsed,
        Ok(BEncode::Dictionary(dict(vec![("ff", BEncode::Int(1))])))
    );
}

#[test]
fn error_inside_a_key_comes_first() {
    assert_eq!(parse(b"dlxe"), Err(ParseError::UnexpectedByte(2)));
    assert_eq!(parse(b"di0xe"), Err(ParseError::MalformedInteger(1)));
}

#[test]
fn key_without_value_is_refused() {
    assert_eq!(parse(b"d1:ae"), Err(ParseError::UnexpectedTerminator(4)));
}

#[test]
fn terminator_that_closes_nothing() {
    assert_eq!(parse(b"e"), Err(ParseError::UnexpectedTerminator(0)));
}

#[test]
fn byte_that_opens_nothing() {
    assert_eq!(parse(b"x"), Err(ParseError::UnexpectedByte(0)));
    assert_eq!(parse(b"li1e?e"), Err(ParseError::UnexpectedByte(4)));
    assert_eq!(parse(b"-1"), Err(ParseError::UnexpectedByte(0)));
}

#[test]
fn open_containers_are_unterminated() {
    assert_eq!(parse(b"l"), Err(ParseError::UnterminatedDocument(1)));
    assert_eq!(parse(b"li1e"), Err(ParseError::UnterminatedDocument(4)));
    assert_eq!(parse(b"d1:a"), Err(ParseError::UnterminatedDocument(4)));
    assert_eq!(parse(b"d1:al"), Err(ParseError::UnterminatedDocument(5)));
}

#[test]
fn bare_value_is_a_document() {
    assert_eq!(parse(b"i5e"), Ok(BEncode::Int(5)));
    assert_eq!(parse(b"3:abc"), Ok(text("abc")));
}

#[test]
fn bytes_behind_the_document_are_not_read() {
    assert_eq!(parse(b"i5egarbage"), Ok(BEncode::Int(5)));
    assert_eq!(parse(b"lei1e"), Ok(BEncode::List(vec![])));
    assert_eq!(parse(b"deee"), Ok(BEncode::Dictionary(Dict::new())));
}

#[test]
fn containers_are_encoded_between_their_marks() {
    assert_eq!(BEncode::encode(&BEncode::List(vec![])), b"le".to_vec());
    assert_eq!(
        BEncode::encode(&BEncode::Dictionary(Dict::new())),
        b"de".to_vec()
    );
    let value = BEncode::List(vec![
        text("spam"),
        BEncode::Int(42),
        BEncode::Dictionary(dict(vec![("k", BEncode::List(vec![BEncode::Int(-1)]))])),
    ]);
    assert_eq!(BEncode::encode(&value), b"l4:spami42ed1:kli-1eeee".to_vec());
}

#[test]
fn shallow_data_is_written_at_once() {
    let mut out = b"x".to_vec();
    BEncode::encode_shallow_data(&BEncode::List(vec![]), &mut out);
    BEncode::encode_shallow_data(&BEncode::Dictionary(Dict::new()), &mut out);
    assert_eq!(out, b"x".to_vec());
    BEncode::encode_shallow_data(&text("a"), &mut out);
    BEncode::encode_shallow_data(&BEncode::Int(7), &mut out);
    BEncode::encode_shallow_data(&BEncode::BinaryStr(vec![0xff]), &mut out);
    assert_eq!(out, vec![b'x', b'1', b':', b'a', b'i', b'7', b'e', b'1', b':', 0xff]);
}

#[test]
fn encoding_is_appended() {
    let mut out = b"x".to_vec();
    BEncode::encode_to(&BEncode::List(vec![BEncode::Int(1), text("a")]), &mut out);
    BEncode::encode_to(&BEncode::Int(7), &mut out);
    assert_eq!(out, b"xli1e1:aei7e".to_vec());
}

#[test]
fn a_list_is_written_item_by_item() {
    let items = vec![BEncode::Int(1), BEncode::List(vec![text("a")])];
    let mut out = Vec::new();
    let mut open = Vec::new();
    BEncode::encode_list(&items, 0, &mut out, &mut open);
    assert_eq!(out, b"i1e".to_vec());
    assert_eq!(open.len(), 1);
    open.clear();
    BEncode::encode_list(&items, 1, &mut out, &mut open);
    assert_eq!(out, b"i1el".to_vec());
    assert_eq!(open.len(), 2);
    open.clear();
    BEncode::encode_list(&items, 2, &mut out, &mut open);
    assert_eq!(out, b"i1ele".to_vec());
    assert!(open.is_empty());
}

#[test]
fn a_dictionary_is_written_entry_by_entry() {
    let entries = dict(vec![("b", BEncode::Int(1)), ("a", BEncode::Dictionary(Dict::new()))]);
    let mut out = Vec::new();
    let mut open = Vec::new();
    BEncode::encode_dict(&entries, 0, &mut out, &mut open);
    assert_eq!(out, b"1:ad".to_vec());
    assert_eq!(open.len(), 2);
    open.clear();
    BEncode::encode_dict(&entries, 1, &mut out, &mut open);
    assert_eq!(out, b"1:ad1:bi1e".to_vec());
    assert_eq!(open.len(), 1);
    open.clear();
    BEncode::encode_dict(&entries, 2, &mut out, &mut open);
    assert_eq!(out, b"1:ad1:bi1ee".to_vec());
    assert!(open.is_empty());
}

#[test]
fn a_container_is_started_with_its_mark() {
    let value = BEncode::List(vec![BEncode::Int(1)]);
    let mut out = Vec::new();
    let mut open = Vec::new();
    BEncode::encode_start(&value, &mut out, &mut open);
    assert_eq!(out, b"l".to_vec());
    assert_eq!(open.len(), 1);
    BEncode::encode_start(&BEncode::Int(5), &mut out, &mut open);
    assert_eq!(out, b"li5e".to_vec());
    assert_eq!(open.len(), 1);
}

#[test]
fn ten_thousand_nested_lists() {
    let depth = 10_000;
    let mut input = vec![b'l'; depth];
    input.extend(vec![b'e'; depth]);
    let mut value = parse(&input).expect("a deep document");
    let mut seen = 0;
    loop {
        match value {
            BEncode::List(mut items) => {
                seen += 1;
                match items.pop() {
                    Some(inner) => {
                        assert!(items.is_empty());
                        value = inner;
                    }
                    None => break,
                }
            }
            other => panic!("no list: {:?}", other),
        }
    }
    assert_eq!(seen, depth);
}

fn dismantle(mut value: BEncode) {
    loop {
        match value {
            BEncode::List(mut items) => match items.pop() {
                Some(inner) => value = inner,
                None => break,
            },
            _ => break,
        }
    }
}

#[test]
fn deep_document_is_encoded_as_it_was() {
    let depth = 10_000;
    let mut input = vec![b'l'; depth];
    input.extend(b"i7e");
    input.extend(vec![b'e'; depth]);
    let value = parse(&input).expect("a deep document");
    assert_eq!(BEncode::encode(&value), input);
    dismantle(value);
}

#[test]
fn deep_document_that_does_not_close() {
    let depth = 10_000;
    let mut input = vec![b'l'; depth];
    input.extend(vec![b'e'; depth - 1]);
    match parse(&input) {
        Err(error) => assert_eq!(error, ParseError::UnterminatedDocument(2 * depth - 1)),
        Ok(_) => panic!("an open list was parsed"),
    }
}

use bencode_parser::{BEncode, Dict, Options, ParseError};
use sha1::{Digest, Sha1};

fn parse(input: &[u8]) -> Result<BEncode, ParseError> {
    BEncode::parse(input.to_vec(), Options::default())
}

fn text(s: &str) -> BEncode {
    BEncode::String(s.to_string())
}

fn pieces() -> Vec<u8> {
    (0..20u8).map(|i| 0xec_u8.wrapping_sub(i.wrapping_mul(7))).collect()
}

fn metadata() -> Vec<u8> {
    let mut input = b"d4:infod6:lengthi350e6:pieces20:".to_vec();
    input.extend_from_slice(&pieces());
    input.extend_from_slice(b"ee");
    input
}

fn sample() -> BEncode {
    let mut info = Dict::new();
    info.insert("pieces".to_string(), BEncode::BinaryStr(pieces()));
    info.insert("name".to_string(), text("big buck bunny"));
    info.insert("length".to_string(), BEncode::Int(350));
    let mut root = Dict::new();
    root.insert("info".to_string(), BEncode::Dictionary(info));
    root.insert(
        "announce-list".to_string(),
        BEncode::List(vec![
            BEncode::List(vec![text("udp://tracker.example:6969")]),
            BEncode::List(vec![]),
        ]),
    );
    root.insert("creation date".to_string(), BEncode::Int(-1));
    root.insert("".to_string(), text(""));
    BEncode::Dictionary(root)
}

#[test]
fn what_was_encoded_is_parsed_back() {
    let value = sample();
    let bytes = BEncode::encode(&value);
    assert_eq!(parse(&bytes), Ok(value));
}

#[test]
fn what_was_encoded_is_parsed_back_with_bytes_behind_it() {
    let value = sample();
    let mut bytes = BEncode::encode(&value);
    bytes.extend_from_slice(b"i1e");
    assert_eq!(parse(&bytes), Ok(value));
}

#[test]
fn shallow_values_are_parsed_back() {
    for value in [
        BEncode::Int(0),
        BEncode::Int(i64::MIN),
        BEncode::Int(i64::MAX),
        text(""),
        text("12:ab"),
        BEncode::BinaryStr(vec![0xff]),
        BEncode::BinaryStr(pieces()),
        BEncode::List(vec![]),
        BEncode::Dictionary(Dict::new()),
    ] {
        let bytes = BEncode::encode(&value);
        assert_eq!(parse(&bytes), Ok(value));
    }
}

#[test]
fn bytes_that_are_text_come_back_as_text() {
    let bytes = BEncode::encode(&BEncode::BinaryStr(b"abc".to_vec()));
    assert_eq!(parse(&bytes), Ok(text("abc")));
}

#[test]
fn metadata_document() {
    let parsed = parse(&metadata()).expect("a metadata document");
    let root = match &parsed {
        BEncode::Dictionary(root) => root,
        other => panic!("no dictionary: {:?}", other),
    };
    assert_eq!(root.len(), 1);
    let info = match root.get("info") {
        Some(BEncode::Dictionary(info)) => info,
        other => panic!("no info dictionary: {:?}", other),
    };
    assert_eq!(info.len(), 2);
    assert_eq!(info.get("length"), Some(&BEncode::Int(350)));
    assert_eq!(info.get("pieces"), Some(&BEncode::BinaryStr(pieces())));
    assert_eq!(BEncode::encode(&parsed), metadata());
}

#[test]
fn info_hash_is_stable() {
    let parsed = parse(&metadata()).expect("a metadata document");
    let info = match &parsed {
        BEncode::Dictionary(root) => root.get("info").expect("an info dictionary"),
        other => panic!("no dictionary: {:?}", other),
    };
    let mut encoded = BEncode::encode(info);
    let mut expected = b"d6:lengthi350e6:pieces20:".to_vec();
    expected.extend_from_slice(&pieces());
    expected.push(b'e');
    assert_eq!(encoded, expected);
    let first: Vec<u8> = Sha1::digest(&encoded).to_vec();
    assert_eq!(first.len(), 20);
    for _ in 0..5 {
        let again = parse(&encoded).expect("the info dictionary");
        encoded = BEncode::encode(&again);
        assert_eq!(Sha1::digest(&encoded).to_vec(), first);
    }
    assert_eq!(hex::encode(&first).len(), 40);
}

#[test]
fn key_length_that_reaches_past_the_key() {
    let mut input = b"d4:infod6:lengthi350ee8:pieces20:".to_vec();
    input.extend_from_slice(&pieces());
    input.push(b'e');
    assert_eq!(parse(&input), Err(ParseError::UnexpectedByte(32)));
}

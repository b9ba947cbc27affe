use bencode_parser::{BEncode, Options, ParseError};

fn parse(input: &[u8]) -> Result<BEncode, ParseError> {
    BEncode::parse(input.to_vec(), Options::default())
}

fn parse_hex(input: &[u8]) -> Result<BEncode, ParseError> {
    BEncode::parse(input.to_vec(), Options { parse_hex: true })
}

fn twenty_bytes() -> Vec<u8> {
    vec![
        0xff, 0x00, 0x9f, 0xa1, 0x10, 0xfe, 0x80, 0x81, 0xc0, 0xc1, 0xf5, 0xf6, 0xf7, 0xf8, 0xf9,
        0xfa, 0xfb, 0xfc, 0xfd, 0xab,
    ]
}

#[test]
fn default_options_keep_bytes() {
    assert_eq!(Options::default(), Options { parse_hex: false });
}

#[test]
fn text_is_a_string() {
    assert_eq!(parse(b"4:spam"), Ok(BEncode::String("spam".to_string())));
}

#[test]
fn text_may_hold_more_than_ascii() {
    let mut input = b"8:".to_vec();
    input.extend_from_slice("hé€".as_bytes());
    input.extend_from_slice(b"!!");
    assert_eq!("hé€".len(), 6);
    assert_eq!(parse(&input), Ok(BEncode::String("hé€!!".to_string())));
}

#[test]
fn empty_string_is_a_text() {
    assert_eq!(parse(b"0:"), Ok(BEncode::String(String::new())));
    assert_eq!(parse_hex(b"0:"), Ok(BEncode::String(String::new())));
}

#[test]
fn bytes_that_are_no_text_stay_bytes() {
    let mut input = b"20:".to_vec();
    input.extend_from_slice(&twenty_bytes());
    assert_eq!(parse(&input), Ok(BEncode::BinaryStr(twenty_bytes())));
}

#[test]
fn bytes_that_are_no_text_become_hex_on_demand() {
    let mut input = b"20:".to_vec();
    input.extend_from_slice(&twenty_bytes());
    assert_eq!(
        parse_hex(&input),
        Ok(BEncode::String(
            "ff009fa110fe8081c0c1f5f6f7f8f9fafbfcfdab".to_string()
        ))
    );
}

#[test]
fn hex_is_not_the_bytes_themselves() {
    assert_eq!(
        BEncode::classify(&[0xff, 0x0f, 0xa0], true),
        BEncode::String("ff0fa0".to_string())
    );
    assert_eq!(
        BEncode::classify(&[0xff, 0x0f, 0xa0], false),
        BEncode::BinaryStr(vec![0xff, 0x0f, 0xa0])
    );
}

#[test]
fn text_stays_text_with_hex_on() {
    assert_eq!(parse_hex(b"4:spam"), Ok(BEncode::String("spam".to_string())));
    assert_eq!(
        BEncode::classify(b"spam", true),
        BEncode::String("spam".to_string())
    );
}

#[test]
fn truncated_string() {
    assert_eq!(parse(b"5:ab"), Err(ParseError::TruncatedString(0)));
}

#[test]
fn truncated_string_is_reported_where_it_starts() {
    assert_eq!(parse(b"l1:a5:abe"), Err(ParseError::TruncatedString(4)));
}

#[test]
fn length_that_fits_no_machine_is_truncated() {
    assert_eq!(
        parse(b"99999999999999999999999999999999:a"),
        Err(ParseError::TruncatedString(0))
    );
    assert_eq!(
        parse(b"18446744073709551615:a"),
        Err(ParseError::TruncatedString(0))
    );
}

#[test]
fn length_may_have_leading_zeros() {
    assert_eq!(parse(b"03:abc"), Ok(BEncode::String("abc".to_string())));
}

#[test]
fn length_without_colon() {
    assert_eq!(parse(b"12"), Err(ParseError::UnterminatedDocument(2)));
    assert_eq!(parse(b"12x"), Err(ParseError::UnexpectedByte(2)));
}

#[test]
fn parse_str_gives_the_offset_behind_the_token() {
    assert_eq!(
        BEncode::parse_str(b"xx3:abcyy", 2, false),
        Ok((7, BEncode::String("abc".to_string())))
    );
    assert_eq!(
        BEncode::parse_str(b":abc", 0, false),
        Err(ParseError::UnexpectedByte(0))
    );
    assert_eq!(
        BEncode::parse_str(b"1:a", 7, false),
        Err(ParseError::UnterminatedDocument(3))
    );
}

#[test]
fn strings_are_encoded_with_their_length_in_bytes() {
    assert_eq!(
        BEncode::encode(&BEncode::String("spam".to_string())),
        b"4:spam".to_vec()
    );
    assert_eq!(BEncode::encode(&BEncode::String(String::new())), b"0:".to_vec());
    assert_eq!(
        BEncode::encode(&BEncode::String("é".to_string())),
        vec![b'2', b':', 0xc3, 0xa9]
    );
    let mut expected = b"20:".to_vec();
    expected.extend_from_slice(&twenty_bytes());
    assert_eq!(
        BEncode::encode(&BEncode::BinaryStr(twenty_bytes())),
        expected
    );
    assert_eq!(
        BEncode::encode(&BEncode::String("0123456789".to_string())),
        b"10:0123456789".to_vec()
    );
}

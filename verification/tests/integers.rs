use bencode_parser::{BEncode, Options, ParseError};

fn parse(input: &[u8]) -> Result<BEncode, ParseError> {
    BEncode::parse(input.to_vec(), Options::default())
}

#[test]
fn zero_is_an_integer() {
    assert_eq!(parse(b"i0e"), Ok(BEncode::Int(0)));
}

#[test]
fn negative_integer() {
    assert_eq!(parse(b"i-42e"), Ok(BEncode::Int(-42)));
}

#[test]
fn negative_zero_is_malformed() {
    assert_eq!(parse(b"i-0e"), Err(ParseError::MalformedInteger(0)));
}

#[test]
fn leading_zero_is_malformed() {
    assert_eq!(parse(b"i04e"), Err(ParseError::MalformedInteger(0)));
}

#[test]
fn negative_with_leading_zero_is_malformed() {
    assert_eq!(parse(b"i-01e"), Err(ParseError::MalformedInteger(0)));
}

#[test]
fn empty_integer_is_malformed() {
    assert_eq!(parse(b"ie"), Err(ParseError::MalformedInteger(0)));
    assert_eq!(parse(b"i-e"), Err(ParseError::MalformedInteger(0)));
}

#[test]
fn byte_that_is_no_digit_is_malformed() {
    assert_eq!(parse(b"i12x4e"), Err(ParseError::MalformedInteger(0)));
    assert_eq!(parse(b"i+5e"), Err(ParseError::MalformedInteger(0)));
    assert_eq!(parse(b"i1-2e"), Err(ParseError::MalformedInteger(0)));
    assert_eq!(parse(b"i--2e"), Err(ParseError::MalformedInteger(0)));
}

#[test]
fn malformed_integer_is_reported_where_it_starts() {
    assert_eq!(parse(b"li1ei02ee"), Err(ParseError::MalformedInteger(4)));
    assert_eq!(ParseError::MalformedInteger(4).offset(), 4);
}

#[test]
fn integer_without_end_is_unterminated() {
    assert_eq!(parse(b"i12"), Err(ParseError::UnterminatedDocument(3)));
    assert_eq!(parse(b"i"), Err(ParseError::UnterminatedDocument(1)));
    assert_eq!(parse(b"i-"), Err(ParseError::UnterminatedDocument(2)));
}

#[test]
fn largest_and_smallest_integers() {
    assert_eq!(parse(b"i9223372036854775807e"), Ok(BEncode::Int(i64::MAX)));
    assert_eq!(parse(b"i-9223372036854775808e"), Ok(BEncode::Int(i64::MIN)));
}

#[test]
fn integer_that_does_not_fit_is_malformed() {
    assert_eq!(parse(b"i9223372036854775808e"), Err(ParseError::MalformedInteger(0)));
    assert_eq!(parse(b"i-9223372036854775809e"), Err(ParseError::MalformedInteger(0)));
    assert_eq!(
        parse(b"i99999999999999999999999999999999999e"),
        Err(ParseError::MalformedInteger(0))
    );
}

#[test]
fn parse_int_gives_the_offset_behind_the_token() {
    assert_eq!(BEncode::parse_int(b"xxi-42eyy", 2), Ok((7, BEncode::Int(-42))));
    assert_eq!(
        BEncode::parse_int(b"i7e", 9),
        Err(ParseError::UnterminatedDocument(3))
    );
}

#[test]
fn integers_are_encoded_in_decimal() {
    assert_eq!(BEncode::encode(&BEncode::Int(0)), b"i0e".to_vec());
    assert_eq!(BEncode::encode(&BEncode::Int(350)), b"i350e".to_vec());
    assert_eq!(BEncode::encode(&BEncode::Int(-42)), b"i-42e".to_vec());
    assert_eq!(
        BEncode::encode(&BEncode::Int(i64::MIN)),
        b"i-9223372036854775808e".to_vec()
    );
    assert_eq!(
        BEncode::encode(&BEncode::Int(i64::MAX)),
        b"i9223372036854775807e".to_vec()
    );
}

use bencode_parser::{BEncode, Dict};

fn text(s: &str) -> BEncode {
    BEncode::String(s.to_string())
}

#[test]
fn integers_are_shown_in_decimal() {
    assert_eq!(BEncode::Int(0).debug_string(), "0");
    assert_eq!(BEncode::Int(-42).debug_string(), "-42");
    assert_eq!(BEncode::Int(1050).debug_string(), "1050");
    assert_eq!(BEncode::Int(i64::MIN).debug_string(), i64::MIN.to_string());
}

#[test]
fn text_is_shown_as_it_is() {
    assert_eq!(text("spam \"x\"").debug_string(), "spam \"x\"");
}

#[test]
fn bytes_are_never_shown() {
    assert_eq!(
        BEncode::BinaryStr(vec![0x61, 0xff]).debug_string(),
        "[Binary String]"
    );
}

#[test]
fn lists_are_shown_in_brackets() {
    assert_eq!(BEncode::List(vec![]).debug_string(), "[]");
    assert_eq!(BEncode::List(vec![BEncode::Int(1)]).debug_string(), "[1]");
    assert_eq!(
        BEncode::List(vec![BEncode::Int(1), text("a"), BEncode::List(vec![])]).debug_string(),
        "[1, a, []]"
    );
}

#[test]
fn dictionaries_are_shown_with_quoted_keys() {
    assert_eq!(BEncode::Dictionary(Dict::new()).debug_string(), "{}");
    let mut d = Dict::new();
    d.insert("b".to_string(), text("x"));
    d.insert("a\n".to_string(), BEncode::List(vec![BEncode::Int(2), BEncode::Int(3)]));
    d.insert("c".to_string(), BEncode::BinaryStr(vec![0xff]));
    assert_eq!(
        BEncode::Dictionary(d).debug_string(),
        "{\"a\\n\": [2, 3], \"b\": x, \"c\": [Binary String]}"
    );
}

#[test]
fn rendering_is_appended() {
    let mut out = String::from("value: ");
    BEncode::Int(7).render_to(&mut out);
    assert_eq!(out, "value: 7");
}

use bencode_parser::{BEncode, Dict, Options, ParseError};

/// A small generator of numbers, the same on every run.
struct Numbers(u64);

impl Numbers {
    fn next(&mut self) -> u64 {
        self.0 = self
            .0
            .wrapping_mul(6364136223846793005)
            .wrapping_add(1442695040888963407);
        self.0 >> 33
    }

    fn below(&mut self, bound: u64) -> u64 {
        self.next() % bound
    }
}

fn some_text(numbers: &mut Numbers) -> String {
    let letters = ["", "a", "b", "é", "info", "pieces", "z", "€", "0", "length", " "];
    let mut text = String::new();
    for _ in 0..numbers.below(4) {
        text.push_str(letters[numbers.below(letters.len() as u64) as usize]);
    }
    text
}

fn some_bytes(numbers: &mut Numbers) -> Vec<u8> {
    let mut bytes = vec![0xff];
    for _ in 0..numbers.below(24) {
        bytes.push(numbers.below(256) as u8);
    }
    bytes
}

fn some_value(numbers: &mut Numbers, depth: u32) -> BEncode {
    let kinds = if depth == 0 { 3 } else { 5 };
    match numbers.below(kinds) {
        0 => match numbers.below(4) {
            0 => BEncode::Int(i64::MIN),
            1 => BEncode::Int(i64::MAX),
            2 => BEncode::Int(numbers.below(2000) as i64 - 1000),
            _ => BEncode::Int(numbers.next() as i64 * 7919),
        },
        1 => BEncode::String(some_text(numbers)),
        2 => BEncode::BinaryStr(some_bytes(numbers)),
        3 => {
            let mut items = Vec::new();
            for _ in 0..numbers.below(5) {
                items.push(some_value(numbers, depth - 1));
            }
            BEncode::List(items)
        }
        _ => {
            let mut dict = Dict::new();
            for _ in 0..numbers.below(6) {
                dict.insert(some_text(numbers), some_value(numbers, depth - 1));
            }
            BEncode::Dictionary(dict)
        }
    }
}

fn offset_of(error: &ParseError) -> usize {
    error.offset()
}

#[test]
fn generated_values_are_parsed_back() {
    let mut numbers = Numbers(0x5eed);
    for _ in 0..400 {
        let value = some_value(&mut numbers, 4);
        let bytes = BEncode::encode(&value);
        let parsed = BEncode::parse(bytes.clone(), Options::default());
        assert_eq!(parsed.as_ref(), Ok(&value));
        assert_eq!(BEncode::encode(&parsed.unwrap()), bytes);
    }
}

#[test]
fn generated_dictionaries_hold_ascending_keys() {
    let mut numbers = Numbers(0xd1c7);
    for _ in 0..200 {
        let mut dict = Dict::new();
        let mut keys: Vec<String> = Vec::new();
        for _ in 0..numbers.below(12) {
            let key = some_text(&mut numbers);
            let value = numbers.below(100) as i64;
            dict.insert(key.clone(), BEncode::Int(value));
            assert_eq!(dict.get(&key), Some(&BEncode::Int(value)));
            if !keys.contains(&key) {
                keys.push(key);
            }
        }
        keys.sort_by(|a, b| a.as_bytes().cmp(b.as_bytes()));
        let held: Vec<String> = (0..dict.len())
            .map(|i| dict.entry(i).unwrap().0.clone())
            .collect();
        assert_eq!(held, keys);
    }
}

#[test]
fn generated_inputs_end_in_a_value_or_an_error_within_the_input() {
    let alphabet: &[u8] = b"ildeeee0123459::-ab\xff\xc3\xa9";
    let mut numbers = Numbers(0xf00d);
    for _ in 0..20_000 {
        let mut input = Vec::new();
        for _ in 0..numbers.below(14) {
            input.push(alphabet[numbers.below(alphabet.len() as u64) as usize]);
        }
        for parse_hex in [false, true] {
            match BEncode::parse(input.clone(), Options { parse_hex }) {
                Ok(value) => {
                    let bytes = BEncode::encode(&value);
                    assert!(bytes.len() <= input.len() || parse_hex);
                    assert_eq!(
                        BEncode::parse(bytes, Options::default()),
                        Ok(value)
                    );
                }
                Err(error) => {
                    assert!(offset_of(&error) <= input.len());
                    if let ParseError::UnterminatedDocument(at) = error {
                        assert_eq!(at, input.len());
                    }
                }
            }
        }
    }
}

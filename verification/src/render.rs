//! The rendering of a value for a reader: integers in decimal, text as it
//! is, lists and dictionaries in brackets, and a placeholder for bytes,
//! which are never shown as text.

use crate::digits::{decimal, is_digit, lemma_decimal_shape, push_decimal};
use crate::value::{BEncode, Dict, Value};
use vstd::prelude::*;
use vstd::string::StringExecFns;

verus! {

/// What `format!("{:?}", ..)` makes of a text: the text between double
/// quotes, with the escapes of std's `Debug` for `str`.
pub uninterp spec fn debug_quoted(text: Seq<char>) -> Seq<char>;

/// Calls std's `Debug` for `str` through `format!`. The contract gives the
/// result its name: it depends on the text alone.
#[verifier::external_body]
pub(crate) fn quoted(text: &str) -> (out: String)
    ensures
        out@ == debug_quoted(text@),
{
    format!("{:?}", text)
}

/// Bytes of ASCII as the characters that they stand for.
pub open spec fn ascii_text(bytes: Seq<u8>) -> Seq<char> {
    Seq::new(bytes.len(), |i: int| bytes[i] as char)
}

/// An integer in decimal digits, with a `-` before them where it is
/// negative.
pub open spec fn integer_text(n: int) -> Seq<char> {
    if n < 0 {
        seq!['-'] + ascii_text(decimal((-n) as nat))
    } else {
        ascii_text(decimal(n as nat))
    }
}

/// What stands for a byte string that is no text.
pub open spec fn binary_placeholder() -> Seq<char> {
    "[Binary String]"@
}

/// What parts one item from the next.
pub open spec fn separator() -> Seq<char> {
    seq![',', ' ']
}

/// The first `count` items, with a comma and a space between each two.
pub open spec fn items_rendering(items: Seq<Value>, count: nat) -> Seq<char>
    decreases items, count,
{
    if count == 0 || count > items.len() {
        Seq::empty()
    } else if count == 1 {
        items[0].rendering()
    } else {
        items_rendering(items, (count - 1) as nat) + separator() + items[count - 1].rendering()
    }
}

/// An entry: the key as `debug_quoted` shows it, a colon, a space, and the
/// value.
pub open spec fn entry_rendering(quoted_key: Seq<char>, item: Seq<char>) -> Seq<char> {
    quoted_key + seq![':', ' '] + item
}

/// The first `count` entries, with a comma and a space between each two.
pub open spec fn entries_rendering(entries: Seq<(Seq<char>, Value)>, count: nat) -> Seq<char>
    decreases entries, count,
{
    if count == 0 || count > entries.len() {
        Seq::empty()
    } else if count == 1 {
        entry_rendering(debug_quoted(entries[0].0), entries[0].1.rendering())
    } else {
        entries_rendering(entries, (count - 1) as nat) + separator() + entry_rendering(
            debug_quoted(entries[count - 1].0),
            entries[count - 1].1.rendering(),
        )
    }
}

impl Value {
    /// The value as a reader sees it: an integer in decimal, a text as it
    /// is, a list as `[a, b]`, a dictionary as `{"key": a, "other": b}`, and
    /// a placeholder for bytes.
    pub open spec fn rendering(self) -> Seq<char>
        decreases self, 0nat,
    {
        match self {
            Value::Int(n) => integer_text(n),
            Value::Text(text) => text,
            Value::Bytes(_) => binary_placeholder(),
            Value::List(items) => seq!['['] + items_rendering(items, items.len()) + seq![']'],
            Value::Dict(entries) => seq!['{'] + entries_rendering(entries, entries.len()) + seq![
                '}',
            ],
        }
    }
}

/// The text of one digit.
fn digit_str(digit: u8) -> (text: &'static str)
    requires
        is_digit(digit),
    ensures
        text@ == seq![digit as char],
{
    proof {
        reveal_strlit("0");
        reveal_strlit("1");
        reveal_strlit("2");
        reveal_strlit("3");
        reveal_strlit("4");
        reveal_strlit("5");
        reveal_strlit("6");
        reveal_strlit("7");
        reveal_strlit("8");
        reveal_strlit("9");
    }
    let text = if digit == 48 {
        "0"
    } else if digit == 49 {
        "1"
    } else if digit == 50 {
        "2"
    } else if digit == 51 {
        "3"
    } else if digit == 52 {
        "4"
    } else if digit == 53 {
        "5"
    } else if digit == 54 {
        "6"
    } else if digit == 55 {
        "7"
    } else if digit == 56 {
        "8"
    } else {
        "9"
    };
    assert(text@ =~= seq![digit as char]);
    text
}

/// Appends an integer in decimal digits to `out`.
pub fn push_integer_text(out: &mut String, n: i64)
    ensures
        final(out)@ == old(out)@ + integer_text(n as int),
{
    let mut digits: Vec<u8> = Vec::new();
    if n < 0 {
        proof {
            reveal_strlit("-");
        }
        out.append("-");
        push_decimal(&mut digits, (-(n as i128)) as u64);
    } else {
        push_decimal(&mut digits, n as u64);
    }
    let ghost start = out@;
    let ghost magnitude: nat = if n < 0 {
        (-n) as nat
    } else {
        n as nat
    };
    proof {
        lemma_decimal_shape(magnitude);
        assert(digits@ =~= decimal(magnitude));
    }
    let mut at: usize = 0;
    while at < digits.len()
        invariant
            at <= digits.len(),
            digits@ == decimal(magnitude),
            forall|i: int| 0 <= i < digits.len() ==> is_digit(#[trigger] digits@[i]),
            out@ == start + ascii_text(digits@).subrange(0, at as int),
        decreases digits.len() - at,
    {
        out.append(digit_str(digits[at]));
        at = at + 1;
        assert(out@ =~= start + ascii_text(digits@).subrange(0, at as int));
    }
    assert(ascii_text(digits@).subrange(0, at as int) =~= ascii_text(digits@));
    assert(out@ =~= old(out)@ + integer_text(n as int));
}

/// Appends the head of an entry to `out`: a comma and a space unless the
/// entry is the first, the key as it was quoted, a colon and a space.
pub fn push_entry_head(out: &mut String, first: bool, quoted_key: &str)
    ensures
        final(out)@ == old(out)@ + (if first {
            Seq::empty()
        } else {
            separator()
        }) + quoted_key@ + seq![':', ' '],
{
    proof {
        reveal_strlit(", ");
        reveal_strlit(": ");
    }
    if !first {
        out.append(", ");
    }
    out.append(quoted_key);
    out.append(": ");
    assert(out@ =~= old(out)@ + (if first {
        Seq::empty()
    } else {
        separator()
    }) + quoted_key@ + seq![':', ' ']);
}

impl BEncode {
    /// The value as a reader sees it. Bytes are shown as a placeholder and
    /// never as text.
    pub fn debug_string(&self) -> (out: String)
        ensures
            out@ == self@.rendering(),
    {
        let mut out = String::new();
        self.render_to(&mut out);
        assert(out@ =~= self@.rendering());
        out
    }

    /// Appends the value as a reader sees it to `out`.
    pub fn render_to(&self, out: &mut String)
        ensures
            final(out)@ == old(out)@ + self@.rendering(),
        decreases self,
    {
        match self {
            BEncode::Int(n) => {
                push_integer_text(out, *n);
            },
            BEncode::String(text) => {
                out.append(text.as_str());
            },
            BEncode::BinaryStr(_) => {
                out.append("[Binary String]");
            },
            BEncode::List(list) => {
                let ghost items = self@->List_0;
                proof {
                    reveal_strlit("[");
                    reveal_strlit("]");
                }
                out.append("[");
                let mut at: usize = 0;
                while at < list.len()
                    invariant
                        at <= list.len(),
                        self == BEncode::List(*list),
                        items == self@->List_0,
                        items.len() == list.len(),
                        out@ == old(out)@ + seq!['['] + items_rendering(items, at as nat),
                    decreases list.len() - at,
                {
                    if at > 0 {
                        proof {
                            reveal_strlit(", ");
                        }
                        out.append(", ");
                    }
                    list[at].render_to(out);
                    at = at + 1;
                    assert(out@ =~= old(out)@ + seq!['['] + items_rendering(items, at as nat));
                }
                out.append("]");
                assert(out@ =~= old(out)@ + self@.rendering());
            },
            BEncode::Dictionary(dict) => {
                let ghost entries = dict@;
                proof {
                    reveal_strlit("{");
                    reveal_strlit("}");
                }
                out.append("{");
                let mut at: usize = 0;
                while at < dict.len()
                    invariant
                        at <= entries.len(),
                        decreases_to!(self => dict),
                        entries == dict@,
                        entries == self@->Dict_0,
                        out@ == old(out)@ + seq!['{'] + entries_rendering(entries, at as nat),
                    decreases entries.len() - at,
                {
                    if let Some((key, item)) = dict.entry(at) {
                        let ghost before = out@;
                        let shown = quoted(key.as_str());
                        push_entry_head(out, at == 0, shown.as_str());
                        item.render_to(out);
                        assert(out@ =~= before + (if at == 0 {
                            Seq::empty()
                        } else {
                            separator()
                        }) + entry_rendering(debug_quoted(key@), item@.rendering()));
                    }
                    at = at + 1;
                    assert(out@ =~= old(out)@ + seq!['{'] + entries_rendering(
                        entries,
                        at as nat,
                    ));
                }
                out.append("}");
                assert(out@ =~= old(out)@ + self@.rendering());
            },
        }
    }
}

} // verus!

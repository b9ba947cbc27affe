//! The encoder: from a value to its canonical bytes, written in one loop
//! with an explicit stack of the containers that are being written, so that
//! the depth of a value costs no call depth.

use crate::digits::{decimal, is_digit, lemma_decimal_shape, push_decimal};
use crate::marks::{COLON, DICT_MARK, END_MARK, INT_MARK, LIST_MARK, MINUS};
use crate::value::{BEncode, Dict, Value};
use vstd::prelude::*;
use vstd::utf8::encode_utf8;

verus! {

/// An integer on the wire: `i`, the decimal digits with a `-` before them
/// where the number is negative, and `e`.
pub open spec fn integer_encoding(n: int) -> Seq<u8> {
    if n < 0 {
        seq![INT_MARK, MINUS] + decimal((-n) as nat) + seq![END_MARK]
    } else {
        seq![INT_MARK] + decimal(n as nat) + seq![END_MARK]
    }
}

/// A byte string on the wire: its length in decimal digits, `:`, and the
/// bytes themselves.
pub open spec fn string_encoding(payload: Seq<u8>) -> Seq<u8> {
    decimal(payload.len()) + seq![COLON] + payload
}

/// The first `count` items on the wire, one after the other.
pub open spec fn items_encoding(items: Seq<Value>, count: nat) -> Seq<u8>
    decreases items, count,
{
    if count == 0 || count > items.len() {
        Seq::empty()
    } else {
        items_encoding(items, (count - 1) as nat) + items[count - 1].encoding()
    }
}

/// The first `count` entries on the wire: each key as a byte string, then
/// its value.
pub open spec fn entries_encoding(entries: Seq<(Seq<char>, Value)>, count: nat) -> Seq<u8>
    decreases entries, count,
{
    if count == 0 || count > entries.len() {
        Seq::empty()
    } else {
        entries_encoding(entries, (count - 1) as nat) + string_encoding(
            encode_utf8(entries[count - 1].0),
        ) + entries[count - 1].1.encoding()
    }
}

impl Value {
    /// The value on the wire. A text is written as its UTF-8 bytes, a list as
    /// `l`, its items and `e`, a dictionary as `d`, its entries in their
    /// stored order and `e`.
    pub open spec fn encoding(self) -> Seq<u8>
        decreases self, 0nat,
    {
        match self {
            Value::Int(n) => integer_encoding(n),
            Value::Text(text) => string_encoding(encode_utf8(text)),
            Value::Bytes(bytes) => string_encoding(bytes),
            Value::List(items) => seq![LIST_MARK] + items_encoding(items, items.len()) + seq![
                END_MARK,
            ],
            Value::Dict(entries) => seq![DICT_MARK] + entries_encoding(entries, entries.len())
                + seq![END_MARK],
        }
    }
}

/// Appends `bytes` to `out`.
fn push_bytes(out: &mut Vec<u8>, bytes: &[u8])
    ensures
        final(out)@ == old(out)@ + bytes@,
{
    let mut at: usize = 0;
    while at < bytes.len()
        invariant
            at <= bytes.len(),
            out@ == old(out)@ + bytes@.subrange(0, at as int),
        decreases bytes.len() - at,
    {
        out.push(bytes[at]);
        at = at + 1;
        assert(out@ =~= old(out)@ + bytes@.subrange(0, at as int));
    }
    assert(bytes@.subrange(0, at as int) =~= bytes@);
}

/// Appends a byte string as it stands on the wire.
fn push_string(out: &mut Vec<u8>, payload: &[u8])
    ensures
        final(out)@ == old(out)@ + string_encoding(payload@),
{
    push_decimal(out, payload.len() as u64);
    out.push(COLON);
    push_bytes(out, payload);
    assert(out@ =~= old(out)@ + string_encoding(payload@));
}

/// True of the bytes that open a value.
pub open spec fn opens_value(byte: u8) -> bool {
    byte == INT_MARK || is_digit(byte) || byte == LIST_MARK || byte == DICT_MARK
}

/// The encoding of a string starts with a digit.
pub proof fn lemma_string_encoding_lead(payload: Seq<u8>)
    ensures
        string_encoding(payload).len() >= 2,
        is_digit(string_encoding(payload)[0]),
{
    lemma_decimal_shape(payload.len());
}

/// The encoding of a value starts with a byte that opens a value, and so
/// with none that closes one.
pub proof fn lemma_encoding_lead(v: Value)
    ensures
        v.encoding().len() >= 2,
        opens_value(v.encoding()[0]),
{
    match v {
        Value::Int(n) => {
            if n < 0 {
                lemma_decimal_shape((-n) as nat);
            } else {
                lemma_decimal_shape(n as nat);
            }
        },
        Value::Text(text) => {
            lemma_string_encoding_lead(encode_utf8(text));
        },
        Value::Bytes(bytes) => {
            lemma_string_encoding_lead(bytes);
        },
        Value::List(_) => {},
        Value::Dict(_) => {},
    }
}

/// The encodings of the items from `done` on, one after the other.
pub open spec fn items_left(items: Seq<Value>, done: nat) -> Seq<u8>
    decreases items.len() - done,
{
    if done >= items.len() {
        Seq::empty()
    } else {
        items[done as int].encoding() + items_left(items, done + 1)
    }
}

/// The encodings of the entries from `done` on, one after the other.
pub open spec fn entries_left(entries: Seq<(Seq<char>, Value)>, done: nat) -> Seq<u8>
    decreases entries.len() - done,
{
    if done >= entries.len() {
        Seq::empty()
    } else {
        string_encoding(encode_utf8(entries[done as int].0)) + entries[done as int].1.encoding()
            + entries_left(entries, done + 1)
    }
}

/// The items that were written and those that are left make up the list.
pub proof fn lemma_items_left(items: Seq<Value>, done: nat)
    requires
        done <= items.len(),
    ensures
        items_encoding(items, done) + items_left(items, done) == items_encoding(
            items,
            items.len(),
        ),
    decreases items.len() - done,
{
    if done < items.len() {
        lemma_items_left(items, done + 1);
        assert(items_encoding(items, done) + items_left(items, done) =~= items_encoding(
            items,
            done + 1,
        ) + items_left(items, done + 1));
    } else {
        assert(items_encoding(items, done) + items_left(items, done) =~= items_encoding(
            items,
            items.len(),
        ));
    }
}

/// The entries that were written and those that are left make up the
/// dictionary.
pub proof fn lemma_entries_left(entries: Seq<(Seq<char>, Value)>, done: nat)
    requires
        done <= entries.len(),
    ensures
        entries_encoding(entries, done) + entries_left(entries, done) == entries_encoding(
            entries,
            entries.len(),
        ),
    decreases entries.len() - done,
{
    if done < entries.len() {
        lemma_entries_left(entries, done + 1);
        assert(entries_encoding(entries, done) + entries_left(entries, done)
            =~= entries_encoding(entries, done + 1) + entries_left(entries, done + 1));
    } else {
        assert(entries_encoding(entries, done) + entries_left(entries, done)
            =~= entries_encoding(entries, entries.len()));
    }
}

/// A container that is being written, as a mathematical value: what it
/// holds, and how much of it was written.
pub enum Writing {
    List { items: Seq<Value>, done: nat },
    Dict { entries: Seq<(Seq<char>, Value)>, done: nat },
}

impl Writing {
    /// What is left to write of the container: the items or entries that
    /// were not written, and the terminator.
    pub open spec fn left(self) -> Seq<u8> {
        match self {
            Writing::List { items, done } => items_left(items, done) + seq![END_MARK],
            Writing::Dict { entries, done } => entries_left(entries, done) + seq![END_MARK],
        }
    }
}

/// What is left to write of the containers that are being written, from
/// the innermost, which is the last, to the outermost.
pub open spec fn left_to_write(open: Seq<Writing>) -> Seq<u8>
    decreases open.len(),
{
    if open.len() == 0 {
        Seq::empty()
    } else {
        open.last().left() + left_to_write(open.drop_last())
    }
}

/// What is written of a value when it is started: all of an integer or a
/// byte string, and of a list or a dictionary the mark that opens it.
pub open spec fn started(v: Value) -> Seq<u8> {
    match v {
        Value::List(_) => seq![LIST_MARK],
        Value::Dict(_) => seq![DICT_MARK],
        _ => v.encoding(),
    }
}

/// The containers that are being written once a value was started among
/// `open`: a list or a dictionary joins them, with nothing of it written.
pub open spec fn opened(open: Seq<Writing>, v: Value) -> Seq<Writing> {
    match v {
        Value::List(items) => open.push(Writing::List { items, done: 0 }),
        Value::Dict(entries) => open.push(Writing::Dict { entries, done: 0 }),
        _ => open,
    }
}

/// What is written when a container goes on: the start of its next item,
/// with the key before it in a dictionary, or the terminator where nothing
/// is left.
pub open spec fn continued(container: Writing) -> Seq<u8> {
    match container {
        Writing::List { items, done } => if done < items.len() {
            started(items[done as int])
        } else {
            seq![END_MARK]
        },
        Writing::Dict { entries, done } => if done < entries.len() {
            string_encoding(encode_utf8(entries[done as int].0)) + started(entries[done as int].1)
        } else {
            seq![END_MARK]
        },
    }
}

/// The containers that are being written once `container`, which was the
/// innermost of them and is no longer among `open`, went on: it is back
/// with one item more written and its next item started, or it is closed.
pub open spec fn reopened(open: Seq<Writing>, container: Writing) -> Seq<Writing> {
    match container {
        Writing::List { items, done } => if done < items.len() {
            opened(open.push(Writing::List { items, done: done + 1 }), items[done as int])
        } else {
            open
        },
        Writing::Dict { entries, done } => if done < entries.len() {
            opened(open.push(Writing::Dict { entries, done: done + 1 }), entries[done as int].1)
        } else {
            open
        },
    }
}

/// Starting a value writes some of it and leaves the rest to be written.
pub proof fn lemma_started(open: Seq<Writing>, v: Value)
    ensures
        started(v) + left_to_write(opened(open, v)) == v.encoding() + left_to_write(open),
        started(v).len() > 0,
{
    lemma_encoding_lead(v);
    let now = opened(open, v);
    match v {
        Value::List(items) => {
            assert(now.drop_last() =~= open);
            lemma_items_left(items, 0);
            assert(items_encoding(items, 0) + items_left(items, 0) =~= items_left(items, 0));
            assert(started(v) + left_to_write(now) =~= v.encoding() + left_to_write(open));
        },
        Value::Dict(entries) => {
            assert(now.drop_last() =~= open);
            lemma_entries_left(entries, 0);
            assert(entries_encoding(entries, 0) + entries_left(entries, 0) =~= entries_left(
                entries,
                0,
            ));
            assert(started(v) + left_to_write(now) =~= v.encoding() + left_to_write(open));
        },
        _ => {},
    }
}

/// A container that goes on writes some of what was left of it and leaves
/// the rest to be written.
pub proof fn lemma_continued(open: Seq<Writing>, container: Writing)
    ensures
        continued(container) + left_to_write(reopened(open, container)) == left_to_write(
            open.push(container),
        ),
        continued(container).len() > 0,
{
    assert(open.push(container).drop_last() =~= open);
    match container {
        Writing::List { items, done } => {
            if done < items.len() {
                let back = open.push(Writing::List { items, done: done + 1 });
                assert(back.drop_last() =~= open);
                lemma_started(back, items[done as int]);
                assert(continued(container) + left_to_write(reopened(open, container))
                    =~= left_to_write(open.push(container)));
            } else {
                assert(continued(container) + left_to_write(reopened(open, container))
                    =~= left_to_write(open.push(container)));
            }
        },
        Writing::Dict { entries, done } => {
            if done < entries.len() {
                let back = open.push(Writing::Dict { entries, done: done + 1 });
                assert(back.drop_last() =~= open);
                lemma_started(back, entries[done as int].1);
                lemma_string_encoding_lead(encode_utf8(entries[done as int].0));
                let key = string_encoding(encode_utf8(entries[done as int].0));
                let item = entries[done as int].1;
                assert(continued(container) + left_to_write(reopened(open, container)) =~= key + (
                started(item) + left_to_write(opened(back, item))));
                assert(continued(container) + left_to_write(reopened(open, container))
                    =~= left_to_write(open.push(container)));
            } else {
                assert(continued(container) + left_to_write(reopened(open, container))
                    =~= left_to_write(open.push(container)));
            }
        },
    }
}

/// A container that is being written: what it holds, and how much of it
/// was written.
pub enum Cursor<'a> {
    List { items: &'a Vec<BEncode>, done: usize },
    Dict { entries: &'a Dict, done: usize },
}

impl<'a> View for Cursor<'a> {
    type V = Writing;

    open spec fn view(&self) -> Writing {
        match self {
            Cursor::List { items, done } => Writing::List {
                items: BEncode::List(**items)@->List_0,
                done: *done as nat,
            },
            Cursor::Dict { entries, done } => Writing::Dict {
                entries: entries@,
                done: *done as nat,
            },
        }
    }
}

/// The containers that are being written, as mathematical values.
pub open spec fn writing<'a>(open: Seq<Cursor<'a>>) -> Seq<Writing> {
    open.map_values(|cursor: Cursor<'a>| cursor@)
}

impl BEncode {
    /// Encodes the value: the bytes that a reader of the format expects for
    /// it, with the entries of each dictionary in ascending byte order of
    /// their keys.
    pub fn encode(object: &Self) -> (bytes: Vec<u8>)
        ensures
            bytes@ == object@.encoding(),
    {
        let mut bytes: Vec<u8> = Vec::new();
        Self::encode_to(object, &mut bytes);
        assert(bytes@ =~= object@.encoding());
        bytes
    }

    /// Appends the encoding of the value to `out`.
    pub fn encode_to(object: &Self, out: &mut Vec<u8>)
        ensures
            final(out)@ == old(out)@ + object@.encoding(),
    {
        let mut open: Vec<Cursor<'_>> = Vec::new();
        assert(writing(open@) =~= Seq::empty());
        Self::encode_start(object, out, &mut open);
        proof {
            lemma_started(Seq::empty(), object@);
            assert(out@ + left_to_write(writing(open@)) =~= old(out)@ + (started(object@)
                + left_to_write(opened(Seq::empty(), object@))));
        }
        while open.len() > 0
            invariant
                out@ + left_to_write(writing(open@)) == old(out)@ + object@.encoding(),
            decreases left_to_write(writing(open@)).len(),
        {
            let ghost before = writing(open@);
            let ghost written = out@;
            let cursor = open.pop().unwrap();
            proof {
                assert(writing(open@) =~= before.drop_last());
                assert(before =~= before.drop_last().push(cursor@));
                lemma_continued(before.drop_last(), cursor@);
            }
            match cursor {
                Cursor::List { items, done } => Self::encode_list(items, done, out, &mut open),
                Cursor::Dict { entries, done } => Self::encode_dict(entries, done, out, &mut open),
            }
            assert(out@ + left_to_write(writing(open@)) =~= written + (continued(cursor@)
                + left_to_write(reopened(before.drop_last(), cursor@))));
        }
        assert(out@ =~= old(out)@ + object@.encoding());
    }

    /// Starts a value: appends all of an integer or a byte string, and of a
    /// list or a dictionary the mark that opens it. The container then
    /// joins those that are being written.
    pub fn encode_start<'a>(object: &'a Self, out: &mut Vec<u8>, open: &mut Vec<Cursor<'a>>)
        ensures
            final(out)@ == old(out)@ + started(object@),
            writing(final(open)@) == opened(writing(old(open)@), object@),
    {
        match object {
            BEncode::List(items) => {
                out.push(LIST_MARK);
                open.push(Cursor::List { items, done: 0 });
                assert(writing(open@) =~= opened(writing(old(open)@), object@));
            },
            BEncode::Dictionary(entries) => {
                out.push(DICT_MARK);
                open.push(Cursor::Dict { entries, done: 0 });
                assert(writing(open@) =~= opened(writing(old(open)@), object@));
            },
            _ => {
                Self::encode_shallow_data(object, out);
            },
        }
    }

    /// Appends the encoding of an integer or of a byte string, text or not,
    /// to `out`, and nothing for a list or a dictionary.
    pub fn encode_shallow_data(data: &Self, out: &mut Vec<u8>)
        ensures
            final(out)@ == old(out)@ + (match data@ {
                Value::List(_) => Seq::empty(),
                Value::Dict(_) => Seq::empty(),
                _ => data@.encoding(),
            }),
    {
        match data {
            BEncode::Int(n) => {
                out.push(INT_MARK);
                if *n < 0 {
                    out.push(MINUS);
                    push_decimal(out, (-(*n as i128)) as u64);
                } else {
                    push_decimal(out, *n as u64);
                }
                out.push(END_MARK);
                assert(out@ =~= old(out)@ + integer_encoding(*n as int));
            },
            BEncode::String(text) => {
                push_string(out, text.as_str().as_bytes());
            },
            BEncode::BinaryStr(bytes) => {
                push_string(out, bytes.as_slice());
            },
            _ => {
                assert(out@ =~= old(out)@ + Seq::<u8>::empty());
            },
        }
    }

    /// Goes on with a list of which `done` items were written: starts the
    /// next item and puts the list back among the containers that are being
    /// written, or appends the terminator where no item is left.
    pub fn encode_list<'a>(
        items: &'a Vec<BEncode>,
        done: usize,
        out: &mut Vec<u8>,
        open: &mut Vec<Cursor<'a>>,
    )
        ensures
            final(out)@ == old(out)@ + continued((Cursor::List { items, done })@),
            writing(final(open)@) == reopened(
                writing(old(open)@),
                (Cursor::List { items, done })@,
            ),
    {
        if done < items.len() {
            let back = Cursor::List { items, done: done + 1 };
            open.push(back);
            assert(writing(open@) =~= writing(old(open)@).push(back@));
            Self::encode_start(&items[done], out, open);
        } else {
            out.push(END_MARK);
        }
    }

    /// Goes on with a dictionary of which `done` entries were written:
    /// appends the key of the next entry, starts its value and puts the
    /// dictionary back among the containers that are being written, or
    /// appends the terminator where no entry is left.
    pub fn encode_dict<'a>(
        entries: &'a Dict,
        done: usize,
        out: &mut Vec<u8>,
        open: &mut Vec<Cursor<'a>>,
    )
        ensures
            final(out)@ == old(out)@ + continued((Cursor::Dict { entries, done })@),
            writing(final(open)@) == reopened(
                writing(old(open)@),
                (Cursor::Dict { entries, done })@,
            ),
    {
        let next = if done < entries.len() {
            entries.entry(done)
        } else {
            None
        };
        match next {
            Some((key, item)) => {
                let back = Cursor::Dict { entries, done: done + 1 };
                open.push(back);
                assert(writing(open@) =~= writing(old(open)@).push(back@));
                push_string(out, key.as_str().as_bytes());
                Self::encode_start(item, out, open);
                assert(out@ =~= old(out)@ + continued((Cursor::Dict { entries, done })@));
            },
            None => {
                out.push(END_MARK);
            },
        }
    }
}

} // verus!

//! The law that ties the encoder to the parser: what was encoded is parsed
//! back to the same value.

use crate::digits::{
    decimal, is_digit, lemma_decimal_shape, lemma_decimal_value, lemma_digit_run_found,
};
use crate::encode::{
    entries_encoding, integer_encoding, items_encoding, lemma_encoding_lead,
    lemma_string_encoding_lead, string_encoding,
};
use crate::error::Fault;
use crate::grammar::{
    classified, dict_rest, document, integer, list_rest, string, value,
};
use crate::marks::{COLON, DICT_MARK, END_MARK, INT_MARK, LIST_MARK, MINUS};
use crate::order::{inserted, key_before, lemma_inserted_last, sorted};
use crate::text::lemma_text_of_bytes;
use crate::value::Value;
use crate::wellformed::lemma_document_wf;
use vstd::prelude::*;
use vstd::utf8::encode_utf8;

verus! {

/// The bytes `piece` stand in `input` at the offset `pos`.
pub open spec fn stands_at(input: Seq<u8>, pos: int, piece: Seq<u8>) -> bool {
    0 <= pos && pos + piece.len() <= input.len() && input.subrange(pos, pos + piece.len())
        == piece
}

/// Two pieces stand one behind the other where their concatenation stands.
pub proof fn lemma_stands_at_parts(input: Seq<u8>, pos: int, head: Seq<u8>, tail: Seq<u8>)
    requires
        stands_at(input, pos, head + tail),
    ensures
        stands_at(input, pos, head),
        stands_at(input, pos + head.len(), tail),
{
    let whole = head + tail;
    let found = input.subrange(pos, pos + whole.len());
    assert(input.subrange(pos, pos + head.len()) =~= found.subrange(0, head.len() as int));
    assert(whole.subrange(0, head.len() as int) =~= head);
    assert(input.subrange(pos + head.len(), pos + head.len() + tail.len()) =~= found.subrange(
        head.len() as int,
        whole.len() as int,
    ));
    assert(whole.subrange(head.len() as int, whole.len() as int) =~= tail);
}

/// Where a piece stands, each of its bytes stands.
pub proof fn lemma_stands_at_byte(input: Seq<u8>, pos: int, piece: Seq<u8>, i: int)
    requires
        stands_at(input, pos, piece),
        0 <= i < piece.len(),
    ensures
        input[pos + i] == piece[i],
{
    assert(input.subrange(pos, pos + piece.len())[i] == input[pos + i]);
}

/// An integer that was encoded is read back.
pub proof fn lemma_integer_of_encoding(input: Seq<u8>, pos: int, n: int)
    requires
        i64::MIN <= n <= i64::MAX,
        stands_at(input, pos, integer_encoding(n)),
    ensures
        input[pos] == INT_MARK,
        integer(input, pos) == Ok::<(Value, int), Fault>(
            (Value::Int(n), pos + integer_encoding(n).len()),
        ),
{
    let magnitude: nat = if n < 0 {
        (-n) as nat
    } else {
        n as nat
    };
    let digits = decimal(magnitude);
    let head = if n < 0 {
        seq![INT_MARK, MINUS]
    } else {
        seq![INT_MARK]
    };
    let first = pos + head.len();
    lemma_decimal_shape(magnitude);
    lemma_decimal_value(magnitude);
    assert(integer_encoding(n) == head + digits + seq![END_MARK]);
    lemma_stands_at_parts(input, pos, head + digits, seq![END_MARK]);
    lemma_stands_at_parts(input, pos, head, digits);
    lemma_stands_at_byte(input, pos, head, 0);
    if n < 0 {
        lemma_stands_at_byte(input, pos, head, 1);
    } else {
        lemma_stands_at_byte(input, first, digits, 0);
    }
    lemma_stands_at_byte(input, first + digits.len(), seq![END_MARK], 0);
    assert forall|i: int| first <= i < first + digits.len() implies is_digit(
        #[trigger] input[i],
    ) by {
        lemma_stands_at_byte(input, first, digits, i - first);
    }
    lemma_digit_run_found(input, first, digits.len() as int);
}

/// A string that was encoded is read back, and classified by its bytes.
pub proof fn lemma_string_of_encoding(input: Seq<u8>, pos: int, payload: Seq<u8>, hex: bool)
    requires
        stands_at(input, pos, string_encoding(payload)),
    ensures
        is_digit(input[pos]),
        string(input, pos, hex) == Ok::<(Value, int), Fault>(
            (classified(payload, hex), pos + string_encoding(payload).len()),
        ),
{
    let digits = decimal(payload.len());
    lemma_decimal_shape(payload.len());
    lemma_decimal_value(payload.len());
    lemma_stands_at_parts(input, pos, digits + seq![COLON], payload);
    lemma_stands_at_parts(input, pos, digits, seq![COLON]);
    lemma_stands_at_byte(input, pos, digits, 0);
    lemma_stands_at_byte(input, pos + digits.len(), seq![COLON], 0);
    assert forall|i: int| pos <= i < pos + digits.len() implies is_digit(#[trigger] input[i]) by {
        lemma_stands_at_byte(input, pos, digits, i - pos);
    }
    lemma_digit_run_found(input, pos, digits.len() as int);
}

/// The encoding of the first items of a list is the start of the encoding
/// of more of them.
pub proof fn lemma_items_encoding_grows(items: Seq<Value>, count: nat, more: nat)
    requires
        count <= more <= items.len(),
    ensures
        items_encoding(items, count).len() <= items_encoding(items, more).len(),
        items_encoding(items, more).subrange(0, items_encoding(items, count).len() as int)
            == items_encoding(items, count),
    decreases more,
{
    if count < more {
        lemma_items_encoding_grows(items, count, (more - 1) as nat);
        let shorter = items_encoding(items, (more - 1) as nat);
        let longer = items_encoding(items, more);
        let cut = items_encoding(items, count).len() as int;
        assert(longer.subrange(0, cut) =~= shorter.subrange(0, cut));
    } else {
        assert(items_encoding(items, more).subrange(0, items_encoding(items, count).len() as int)
            =~= items_encoding(items, count));
    }
}

/// The encoding of the first entries of a dictionary is the start of the
/// encoding of more of them.
pub proof fn lemma_entries_encoding_grows(
    entries: Seq<(Seq<char>, Value)>,
    count: nat,
    more: nat,
)
    requires
        count <= more <= entries.len(),
    ensures
        entries_encoding(entries, count).len() <= entries_encoding(entries, more).len(),
        entries_encoding(entries, more).subrange(
            0,
            entries_encoding(entries, count).len() as int,
        ) == entries_encoding(entries, count),
    decreases more,
{
    if count < more {
        lemma_entries_encoding_grows(entries, count, (more - 1) as nat);
        let shorter = entries_encoding(entries, (more - 1) as nat);
        let longer = entries_encoding(entries, more);
        let cut = entries_encoding(entries, count).len() as int;
        assert(longer.subrange(0, cut) =~= shorter.subrange(0, cut));
    } else {
        assert(entries_encoding(entries, more).subrange(
            0,
            entries_encoding(entries, count).len() as int,
        ) =~= entries_encoding(entries, count));
    }
}

/// Where the encodings of `more` items stand at `base`, the item at
/// `count` stands behind the encodings of those before it.
proof fn lemma_item_stands(input: Seq<u8>, base: int, items: Seq<Value>, count: nat)
    requires
        count < items.len(),
        stands_at(input, base, items_encoding(items, items.len())),
    ensures
        stands_at(
            input,
            base + items_encoding(items, count).len(),
            items[count as int].encoding(),
        ),
        items_encoding(items, count + 1) == items_encoding(items, count)
            + items[count as int].encoding(),
        items_encoding(items, count + 1).len() <= items_encoding(items, items.len()).len(),
{
    let all = items_encoding(items, items.len());
    let upto = items_encoding(items, count + 1);
    lemma_items_encoding_grows(items, count + 1, items.len());
    assert(all =~= upto + all.subrange(upto.len() as int, all.len() as int));
    lemma_stands_at_parts(input, base, upto, all.subrange(upto.len() as int, all.len() as int));
    lemma_stands_at_parts(
        input,
        base,
        items_encoding(items, count),
        items[count as int].encoding(),
    );
}

/// Where the encodings of the entries stand at `base`, the key of the entry
/// at `count` stands behind the encodings of those before it, and its value
/// behind the key.
proof fn lemma_entry_stands(
    input: Seq<u8>,
    base: int,
    entries: Seq<(Seq<char>, Value)>,
    count: nat,
)
    requires
        count < entries.len(),
        stands_at(input, base, entries_encoding(entries, entries.len())),
    ensures
        stands_at(
            input,
            base + entries_encoding(entries, count).len(),
            string_encoding(encode_utf8(entries[count as int].0)),
        ),
        stands_at(
            input,
            base + entries_encoding(entries, count).len() + string_encoding(
                encode_utf8(entries[count as int].0),
            ).len(),
            entries[count as int].1.encoding(),
        ),
        entries_encoding(entries, count + 1).len() == entries_encoding(entries, count).len()
            + string_encoding(encode_utf8(entries[count as int].0)).len()
            + entries[count as int].1.encoding().len(),
        entries_encoding(entries, count + 1).len() <= entries_encoding(
            entries,
            entries.len(),
        ).len(),
{
    let all = entries_encoding(entries, entries.len());
    let upto = entries_encoding(entries, count + 1);
    let key = string_encoding(encode_utf8(entries[count as int].0));
    lemma_entries_encoding_grows(entries, count + 1, entries.len());
    assert(all =~= upto + all.subrange(upto.len() as int, all.len() as int));
    lemma_stands_at_parts(input, base, upto, all.subrange(upto.len() as int, all.len() as int));
    lemma_stands_at_parts(
        input,
        base,
        entries_encoding(entries, count) + key,
        entries[count as int].1.encoding(),
    );
    lemma_stands_at_parts(input, base, entries_encoding(entries, count), key);
}

/// A value whose encoding stands at `pos` is read there, up to the end of
/// the encoding.
pub proof fn lemma_value_of_encoding(input: Seq<u8>, pos: int, v: Value)
    requires
        v.wf(),
        stands_at(input, pos, v.encoding()),
    ensures
        value(input, pos, false) == Ok::<(Value, int), Fault>((v, pos + v.encoding().len())),
    decreases v, 0nat,
{
    lemma_encoding_lead(v);
    lemma_stands_at_byte(input, pos, v.encoding(), 0);
    match v {
        Value::Int(n) => {
            lemma_integer_of_encoding(input, pos, n);
        },
        Value::Text(text) => {
            lemma_string_of_encoding(input, pos, encode_utf8(text), false);
            lemma_text_of_bytes(text, encode_utf8(text));
        },
        Value::Bytes(bytes) => {
            lemma_string_of_encoding(input, pos, bytes, false);
        },
        Value::List(items) => {
            let body = items_encoding(items, items.len());
            lemma_stands_at_parts(input, pos, seq![LIST_MARK] + body, seq![END_MARK]);
            lemma_stands_at_parts(input, pos, seq![LIST_MARK], body);
            lemma_stands_at_byte(input, pos + 1 + body.len(), seq![END_MARK], 0);
            assert(items.take(0) =~= Seq::empty());
            lemma_list_rest_of_encoding(input, pos + 1, items, 0);
        },
        Value::Dict(entries) => {
            let body = entries_encoding(entries, entries.len());
            lemma_stands_at_parts(input, pos, seq![DICT_MARK] + body, seq![END_MARK]);
            lemma_stands_at_parts(input, pos, seq![DICT_MARK], body);
            lemma_stands_at_byte(input, pos + 1 + body.len(), seq![END_MARK], 0);
            assert(entries.take(0) =~= Seq::empty());
            lemma_dict_rest_of_encoding(input, pos + 1, entries, 0);
        },
    }
}

/// Where the encoded items of a list stand at `base` with a terminator
/// behind them and the first `count` were read, the rest is read to the
/// terminator and the list is the one that was encoded.
pub proof fn lemma_list_rest_of_encoding(
    input: Seq<u8>,
    base: int,
    items: Seq<Value>,
    count: nat,
)
    requires
        count <= items.len(),
        forall|i: int| 0 <= i < items.len() ==> (#[trigger] items[i]).wf(),
        stands_at(input, base, items_encoding(items, items.len())),
        base + items_encoding(items, items.len()).len() < input.len(),
        input[base + items_encoding(items, items.len()).len()] == END_MARK,
    ensures
        list_rest(input, base + items_encoding(items, count).len(), false, items.take(count as int))
            == Ok::<(Value, int), Fault>(
            (Value::List(items), base + items_encoding(items, items.len()).len() + 1),
        ),
    decreases items, items.len() - count,
{
    let at = base + items_encoding(items, count).len();
    if count == items.len() {
        assert(items.take(count as int) =~= items);
    } else {
        let item = items[count as int];
        lemma_item_stands(input, base, items, count);
        lemma_encoding_lead(item);
        lemma_stands_at_byte(input, at, item.encoding(), 0);
        lemma_value_of_encoding(input, at, item);
        assert(items.take(count as int).push(item) =~= items.take((count + 1) as int));
        lemma_list_rest_of_encoding(input, base, items, count + 1);
    }
}

/// Where the encoded entries of a dictionary stand at `base` with a
/// terminator behind them and the first `count` were read, the rest is
/// read to the terminator and the dictionary is the one that was encoded.
pub proof fn lemma_dict_rest_of_encoding(
    input: Seq<u8>,
    base: int,
    entries: Seq<(Seq<char>, Value)>,
    count: nat,
)
    requires
        count <= entries.len(),
        sorted(entries),
        forall|i: int| 0 <= i < entries.len() ==> (#[trigger] entries[i]).1.wf(),
        stands_at(input, base, entries_encoding(entries, entries.len())),
        base + entries_encoding(entries, entries.len()).len() < input.len(),
        input[base + entries_encoding(entries, entries.len()).len()] == END_MARK,
    ensures
        dict_rest(
            input,
            base + entries_encoding(entries, count).len(),
            false,
            entries.take(count as int),
        ) == Ok::<(Value, int), Fault>(
            (Value::Dict(entries), base + entries_encoding(entries, entries.len()).len() + 1),
        ),
    decreases entries, entries.len() - count,
{
    let at = base + entries_encoding(entries, count).len();
    if count == entries.len() {
        assert(entries.take(count as int) =~= entries);
    } else {
        let key = entries[count as int].0;
        let item = entries[count as int].1;
        let after_key = at + string_encoding(encode_utf8(key)).len();
        lemma_entry_stands(input, base, entries, count);
        lemma_string_encoding_lead(encode_utf8(key));
        lemma_string_of_encoding(input, at, encode_utf8(key), false);
        lemma_text_of_bytes(key, encode_utf8(key));
        lemma_encoding_lead(item);
        lemma_value_of_encoding(input, after_key, item);
        let read = entries.take(count as int);
        assert forall|i: int| 0 <= i < read.len() implies key_before(
            (#[trigger] read[i]).0,
            key,
        ) by {
            assert(read[i] == entries[i]);
        }
        lemma_inserted_last(read, key, item);
        assert(read.push((key, item)) =~= entries.take((count + 1) as int));
        lemma_dict_rest_of_encoding(input, base, entries, count + 1);
        let next = after_key + item.encoding().len();
        assert(value(input, at, false) == string(input, at, false));
        assert(dict_rest(input, at, false, read) == dict_rest(
            input,
            next,
            false,
            inserted(read, key, item),
        ));
    }
}

/// Parsing what was encoded gives the value back: for every well-formed
/// value, the encoding is a document that denotes this value, whatever
/// bytes follow it. The options are the default ones: with hex rendering,
/// bytes would come back as a text.
pub proof fn lemma_round_trip(v: Value, rest: Seq<u8>)
    requires
        v.wf(),
    ensures
        document(v.encoding() + rest, false) == Ok::<Value, Fault>(v),
{
    let input = v.encoding() + rest;
    assert(input.subrange(0, v.encoding().len() as int) =~= v.encoding());
    lemma_value_of_encoding(input, 0, v);
}

/// The encoding is canonical: two well-formed values with the same
/// encoding are the same value.
pub proof fn lemma_encoding_injective(one: Value, other: Value)
    requires
        one.wf(),
        other.wf(),
        one.encoding() == other.encoding(),
    ensures
        one == other,
{
    lemma_round_trip(one, Seq::empty());
    lemma_round_trip(other, Seq::empty());
}

/// Encoding and parsing again changes nothing, however often it is done:
/// a document that was parsed, with whatever options, is the document that
/// its own encoding denotes. So the bytes of the encoding, and every digest
/// of them, stay the same from one round to the next.
pub proof fn lemma_reparse_stable(input: Seq<u8>, hex: bool, rest: Seq<u8>)
    requires
        document(input, hex) is Ok,
    ensures
        document(document(input, hex)->Ok_0.encoding() + rest, false) == document(input, hex),
{
    lemma_document_wf(input, hex);
    lemma_round_trip(document(input, hex)->Ok_0, rest);
}

} // verus!

//! The law that every document that is parsed is well-formed.

use crate::digits::is_digit;
use crate::grammar::{classified, dict_rest, document, list_rest, value};
use crate::marks::{DICT_MARK, END_MARK, INT_MARK, LIST_MARK};
use crate::order::{inserted, lemma_inserted_sorted, lemma_slot_from, slot};
use crate::value::{lemma_dict_wf, lemma_list_wf, Value};
use vstd::prelude::*;
use vstd::utf8::valid_utf8;

verus! {

/// Storing a well-formed value in a well-formed dictionary leaves the
/// dictionary well-formed.
pub proof fn lemma_inserted_wf(entries: Seq<(Seq<char>, Value)>, key: Seq<char>, item: Value)
    requires
        Value::Dict(entries).wf(),
        item.wf(),
    ensures
        Value::Dict(inserted(entries, key, item)).wf(),
{
    let after = inserted(entries, key, item);
    let at = slot(entries, key);
    lemma_dict_wf(entries);
    lemma_dict_wf(after);
    lemma_slot_from(entries, key, 0);
    lemma_inserted_sorted(entries, key, item);
    assert forall|i: int| 0 <= i < after.len() implies (#[trigger] after[i]).1.wf() by {
        if i < at {
            assert(after[i] == entries[i]);
        } else if i > at {
            if after.len() == entries.len() {
                assert(after[i] == entries[i]);
            } else {
                assert(after[i] == entries[i - 1]);
            }
        }
    }
}

/// Whatever a string's bytes become is well-formed, and it is a `Bytes`
/// exactly where the bytes are not valid UTF-8 and hex rendering is off.
pub proof fn lemma_classified_wf(payload: Seq<u8>, hex: bool)
    ensures
        classified(payload, hex).wf(),
        classified(payload, hex) is Bytes <==> !valid_utf8(payload) && !hex,
        classified(payload, hex) is Bytes ==> classified(payload, hex) == Value::Bytes(payload),
{
}

/// Every value that is read is well-formed.
pub proof fn lemma_value_wf(input: Seq<u8>, pos: int, hex: bool)
    ensures
        value(input, pos, hex) matches Ok((v, _)) ==> v.wf(),
    decreases input.len() - pos, 0nat,
{
    if 0 <= pos < input.len() {
        if input[pos] == INT_MARK {
        } else if is_digit(input[pos]) {
        } else if input[pos] == LIST_MARK {
            lemma_list_wf(Seq::empty());
            lemma_list_rest_wf(input, pos + 1, hex, Seq::empty());
        } else if input[pos] == DICT_MARK {
            lemma_dict_wf(Seq::empty());
            lemma_dict_rest_wf(input, pos + 1, hex, Seq::empty());
        }
    }
}

/// A list that is read to its end is well-formed where the items read
/// before were.
pub proof fn lemma_list_rest_wf(input: Seq<u8>, pos: int, hex: bool, items: Seq<Value>)
    requires
        Value::List(items).wf(),
    ensures
        list_rest(input, pos, hex, items) matches Ok((v, _)) ==> v.wf(),
    decreases input.len() - pos, 1nat,
{
    lemma_list_wf(items);
    if 0 <= pos < input.len() && input[pos] != END_MARK {
        lemma_value_wf(input, pos, hex);
        if let Ok((item, next)) = value(input, pos, hex) {
            if pos < next <= input.len() {
                let longer = items.push(item);
                assert forall|i: int| 0 <= i < longer.len() implies (#[trigger] longer[i]).wf() by {
                    if i < items.len() {
                        assert(longer[i] == items[i]);
                    }
                }
                lemma_list_wf(longer);
                lemma_list_rest_wf(input, next, hex, longer);
            }
        }
    }
}

/// A dictionary that is read to its end is well-formed where the entries
/// read before were.
pub proof fn lemma_dict_rest_wf(
    input: Seq<u8>,
    pos: int,
    hex: bool,
    entries: Seq<(Seq<char>, Value)>,
)
    requires
        Value::Dict(entries).wf(),
    ensures
        dict_rest(input, pos, hex, entries) matches Ok((v, _)) ==> v.wf(),
    decreases input.len() - pos, 1nat,
{
    if 0 <= pos < input.len() && input[pos] != END_MARK {
        if let Ok((Value::Text(key), after_key)) = value(input, pos, hex) {
            if pos < after_key <= input.len() {
                lemma_value_wf(input, after_key, hex);
                if let Ok((item, next)) = value(input, after_key, hex) {
                    if after_key < next <= input.len() {
                        lemma_inserted_wf(entries, key, item);
                        lemma_dict_rest_wf(input, next, hex, inserted(entries, key, item));
                    }
                }
            }
        }
    }
}

/// Every document that is parsed is well-formed: its integers fit in 64
/// bits, none of its byte strings is valid UTF-8 unless it is a text, and
/// each of its dictionaries holds its keys in strictly ascending byte
/// order, whatever their order in the input.
pub proof fn lemma_document_wf(input: Seq<u8>, hex: bool)
    ensures
        document(input, hex) matches Ok(v) ==> v.wf(),
{
    lemma_value_wf(input, 0, hex);
}

} // verus!

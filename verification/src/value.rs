//! The value model: a decoded document, its dictionaries and their
//! mathematical views.

use crate::order::{
    inserted, key_before, lemma_index_from, lemma_inserted_sorted, lemma_key_order_total,
    lemma_key_order_transitive, lemma_slot_found, lemma_slot_parts, lookup, place_of, slot,
    sorted, Place,
};
use vstd::prelude::*;
use vstd::utf8::valid_utf8;

verus! {

/// A document as a mathematical value. A dictionary is the sequence of its
/// entries in the order in which they are stored and written.
pub enum Value {
    /// A whole number.
    Int(int),
    /// A byte string that is valid UTF-8, as the text that it encodes.
    Text(Seq<char>),
    /// A byte string that is not valid UTF-8.
    Bytes(Seq<u8>),
    /// The items of a list, in their order.
    List(Seq<Value>),
    /// The entries of a dictionary, each a key and its value.
    Dict(Seq<(Seq<char>, Value)>),
}

impl Value {
    /// The value is one that a document can hold: every integer fits in 64
    /// bits, no `Bytes` is valid UTF-8 (it would be a `Text`), and every
    /// dictionary holds its keys in strictly ascending byte order.
    pub open spec fn wf(self) -> bool
        decreases self,
    {
        match self {
            Value::Int(n) => i64::MIN <= n <= i64::MAX,
            Value::Text(_) => true,
            Value::Bytes(bytes) => !valid_utf8(bytes),
            Value::List(items) => forall|i: int|
                0 <= i < items.len() ==> (#[trigger] items[i]).wf(),
            Value::Dict(entries) => sorted(entries) && forall|i: int|
                0 <= i < entries.len() ==> (#[trigger] entries[i]).1.wf(),
        }
    }
}

/// A list is well-formed exactly where each of its items is.
pub proof fn lemma_list_wf(items: Seq<Value>)
    ensures
        Value::List(items).wf() <==> forall|i: int|
            0 <= i < items.len() ==> (#[trigger] items[i]).wf(),
{
    let list = Value::List(items);
    assert(list->List_0 == items);
}

/// A dictionary is well-formed exactly where its keys ascend and each of
/// its values is well-formed.
pub proof fn lemma_dict_wf(entries: Seq<(Seq<char>, Value)>)
    ensures
        Value::Dict(entries).wf() <==> sorted(entries) && forall|i: int|
            0 <= i < entries.len() ==> (#[trigger] entries[i]).1.wf(),
{
    let dict = Value::Dict(entries);
    assert(dict->Dict_0 == entries);
}

/// A dictionary: values under text keys. No key occurs twice, and the
/// entries are held in ascending byte order of their keys, which is the
/// order in which they are written.
#[derive(Debug, PartialEq)]
pub struct Dict {
    entries: Vec<(String, BEncode)>,
}

/// A decoded document.
#[derive(Debug, PartialEq)]
pub enum BEncode {
    /// An integer.
    Int(i64),
    /// A byte string that is valid UTF-8.
    String(String),
    /// A list, which can hold values of every kind.
    List(Vec<BEncode>),
    /// A dictionary from text keys to values of every kind.
    Dictionary(Dict),
    /// A byte string that is not valid UTF-8, such as a block of packed
    /// hashes. It is never read as text.
    BinaryStr(Vec<u8>),
}

impl View for BEncode {
    type V = Value;

    open spec fn view(&self) -> Value
        decreases self,
    {
        match self {
            BEncode::Int(n) => Value::Int(*n as int),
            BEncode::String(text) => Value::Text(text@),
            BEncode::List(items) => Value::List(
                Seq::new(
                    items.len() as nat,
                    |i: int|
                        if 0 <= i < items.len() {
                            items[i]@
                        } else {
                            Value::Int(0)
                        },
                ),
            ),
            BEncode::Dictionary(dict) => Value::Dict(dict@),
            BEncode::BinaryStr(bytes) => Value::Bytes(bytes@),
        }
    }
}

impl View for Dict {
    type V = Seq<(Seq<char>, Value)>;

    closed spec fn view(&self) -> Seq<(Seq<char>, Value)>
        decreases self,
    {
        entries_view(self.entries)
    }
}

/// The entries of a vector as mathematical values.
spec fn entries_view(entries: Vec<(String, BEncode)>) -> Seq<(Seq<char>, Value)>
    decreases entries,
{
    Seq::new(
        entries.len() as nat,
        |i: int|
            if 0 <= i < entries.len() {
                (entries[i].0@, entries[i].1@)
            } else {
                (Seq::empty(), Value::Int(0))
            },
    )
}

impl Dict {
    /// What holds of every dictionary: its keys are in strictly ascending
    /// byte order.
    #[verifier::type_invariant]
    spec fn ascending(self) -> bool {
        sorted(self@)
    }

    /// A dictionary without entries.
    pub fn new() -> (dict: Dict)
        ensures
            dict@ == Seq::<(Seq<char>, Value)>::empty(),
            sorted(dict@),
    {
        let entries: Vec<(String, BEncode)> = Vec::new();
        assert(entries_view(entries) =~= Seq::<(Seq<char>, Value)>::empty());
        Dict { entries }
    }

    /// The number of entries, which are in strictly ascending byte order of
    /// their keys.
    pub fn len(&self) -> (count: usize)
        ensures
            count == self@.len(),
            sorted(self@),
    {
        proof {
            use_type_invariant(self);
        }
        self.entries.len()
    }

    /// The entry at `index` in ascending byte order of the keys, which is
    /// the order in which the entries are written.
    pub fn entry(&self, index: usize) -> (entry: Option<(&String, &BEncode)>)
        ensures
            index >= self@.len() ==> entry is None,
            index < self@.len() ==> entry is Some,
            entry matches Some(pair) ==> pair.0@ == self@[index as int].0 && pair.1@
                == self@[index as int].1 && decreases_to!(self => pair.1),
    {
        if index < self.entries.len() {
            Some((&self.entries[index].0, &self.entries[index].1))
        } else {
            None
        }
    }

    /// Looks for `key` among the entries: the index at which it stands, or
    /// else the one at which it belongs.
    fn find(&self, key: &str) -> (found: (bool, usize))
        ensures
            found.1 == slot(self@, key@),
            found.1 <= self@.len(),
            found.0 <==> found.1 < self@.len() && self@[found.1 as int].0 == key@,
            sorted(self@),
    {
        proof {
            use_type_invariant(self);
        }
        let ghost entries = self@;
        let mut low: usize = 0;
        let mut high: usize = self.entries.len();
        while low < high
            invariant
                low <= high <= entries.len(),
                entries == self@,
                sorted(entries),
                forall|i: int| 0 <= i < low ==> key_before((#[trigger] entries[i]).0, key@),
                forall|i: int|
                    high <= i < entries.len() ==> key_before(key@, (#[trigger] entries[i]).0),
            decreases high - low,
        {
            let mid = low + (high - low) / 2;
            let ghost here = entries[mid as int].0;
            match place_of(self.entries[mid].0.as_str().as_bytes(), key.as_bytes()) {
                Place::Before => {
                    assert forall|i: int| 0 <= i < mid + 1 implies key_before(
                        (#[trigger] entries[i]).0,
                        key@,
                    ) by {
                        if i < mid {
                            lemma_key_order_transitive(entries[i].0, here, key@);
                        }
                    }
                    low = mid + 1;
                },
                Place::After => {
                    assert forall|i: int| mid <= i < entries.len() implies key_before(
                        key@,
                        (#[trigger] entries[i]).0,
                    ) by {
                        if mid < i {
                            lemma_key_order_transitive(key@, here, entries[i].0);
                        }
                    }
                    high = mid;
                },
                Place::Same => {
                    proof {
                        vstd::utf8::encode_utf8_decode_utf8(key@);
                        vstd::utf8::encode_utf8_decode_utf8(here);
                        lemma_key_order_total(here, key@);
                        lemma_slot_found(entries, key@, mid as int);
                    }
                    return (true, mid);
                },
            }
        }
        proof {
            if low < entries.len() {
                lemma_key_order_total(key@, entries[low as int].0);
            }
            lemma_slot_found(entries, key@, low as int);
        }
        (false, low)
    }

    /// Stores `value` under `key`: in place of the value that `key` had, or
    /// else at the place that keeps the keys in ascending byte order.
    pub fn insert(&mut self, key: String, value: BEncode)
        ensures
            final(self)@ == inserted(old(self)@, key@, value@),
            sorted(final(self)@),
    {
        let ghost before = self@;
        let (found, at) = self.find(key.as_str());
        let mut entries: Vec<(String, BEncode)> = Vec::new();
        assert(entries_view(entries) =~= Seq::empty());
        core::mem::swap(&mut self.entries, &mut entries);
        if found {
            entries.set(at, (key, value));
        } else {
            entries.insert(at, (key, value));
        }
        proof {
            assert(entries_view(entries) =~= inserted(before, key@, value@));
            lemma_inserted_sorted(before, key@, value@);
        }
        self.entries = entries;
    }

    /// The value stored under `key`, if there is one.
    pub fn get(&self, key: &str) -> (value: Option<&BEncode>)
        ensures
            match value {
                Some(found) => lookup(self@, key@) == Some(found@),
                None => lookup(self@, key@) is None,
            },
    {
        let (found, at) = self.find(key);
        proof {
            lemma_slot_parts(self@, key@);
            lemma_index_from(self@, key@, 0);
            lemma_key_order_total(key@, key@);
        }
        if found {
            Some(&self.entries[at].1)
        } else {
            None
        }
    }
}

} // verus!

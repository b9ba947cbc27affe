//! The order of dictionary keys: by the raw bytes of their UTF-8 encoding.

use vstd::prelude::*;
use vstd::utf8::encode_utf8;

verus! {

/// `a` is before `b` in byte order, given that the two agree below `at`.
pub open spec fn bytes_before_from(a: Seq<u8>, b: Seq<u8>, at: int) -> bool
    decreases a.len() - at,
{
    if at < 0 || at >= b.len() {
        false
    } else if at >= a.len() {
        true
    } else if a[at] != b[at] {
        a[at] < b[at]
    } else {
        bytes_before_from(a, b, at + 1)
    }
}

/// `a` is before `b` in byte order: at the first index where the two differ
/// `a` has the smaller byte, or `a` is a proper prefix of `b`.
pub open spec fn bytes_before(a: Seq<u8>, b: Seq<u8>) -> bool {
    bytes_before_from(a, b, 0)
}

/// The key `a` is before the key `b`: its UTF-8 encoding is before that of
/// `b` in byte order.
pub open spec fn key_before(a: Seq<char>, b: Seq<char>) -> bool {
    bytes_before(encode_utf8(a), encode_utf8(b))
}

/// How one sequence of bytes stands to another in byte order.
#[derive(Clone, Copy, Debug, PartialEq, Eq, Structural)]
pub enum Place {
    Before,
    Same,
    After,
}

proof fn lemma_bytes_place_from(a: Seq<u8>, b: Seq<u8>, at: int)
    requires
        0 <= at <= a.len(),
        at <= b.len(),
        a.subrange(0, at) == b.subrange(0, at),
    ensures
        bytes_before_from(a, b, at) || bytes_before_from(b, a, at) || a == b,
        !(bytes_before_from(a, b, at) && bytes_before_from(b, a, at)),
        a == b ==> !bytes_before_from(a, b, at),
    decreases a.len() - at,
{
    if at < a.len() && at < b.len() && a[at] == b[at] {
        assert(a.subrange(0, at + 1) =~= a.subrange(0, at).push(a[at]));
        assert(b.subrange(0, at + 1) =~= b.subrange(0, at).push(b[at]));
        lemma_bytes_place_from(a, b, at + 1);
    } else if at == a.len() && at == b.len() {
        assert(a =~= a.subrange(0, at));
        assert(b =~= b.subrange(0, at));
    }
}

/// Byte order is total and strict: of two sequences one is before the other
/// or the two are equal, and no two of these hold together.
pub proof fn lemma_bytes_order_total(a: Seq<u8>, b: Seq<u8>)
    ensures
        bytes_before(a, b) || bytes_before(b, a) || a == b,
        !(bytes_before(a, b) && bytes_before(b, a)),
        a == b ==> !bytes_before(a, b),
{
    assert(a.subrange(0, 0) =~= b.subrange(0, 0));
    lemma_bytes_place_from(a, b, 0);
}

proof fn lemma_bytes_order_transitive_from(a: Seq<u8>, b: Seq<u8>, c: Seq<u8>, at: int)
    requires
        0 <= at,
        bytes_before_from(a, b, at),
        bytes_before_from(b, c, at),
    ensures
        bytes_before_from(a, c, at),
    decreases a.len() - at,
{
    if at < a.len() && a[at] == b[at] && b[at] == c[at] {
        lemma_bytes_order_transitive_from(a, b, c, at + 1);
    }
}

/// Byte order is transitive.
pub proof fn lemma_bytes_order_transitive(a: Seq<u8>, b: Seq<u8>, c: Seq<u8>)
    requires
        bytes_before(a, b),
        bytes_before(b, c),
    ensures
        bytes_before(a, c),
{
    lemma_bytes_order_transitive_from(a, b, c, 0);
}

/// Key order is total and strict, as byte order is: two keys with the same
/// encoding are the same key.
pub proof fn lemma_key_order_total(a: Seq<char>, b: Seq<char>)
    ensures
        key_before(a, b) || key_before(b, a) || a == b,
        !(key_before(a, b) && key_before(b, a)),
        a == b ==> !key_before(a, b),
{
    lemma_bytes_order_total(encode_utf8(a), encode_utf8(b));
    vstd::utf8::encode_utf8_decode_utf8(a);
    vstd::utf8::encode_utf8_decode_utf8(b);
}

/// Key order is transitive.
pub proof fn lemma_key_order_transitive(a: Seq<char>, b: Seq<char>, c: Seq<char>)
    requires
        key_before(a, b),
        key_before(b, c),
    ensures
        key_before(a, c),
{
    lemma_bytes_order_transitive(encode_utf8(a), encode_utf8(b), encode_utf8(c));
}

/// Compares two sequences of bytes in byte order.
pub fn place_of(a: &[u8], b: &[u8]) -> (place: Place)
    ensures
        place == Place::Before <==> bytes_before(a@, b@),
        place == Place::Same <==> a@ == b@,
        place == Place::After <==> bytes_before(b@, a@),
{
    proof {
        lemma_bytes_order_total(a@, b@);
    }
    let mut at: usize = 0;
    while at < a.len() && at < b.len()
        invariant
            at <= a.len(),
            at <= b.len(),
            bytes_before(a@, b@) == bytes_before_from(a@, b@, at as int),
            bytes_before(b@, a@) == bytes_before_from(b@, a@, at as int),
        decreases a.len() - at,
    {
        if a[at] < b[at] {
            return Place::Before;
        }
        if a[at] > b[at] {
            return Place::After;
        }
        at = at + 1;
    }
    if at < b.len() {
        Place::Before
    } else if at < a.len() {
        Place::After
    } else {
        Place::Same
    }
}

/// The entries hold their keys in strictly ascending key order, so that no
/// key occurs twice.
pub open spec fn sorted<V>(entries: Seq<(Seq<char>, V)>) -> bool {
    forall|i: int, j: int|
        0 <= i < j < entries.len() ==> key_before(
            (#[trigger] entries[i]).0,
            (#[trigger] entries[j]).0,
        )
}

/// The index of the first entry at or after `at` whose key is not before
/// `key`, or the number of entries.
pub open spec fn slot_from<V>(entries: Seq<(Seq<char>, V)>, key: Seq<char>, at: int) -> int
    decreases entries.len() - at,
{
    if 0 <= at < entries.len() && key_before(entries[at].0, key) {
        slot_from(entries, key, at + 1)
    } else {
        at
    }
}

/// Where `key` belongs among the entries: the index of the first entry
/// whose key is not before it.
pub open spec fn slot<V>(entries: Seq<(Seq<char>, V)>, key: Seq<char>) -> int {
    slot_from(entries, key, 0)
}

/// The entries after `value` was stored under `key`: in place of the value
/// that `key` had, or else at the place that keeps the keys ascending.
pub open spec fn inserted<V>(entries: Seq<(Seq<char>, V)>, key: Seq<char>, value: V) -> Seq<
    (Seq<char>, V),
> {
    let at = slot(entries, key);
    if at < entries.len() && entries[at].0 == key {
        entries.update(at, (key, value))
    } else {
        entries.insert(at, (key, value))
    }
}

/// The index of the first entry at or after `at` that has the key `key`, or
/// the number of entries.
pub open spec fn index_from<V>(entries: Seq<(Seq<char>, V)>, key: Seq<char>, at: int) -> int
    decreases entries.len() - at,
{
    if 0 <= at < entries.len() && entries[at].0 != key {
        index_from(entries, key, at + 1)
    } else {
        at
    }
}

/// The value stored under `key`, if there is one.
pub open spec fn lookup<V>(entries: Seq<(Seq<char>, V)>, key: Seq<char>) -> Option<V> {
    let at = index_from(entries, key, 0);
    if at < entries.len() {
        Some(entries[at].1)
    } else {
        None
    }
}

/// What `slot_from` returns: every entry from `at` to the slot has a key
/// before `key`, and the entry at the slot has not.
pub proof fn lemma_slot_from<V>(entries: Seq<(Seq<char>, V)>, key: Seq<char>, at: int)
    requires
        0 <= at <= entries.len(),
    ensures
        at <= slot_from(entries, key, at) <= entries.len(),
        forall|i: int|
            at <= i < slot_from(entries, key, at) ==> key_before((#[trigger] entries[i]).0, key),
        slot_from(entries, key, at) < entries.len() ==> !key_before(
            entries[slot_from(entries, key, at)].0,
            key,
        ),
    decreases entries.len() - at,
{
    if at < entries.len() && key_before(entries[at].0, key) {
        lemma_slot_from(entries, key, at + 1);
    }
}

/// In ascending entries the slot of `key` parts the keys before it from the
/// others.
pub proof fn lemma_slot_parts<V>(entries: Seq<(Seq<char>, V)>, key: Seq<char>)
    requires
        sorted(entries),
    ensures
        0 <= slot(entries, key) <= entries.len(),
        forall|i: int|
            0 <= i < slot(entries, key) ==> key_before((#[trigger] entries[i]).0, key),
        forall|i: int|
            slot(entries, key) <= i < entries.len() ==> !key_before(
                (#[trigger] entries[i]).0,
                key,
            ),
        forall|i: int|
            slot(entries, key) <= i < entries.len() && (#[trigger] entries[i]).0 != key
                ==> key_before(key, entries[i].0),
{
    lemma_slot_from(entries, key, 0);
    let at = slot(entries, key);
    assert forall|i: int| at <= i < entries.len() implies !key_before(
        (#[trigger] entries[i]).0,
        key,
    ) by {
        if at < i && key_before(entries[i].0, key) {
            lemma_key_order_transitive(entries[at].0, entries[i].0, key);
        }
    }
    assert forall|i: int|
        at <= i < entries.len() && (#[trigger] entries[i]).0 != key implies key_before(
        key,
        entries[i].0,
    ) by {
        lemma_key_order_total(entries[i].0, key);
    }
}

/// Storing a value keeps ascending entries ascending.
pub proof fn lemma_inserted_sorted<V>(entries: Seq<(Seq<char>, V)>, key: Seq<char>, value: V)
    requires
        sorted(entries),
    ensures
        sorted(inserted(entries, key, value)),
{
    lemma_slot_parts(entries, key);
    let at = slot(entries, key);
    let after = inserted(entries, key, value);
    if at < entries.len() && entries[at].0 == key {
        assert forall|i: int, j: int| 0 <= i < j < after.len() implies key_before(
            (#[trigger] after[i]).0,
            (#[trigger] after[j]).0,
        ) by {
            assert(after[i].0 == entries[i].0);
            assert(after[j].0 == entries[j].0);
        }
    } else {
        assert forall|i: int, j: int| 0 <= i < j < after.len() implies key_before(
            (#[trigger] after[i]).0,
            (#[trigger] after[j]).0,
        ) by {
            if j < at {
                assert(after[i] == entries[i] && after[j] == entries[j]);
            } else if j == at {
                assert(after[i] == entries[i]);
            } else if i < at {
                assert(after[i] == entries[i] && after[j] == entries[j - 1]);
            } else if i == at {
                assert(after[j] == entries[j - 1]);
            } else {
                assert(after[i] == entries[i - 1] && after[j] == entries[j - 1]);
            }
        }
    }
}

/// A key that is after every key of the entries goes to their end.
pub proof fn lemma_inserted_last<V>(entries: Seq<(Seq<char>, V)>, key: Seq<char>, value: V)
    requires
        forall|i: int| 0 <= i < entries.len() ==> key_before((#[trigger] entries[i]).0, key),
    ensures
        inserted(entries, key, value) == entries.push((key, value)),
{
    lemma_slot_from(entries, key, 0);
    assert(entries.insert(entries.len() as int, (key, value)) =~= entries.push((key, value)));
}

/// The slot of `key` is the one index that has keys before `key` below it
/// and none at it.
pub proof fn lemma_slot_found<V>(entries: Seq<(Seq<char>, V)>, key: Seq<char>, at: int)
    requires
        0 <= at <= entries.len(),
        forall|i: int| 0 <= i < at ==> key_before((#[trigger] entries[i]).0, key),
        at < entries.len() ==> !key_before(entries[at].0, key),
    ensures
        slot(entries, key) == at,
{
    lemma_slot_from(entries, key, 0);
}

proof fn lemma_inserted_in_turn<V>(
    entries: Seq<(Seq<char>, V)>,
    low: Seq<char>,
    low_value: V,
    high: Seq<char>,
    high_value: V,
)
    requires
        sorted(entries),
        key_before(low, high),
    ensures
        inserted(inserted(entries, low, low_value), high, high_value) == inserted(
            inserted(entries, high, high_value),
            low,
            low_value,
        ),
{
    let low_at = slot(entries, low);
    let high_at = slot(entries, high);
    let low_has = low_at < entries.len() && entries[low_at].0 == low;
    let high_has = high_at < entries.len() && entries[high_at].0 == high;
    let with_low = inserted(entries, low, low_value);
    let with_high = inserted(entries, high, high_value);
    lemma_slot_parts(entries, low);
    lemma_slot_parts(entries, high);
    lemma_key_order_total(low, high);
    assert forall|i: int| 0 <= i < low_at implies key_before((#[trigger] entries[i]).0, high) by {
        lemma_key_order_transitive(entries[i].0, low, high);
    }
    assert(low_at <= high_at);
    assert(low_has ==> low_at < high_at);
    if high_at < entries.len() {
        lemma_key_order_total(entries[high_at].0, low);
        if key_before(entries[high_at].0, low) {
            lemma_key_order_transitive(entries[high_at].0, low, high);
        }
    }
    let high_then = if low_has {
        high_at
    } else {
        high_at + 1
    };
    assert forall|i: int| 0 <= i < high_then implies key_before(
        (#[trigger] with_low[i]).0,
        high,
    ) by {
        if i < low_at {
            assert(with_low[i] == entries[i]);
        } else if i == low_at {
        } else if low_has {
            assert(with_low[i] == entries[i]);
        } else {
            assert(with_low[i] == entries[i - 1]);
        }
    }
    lemma_slot_found(with_low, high, high_then);
    assert forall|i: int| 0 <= i < low_at implies key_before(
        (#[trigger] with_high[i]).0,
        low,
    ) by {
        assert(with_high[i] == entries[i]);
    }
    lemma_slot_found(with_high, low, low_at);
    assert(inserted(with_low, high, high_value) =~= inserted(with_high, low, low_value));
}

/// The order in which two values are stored under two keys does not
/// matter: ascending entries end up the same either way.
pub proof fn lemma_inserted_commutes<V>(
    entries: Seq<(Seq<char>, V)>,
    one: Seq<char>,
    one_value: V,
    other: Seq<char>,
    other_value: V,
)
    requires
        sorted(entries),
        one != other,
    ensures
        inserted(inserted(entries, one, one_value), other, other_value) == inserted(
            inserted(entries, other, other_value),
            one,
            one_value,
        ),
{
    lemma_key_order_total(one, other);
    if key_before(one, other) {
        lemma_inserted_in_turn(entries, one, one_value, other, other_value);
    } else {
        lemma_inserted_in_turn(entries, other, other_value, one, one_value);
    }
}

/// A value that was stored under a key is the one found under it, and the
/// values under the other keys are found as before.
pub proof fn lemma_lookup_inserted<V>(
    entries: Seq<(Seq<char>, V)>,
    key: Seq<char>,
    value: V,
    asked: Seq<char>,
)
    requires
        sorted(entries),
    ensures
        lookup(inserted(entries, key, value), asked) == (if asked == key {
            Some(value)
        } else {
            lookup(entries, asked)
        }),
{
    let after = inserted(entries, key, value);
    let at = slot(entries, key);
    lemma_slot_parts(entries, key);
    lemma_inserted_sorted(entries, key, value);
    lemma_index_from(entries, asked, 0);
    lemma_index_from(after, asked, 0);
    let found = index_from(entries, asked, 0);
    let found_after = index_from(after, asked, 0);
    let replaced = at < entries.len() && entries[at].0 == key;
    lemma_key_order_total(key, key);
    if asked == key {
        assert(after[at].0 == key);
        if found_after < at {
            assert(after[found_after] == entries[found_after]);
        }
    } else {
        if found < entries.len() {
            let moved = if replaced || found < at {
                found
            } else {
                found + 1
            };
            assert(after[moved] == entries[found]);
            if found_after < moved {
                if found_after < at {
                    assert(after[found_after] == entries[found_after]);
                } else if found_after > at {
                    assert(after[found_after] == entries[if replaced {
                        found_after
                    } else {
                        found_after - 1
                    }]);
                }
            }
        } else {
            if found_after < after.len() {
                if found_after < at {
                    assert(after[found_after] == entries[found_after]);
                } else if found_after > at {
                    assert(after[found_after] == entries[if replaced {
                        found_after
                    } else {
                        found_after - 1
                    }]);
                }
            }
        }
    }
}

/// What `index_from` returns: no entry from `at` to the index has the key,
/// and the entry at the index has it.
pub proof fn lemma_index_from<V>(entries: Seq<(Seq<char>, V)>, key: Seq<char>, at: int)
    requires
        0 <= at <= entries.len(),
    ensures
        at <= index_from(entries, key, at) <= entries.len(),
        forall|i: int| at <= i < index_from(entries, key, at) ==> (#[trigger] entries[i]).0 != key,
        index_from(entries, key, at) < entries.len() ==> entries[index_from(entries, key, at)].0
            == key,
    decreases entries.len() - at,
{
    if at < entries.len() && entries[at].0 != key {
        lemma_index_from(entries, key, at + 1);
    }
}

} // verus!

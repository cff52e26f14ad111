//! Dictionaries: entries held in ascending order of their keys.

use crate::value::{
    bytes_eq, bytes_lt, dict_wf, entries_view, key_order, keys_ascending,
    lemma_bytes_lt_irreflexive, lemma_bytes_lt_total, lemma_bytes_lt_transitive,
    lemma_entries_view, Bencode, Datum, KeyOrder,
};
use vstd::prelude::*;
use vstd::string::StringSliceAdditionalSpecFns;

verus! {

/// The value of the first entry of `entries` whose key is `key`.
pub open spec fn entries_get(entries: Seq<(Seq<u8>, Datum)>, key: Seq<u8>) -> Option<Datum>
    decreases entries.len(),
{
    if entries.len() == 0 {
        None
    } else if entries[0].0 == key {
        Some(entries[0].1)
    } else {
        entries_get(entries.skip(1), key)
    }
}

/// The index of the first entry of `entries` whose key does not come before `key`,
/// or the number of entries if there is none.
pub open spec fn insert_position(entries: Seq<(Seq<u8>, Datum)>, key: Seq<u8>) -> int
    decreases entries.len(),
{
    if entries.len() == 0 || !bytes_lt(entries[0].0, key) {
        0
    } else {
        1 + insert_position(entries.skip(1), key)
    }
}

/// `entries` with `key` bound to `value`: in place of the entry that has the key, or
/// as a new entry where the order of keys puts it.
pub open spec fn entries_insert(entries: Seq<(Seq<u8>, Datum)>, key: Seq<u8>, value: Datum) -> Seq<
    (Seq<u8>, Datum),
> {
    let pos = insert_position(entries, key);
    if pos < entries.len() && entries[pos].0 == key {
        entries.update(pos, (key, value))
    } else {
        entries.insert(pos, (key, value))
    }
}

/// The insert position is known by two facts: every key before it comes
/// before `key`, and the key at it does not.
pub proof fn lemma_insert_position(entries: Seq<(Seq<u8>, Datum)>, key: Seq<u8>, pos: int)
    requires
        0 <= pos <= entries.len(),
        forall|i: int| 0 <= i < pos ==> bytes_lt(#[trigger] entries[i].0, key),
        pos < entries.len() ==> !bytes_lt(entries[pos].0, key),
    ensures
        insert_position(entries, key) == pos,
    decreases entries.len(),
{
    if pos > 0 {
        assert(bytes_lt(entries[0].0, key));
        let rest = entries.skip(1);
        assert forall|i: int| 0 <= i < pos - 1 implies bytes_lt(#[trigger] rest[i].0, key) by {
            assert(rest[i] == entries[i + 1]);
        }
        lemma_insert_position(rest, key, pos - 1);
    }
}

/// The insert position is within the entries, every key before it comes before
/// `key`, and the key at it does not.
pub proof fn lemma_insert_position_bounds(entries: Seq<(Seq<u8>, Datum)>, key: Seq<u8>)
    ensures
        0 <= insert_position(entries, key) <= entries.len(),
        forall|i: int|
            0 <= i < insert_position(entries, key) ==> bytes_lt(#[trigger] entries[i].0, key),
        insert_position(entries, key) < entries.len() ==> !bytes_lt(
            entries[insert_position(entries, key)].0,
            key,
        ),
    decreases entries.len(),
{
    if entries.len() > 0 && bytes_lt(entries[0].0, key) {
        let rest = entries.skip(1);
        lemma_insert_position_bounds(rest, key);
        let pos = insert_position(entries, key);
        assert forall|i: int| 0 <= i < pos implies bytes_lt(#[trigger] entries[i].0, key) by {
            if i > 0 {
                assert(rest[i - 1] == entries[i]);
            }
        }
        if pos < entries.len() {
            assert(rest[pos - 1] == entries[pos]);
        }
    }
}

/// Binding a key keeps the keys in ascending order.
pub proof fn lemma_insert_ascending(entries: Seq<(Seq<u8>, Datum)>, key: Seq<u8>, value: Datum)
    requires
        keys_ascending(entries),
    ensures
        keys_ascending(entries_insert(entries, key, value)),
{
    lemma_insert_position_bounds(entries, key);
    let pos = insert_position(entries, key);
    let out = entries_insert(entries, key, value);
    if pos < entries.len() && entries[pos].0 == key {
        assert forall|i: int, j: int| 0 <= i < j < out.len() implies bytes_lt(
            #[trigger] out[i].0,
            #[trigger] out[j].0,
        ) by {
            assert(out[i].0 == entries[i].0);
            assert(out[j].0 == entries[j].0);
        }
    } else {
        assert forall|i: int, j: int| 0 <= i < j < out.len() implies bytes_lt(
            #[trigger] out[i].0,
            #[trigger] out[j].0,
        ) by {
            if j < pos {
                assert(out[i] == entries[i] && out[j] == entries[j]);
            } else if j == pos {
                assert(out[i] == entries[i]);
            } else {
                // the entry at j was at j - 1, at or after the position
                assert(out[j] == entries[j - 1]);
                lemma_bytes_lt_total(key, entries[pos].0);
                if j - 1 > pos {
                    assert(bytes_lt(entries[pos].0, entries[j - 1].0));
                    lemma_bytes_lt_transitive(key, entries[pos].0, entries[j - 1].0);
                }
                if i < pos {
                    assert(out[i] == entries[i]);
                    lemma_bytes_lt_transitive(entries[i].0, key, entries[j - 1].0);
                } else if i > pos {
                    assert(out[i] == entries[i - 1]);
                }
            }
        }
    }
}

/// Binding a key to a well-formed value keeps a dictionary well formed.
pub proof fn lemma_insert_wf(entries: Seq<(Seq<u8>, Datum)>, key: Seq<u8>, value: Datum)
    requires
        dict_wf(entries),
        key.len() <= usize::MAX,
        value.wf(),
    ensures
        dict_wf(entries_insert(entries, key, value)),
{
    lemma_insert_ascending(entries, key, value);
    lemma_insert_position_bounds(entries, key);
    let pos = insert_position(entries, key);
    let out = entries_insert(entries, key, value);
    assert forall|i: int| 0 <= i < out.len() implies (#[trigger] out[i]).0.len() <= usize::MAX
        && out[i].1.wf() by {
        if i == pos {
        } else if pos < entries.len() && entries[pos].0 == key {
            assert(out[i] == entries[i]);
        } else if i < pos {
            assert(out[i] == entries[i]);
        } else {
            assert(out[i] == entries[i - 1]);
        }
    }
}

/// In a dictionary with ascending keys, an entry is found under its own key.
pub proof fn lemma_get_at(entries: Seq<(Seq<u8>, Datum)>, i: int)
    requires
        keys_ascending(entries),
        0 <= i < entries.len(),
    ensures
        entries_get(entries, entries[i].0) == Some(entries[i].1),
    decreases i,
{
    if i > 0 {
        assert(bytes_lt(entries[0].0, entries[i].0));
        lemma_bytes_lt_irreflexive(entries[0].0);
        let rest = entries.skip(1);
        assert forall|a: int, b: int| 0 <= a < b < rest.len() implies bytes_lt(
            #[trigger] rest[a].0,
            #[trigger] rest[b].0,
        ) by {
            assert(rest[a] == entries[a + 1] && rest[b] == entries[b + 1]);
        }
        assert(rest[i - 1] == entries[i]);
        lemma_get_at(rest, i - 1);
    }
}

/// What a well-formed dictionary binds a key to is well formed.
pub proof fn lemma_get_wf(entries: Seq<(Seq<u8>, Datum)>, key: Seq<u8>)
    requires
        dict_wf(entries),
    ensures
        entries_get(entries, key) matches Some(v) ==> v.wf(),
{
    if entries_get(entries, key) is Some {
        let i = lemma_get_some(entries, key);
    }
}

/// A key that no entry has is bound to nothing.
pub proof fn lemma_get_absent(entries: Seq<(Seq<u8>, Datum)>, key: Seq<u8>)
    requires
        forall|i: int| 0 <= i < entries.len() ==> (#[trigger] entries[i]).0 != key,
    ensures
        entries_get(entries, key) is None,
    decreases entries.len(),
{
    if entries.len() > 0 {
        let rest = entries.skip(1);
        assert forall|i: int| 0 <= i < rest.len() implies (#[trigger] rest[i]).0 != key by {
            assert(rest[i] == entries[i + 1]);
        }
        lemma_get_absent(rest, key);
    }
}

/// A key that is bound is the key of some entry.
pub proof fn lemma_get_some(entries: Seq<(Seq<u8>, Datum)>, key: Seq<u8>) -> (i: int)
    requires
        entries_get(entries, key) is Some,
    ensures
        0 <= i < entries.len(),
        entries[i] == (key, entries_get(entries, key)->0),
    decreases entries.len(),
{
    if entries[0].0 == key {
        0
    } else {
        let j = lemma_get_some(entries.skip(1), key);
        assert(entries.skip(1)[j] == entries[j + 1]);
        j + 1
    }
}

/// After `key` is bound to `value`, `key` is bound to `value` and every other key to
/// what it was bound to before.
pub proof fn lemma_insert_get(
    entries: Seq<(Seq<u8>, Datum)>,
    key: Seq<u8>,
    value: Datum,
    other: Seq<u8>,
)
    requires
        keys_ascending(entries),
    ensures
        entries_get(entries_insert(entries, key, value), other) == (if other == key {
            Some(value)
        } else {
            entries_get(entries, other)
        }),
{
    lemma_insert_ascending(entries, key, value);
    lemma_insert_position_bounds(entries, key);
    let pos = insert_position(entries, key);
    let out = entries_insert(entries, key, value);
    let replaced = pos < entries.len() && entries[pos].0 == key;
    if other == key {
        assert(out[pos] == (key, value));
        lemma_get_at(out, pos);
    } else if entries_get(entries, other) is Some {
        let i = lemma_get_some(entries, other);
        let j = if replaced || i < pos {
            i
        } else {
            i + 1
        };
        assert(out[j] == entries[i]);
        lemma_get_at(out, j);
    } else {
        if entries_get(out, other) is Some {
            let j = lemma_get_some(out, other);
            let i = if replaced || j < pos {
                j
            } else {
                j - 1
            };
            assert(entries[i].0 == other);
            lemma_get_at(entries, i);
        }
    }
}

/// A key that comes after every key of a dictionary is bound at its end.
pub proof fn lemma_insert_last(entries: Seq<(Seq<u8>, Datum)>, key: Seq<u8>, value: Datum)
    requires
        forall|i: int| 0 <= i < entries.len() ==> bytes_lt(#[trigger] entries[i].0, key),
    ensures
        entries_insert(entries, key, value) == entries.push((key, value)),
{
    lemma_insert_position(entries, key, entries.len() as int);
    assert(entries.insert(entries.len() as int, (key, value)) =~= entries.push((key, value)));
}

/// A key that stands between the keys before `pos` and the keys from `pos` on is
/// bound in a new entry at `pos`.
pub proof fn lemma_insert_between(
    entries: Seq<(Seq<u8>, Datum)>,
    key: Seq<u8>,
    value: Datum,
    pos: int,
)
    requires
        0 <= pos <= entries.len(),
        forall|i: int| 0 <= i < pos ==> bytes_lt(#[trigger] entries[i].0, key),
        forall|i: int| pos <= i < entries.len() ==> bytes_lt(key, #[trigger] entries[i].0),
    ensures
        entries_insert(entries, key, value) == entries.insert(pos, (key, value)),
{
    lemma_bytes_lt_irreflexive(key);
    if pos < entries.len() {
        assert(bytes_lt(key, entries[pos].0));
        if bytes_lt(entries[pos].0, key) {
            lemma_bytes_lt_transitive(key, entries[pos].0, key);
        }
    }
    lemma_insert_position(entries, key, pos);
}

/// Two dictionaries with ascending keys that bind every key alike are the same
/// sequence of entries: the order in which a dictionary was built leaves no trace.
pub proof fn lemma_ascending_unique(a: Seq<(Seq<u8>, Datum)>, b: Seq<(Seq<u8>, Datum)>)
    requires
        keys_ascending(a),
        keys_ascending(b),
        forall|key: Seq<u8>| entries_get(a, key) == entries_get(b, key),
    ensures
        a == b,
    decreases a.len() + b.len(),
{
    if a.len() == 0 && b.len() == 0 {
        assert(a =~= b);
    } else if a.len() == 0 {
        lemma_get_at(b, 0);
        assert(entries_get(a, b[0].0) is None);
    } else if b.len() == 0 {
        lemma_get_at(a, 0);
        assert(entries_get(b, a[0].0) is None);
    } else {
        // each first key is bound in the other dictionary, at or after its first key
        lemma_get_at(a, 0);
        lemma_get_at(b, 0);
        let i = lemma_get_some(b, a[0].0);
        let j = lemma_get_some(a, b[0].0);
        lemma_bytes_lt_irreflexive(a[0].0);
        if i > 0 && j > 0 {
            assert(bytes_lt(b[0].0, b[i].0));
            assert(bytes_lt(a[0].0, a[j].0));
            lemma_bytes_lt_transitive(a[0].0, b[0].0, a[0].0);
        } else if i > 0 {
            assert(bytes_lt(b[0].0, b[i].0));
        } else if j > 0 {
            assert(bytes_lt(a[0].0, a[j].0));
        }
        assert(a[0] == b[0]);
        let ra = a.skip(1);
        let rb = b.skip(1);
        assert forall|x: int, y: int| 0 <= x < y < ra.len() implies bytes_lt(
            #[trigger] ra[x].0,
            #[trigger] ra[y].0,
        ) by {
            assert(ra[x] == a[x + 1] && ra[y] == a[y + 1]);
        }
        assert forall|x: int, y: int| 0 <= x < y < rb.len() implies bytes_lt(
            #[trigger] rb[x].0,
            #[trigger] rb[y].0,
        ) by {
            assert(rb[x] == b[x + 1] && rb[y] == b[y + 1]);
        }
        assert forall|key: Seq<u8>| entries_get(ra, key) == entries_get(rb, key) by {
            if key == a[0].0 {
                assert forall|x: int| 0 <= x < ra.len() implies (#[trigger] ra[x]).0 != key by {
                    assert(ra[x] == a[x + 1]);
                    assert(bytes_lt(a[0].0, a[x + 1].0));
                }
                assert forall|x: int| 0 <= x < rb.len() implies (#[trigger] rb[x]).0 != key by {
                    assert(rb[x] == b[x + 1]);
                    assert(bytes_lt(b[0].0, b[x + 1].0));
                }
                lemma_get_absent(ra, key);
                lemma_get_absent(rb, key);
            } else {
                assert(entries_get(a, key) == entries_get(b, key));
            }
        }
        lemma_ascending_unique(ra, rb);
        assert(a =~= seq![a[0]] + ra);
        assert(b =~= seq![b[0]] + rb);
    }
}

/// Looks `key` up among `dict`'s entries.
pub fn dict_get_bytes<'a>(dict: &'a Vec<(Vec<u8>, Bencode)>, key: &[u8]) -> (r: Option<
    &'a Bencode,
>)
    ensures
        match r {
            Some(v) => entries_get(entries_view(dict@), key@) == Some(v@),
            None => entries_get(entries_view(dict@), key@) is None,
        },
{
    let ghost entries = entries_view(dict@);
    proof {
        lemma_entries_view(dict@);
        assert(entries.skip(0) =~= entries);
    }
    let mut i: usize = 0;
    while i < dict.len()
        invariant
            i <= dict@.len(),
            entries == entries_view(dict@),
            entries.len() == dict@.len(),
            forall|j: int|
                0 <= j < dict@.len() ==> (#[trigger] entries[j]) == (dict@[j].0@, dict@[j].1@),
            entries_get(entries, key@) == entries_get(entries.skip(i as int), key@),
        decreases dict@.len() - i,
    {
        proof {
            assert(entries.skip(i as int)[0] == entries[i as int]);
            assert(entries.skip(i as int).skip(1) =~= entries.skip(i + 1));
        }
        if bytes_eq(dict[i].0.as_slice(), key) {
            return Some(&dict[i].1);
        }
        i = i + 1;
    }
    None
}

/// Looks the key `key` up among `dict`'s entries.
pub fn dict_get<'a>(dict: &'a Vec<(Vec<u8>, Bencode)>, key: &str) -> (r: Option<&'a Bencode>)
    ensures
        match r {
            Some(v) => entries_get(entries_view(dict@), key.spec_bytes()) == Some(v@),
            None => entries_get(entries_view(dict@), key.spec_bytes()) is None,
        },
{
    dict_get_bytes(dict, key.as_bytes())
}

/// Finds where `key` belongs among `dict`'s entries, and whether an entry has it.
fn find_position(dict: &Vec<(Vec<u8>, Bencode)>, key: &[u8]) -> (r: (usize, bool))
    ensures
        r.0 == insert_position(entries_view(dict@), key@),
        r.0 <= dict@.len(),
        r.1 == (r.0 < dict@.len() && dict@[r.0 as int].0@ == key@),
{
    let ghost entries = entries_view(dict@);
    proof {
        lemma_entries_view(dict@);
    }
    let mut i: usize = 0;
    while i < dict.len()
        invariant
            i <= dict@.len(),
            entries == entries_view(dict@),
            entries.len() == dict@.len(),
            forall|j: int|
                0 <= j < dict@.len() ==> (#[trigger] entries[j]) == (dict@[j].0@, dict@[j].1@),
            forall|j: int| 0 <= j < i ==> bytes_lt(#[trigger] entries[j].0, key@),
        decreases dict@.len() - i,
    {
        let order = key_order(dict[i].0.as_slice(), key);
        if order != KeyOrder::Less {
            proof {
                lemma_insert_position(entries, key@, i as int);
            }
            return (i, order == KeyOrder::Equal);
        }
        i = i + 1;
    }
    proof {
        lemma_insert_position(entries, key@, i as int);
    }
    (i, false)
}

/// Binds `key` to `value` in `dict`: in place of the entry that has the key, or as a
/// new entry where the order of keys puts it.
pub fn dict_insert(dict: &mut Vec<(Vec<u8>, Bencode)>, key: Vec<u8>, value: Bencode)
    ensures
        entries_view(final(dict)@) == entries_insert(entries_view(old(dict)@), key@, value@),
        dict_wf(entries_view(old(dict)@)) && value@.wf() ==> dict_wf(entries_view(final(dict)@)),
{
    let (pos, found) = find_position(dict, key.as_slice());
    let ghost before = entries_view(dict@);
    let ghost k = key@;
    let ghost v = value@;
    proof {
        lemma_entries_view(dict@);
        assert(key@.len() == key.len());
        if dict_wf(before) && v.wf() {
            lemma_insert_wf(before, k, v);
        }
    }
    if found {
        dict.set(pos, (key, value));
    } else {
        dict.insert(pos, (key, value));
    }
    proof {
        lemma_entries_view(dict@);
        assert(entries_view(dict@) =~= entries_insert(before, k, v));
    }
}

} // verus!

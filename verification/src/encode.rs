//! The canonical encoding of values.

use crate::ascii::{COLON, DICT_START, END, INT_START, LIST_START};
use crate::decimal::{decimal, int_text, push_decimal, push_int_text};
use crate::value::{
    entries_view, items_view, lemma_entries_view, lemma_items_view, Bencode, Datum,
};
use vstd::prelude::*;

verus! {

/// The encoding of a byte string: its length in decimal, a colon, and its bytes.
pub open spec fn spec_encode_bytes(bytes: Seq<u8>) -> Seq<u8> {
    decimal(bytes.len()) + seq![COLON] + bytes
}

/// The encoding of a value.
///
/// An integer is its text between `i` and `e`; a list the encodings of its items
/// between `l` and `e`; a dictionary, between `d` and `e`, its entries in their
/// order, each as the encoding of the key as a byte string and then that of the
/// value.
pub open spec fn spec_encode(v: Datum) -> Seq<u8>
    decreases v,
{
    match v {
        Datum::Int(n) => seq![INT_START] + int_text(n as int) + seq![END],
        Datum::Bytes(bytes) => spec_encode_bytes(bytes),
        Datum::List(items) => seq![LIST_START] + spec_encode_items(items) + seq![END],
        Datum::Dict(entries) => seq![DICT_START] + spec_encode_entries(entries) + seq![END],
    }
}

/// The encodings of `items`, one after the other.
pub open spec fn spec_encode_items(items: Seq<Datum>) -> Seq<u8>
    decreases items,
{
    if items.len() == 0 {
        Seq::empty()
    } else {
        spec_encode(items[0]) + spec_encode_items(items.skip(1))
    }
}

/// The encodings of `entries`, one after the other.
pub open spec fn spec_encode_entries(entries: Seq<(Seq<u8>, Datum)>) -> Seq<u8>
    decreases entries,
{
    if entries.len() == 0 {
        Seq::empty()
    } else {
        spec_encode_bytes(entries[0].0) + spec_encode(entries[0].1) + spec_encode_entries(
            entries.skip(1),
        )
    }
}

/// The encoding of a sequence with one more item ends with the encoding of that item.
pub proof fn lemma_encode_items_push(items: Seq<Datum>, item: Datum)
    ensures
        spec_encode_items(items.push(item)) == spec_encode_items(items) + spec_encode(item),
    decreases items.len(),
{
    let all = items.push(item);
    if items.len() == 0 {
        assert(all.skip(1) =~= Seq::<Datum>::empty());
        assert(spec_encode_items(Seq::<Datum>::empty()) =~= Seq::<u8>::empty());
        assert(all[0] == item);
        assert(spec_encode_items(all) =~= spec_encode(item));
        assert(spec_encode_items(items) + spec_encode(item) =~= spec_encode(item));
    } else {
        lemma_encode_items_push(items.skip(1), item);
        assert(all.skip(1) =~= items.skip(1).push(item));
        assert(spec_encode_items(all) =~= spec_encode_items(items) + spec_encode(item));
    }
}

/// The encoding of a sequence with one more entry ends with the encoding of that
/// entry.
pub proof fn lemma_encode_entries_push(entries: Seq<(Seq<u8>, Datum)>, entry: (Seq<u8>, Datum))
    ensures
        spec_encode_entries(entries.push(entry)) == spec_encode_entries(entries)
            + spec_encode_bytes(entry.0) + spec_encode(entry.1),
    decreases entries.len(),
{
    let all = entries.push(entry);
    if entries.len() == 0 {
        assert(all.skip(1) =~= Seq::<(Seq<u8>, Datum)>::empty());
        assert(spec_encode_entries(Seq::<(Seq<u8>, Datum)>::empty()) =~= Seq::<u8>::empty());
        assert(all[0] == entry);
        assert(spec_encode_entries(all) =~= spec_encode_bytes(entry.0) + spec_encode(entry.1));
        assert(spec_encode_entries(entries) + spec_encode_bytes(entry.0) + spec_encode(entry.1)
            =~= spec_encode_bytes(entry.0) + spec_encode(entry.1));
    } else {
        lemma_encode_entries_push(entries.skip(1), entry);
        assert(all.skip(1) =~= entries.skip(1).push(entry));
        assert(spec_encode_entries(all) =~= spec_encode_entries(entries) + spec_encode_bytes(
            entry.0,
        ) + spec_encode(entry.1));
    }
}

/// Appends the bytes of `data` to `out`.
fn push_all(out: &mut Vec<u8>, data: &[u8])
    ensures
        final(out)@ == old(out)@ + data@,
{
    let mut i: usize = 0;
    while i < data.len()
        invariant
            i <= data@.len(),
            out@ == old(out)@ + data@.take(i as int),
        decreases data@.len() - i,
    {
        out.push(data[i]);
        proof {
            assert(data@.take(i + 1) =~= data@.take(i as int).push(data@[i as int]));
        }
        i = i + 1;
    }
    proof {
        assert(data@.take(data@.len() as int) =~= data@);
    }
}

/// Appends the encoding of the byte string `data` to `out`.
fn push_encoded_bytes(out: &mut Vec<u8>, data: &[u8])
    ensures
        final(out)@ == old(out)@ + spec_encode_bytes(data@),
{
    push_decimal(out, data.len() as u64);
    out.push(COLON);
    push_all(out, data);
    proof {
        assert(out@ =~= old(out)@ + spec_encode_bytes(data@));
    }
}

/// Appends the encoding of `val` to `out`.
fn push_encoded(out: &mut Vec<u8>, val: &Bencode)
    ensures
        final(out)@ == old(out)@ + spec_encode(val@),
    decreases val,
{
    match val {
        Bencode::Int(n) => {
            out.push(INT_START);
            push_int_text(out, *n);
            out.push(END);
            proof {
                assert(out@ =~= old(out)@ + spec_encode(val@));
            }
        },
        Bencode::Bytes(bytes) => {
            push_encoded_bytes(out, bytes.as_slice());
        },
        Bencode::List(items) => {
            out.push(LIST_START);
            let ghost views = items_view(items@);
            proof {
                lemma_items_view(items@);
                assert(views.take(0) =~= Seq::<Datum>::empty());
                assert(out@ =~= old(out)@ + seq![LIST_START] + spec_encode_items(views.take(0)));
            }
            let mut i: usize = 0;
            while i < items.len()
                invariant
                    i <= items@.len(),
                    val == Bencode::List(*items),
                    views == items_view(items@),
                    views.len() == items@.len(),
                    forall|j: int| 0 <= j < items@.len() ==> (#[trigger] views[j]) == items@[j]@,
                    out@ == old(out)@ + seq![LIST_START] + spec_encode_items(views.take(i as int)),
                decreases items@.len() - i,
            {
                proof {
                    assert(decreases_to!(val => val->List_0));
                    assert(decreases_to!(val => items[i as int]));
                    lemma_encode_items_push(views.take(i as int), views[i as int]);
                    assert(views.take(i + 1) =~= views.take(i as int).push(views[i as int]));
                }
                push_encoded(out, &items[i]);
                proof {
                    assert(out@ =~= old(out)@ + seq![LIST_START] + spec_encode_items(
                        views.take(i + 1),
                    ));
                }
                i = i + 1;
            }
            out.push(END);
            proof {
                assert(views.take(views.len() as int) =~= views);
                assert(out@ =~= old(out)@ + spec_encode(val@));
            }
        },
        Bencode::Dict(entries) => {
            out.push(DICT_START);
            let ghost views = entries_view(entries@);
            proof {
                lemma_entries_view(entries@);
                assert(views.take(0) =~= Seq::<(Seq<u8>, Datum)>::empty());
                assert(out@ =~= old(out)@ + seq![DICT_START] + spec_encode_entries(views.take(0)));
            }
            let mut i: usize = 0;
            while i < entries.len()
                invariant
                    i <= entries@.len(),
                    val == Bencode::Dict(*entries),
                    views == entries_view(entries@),
                    views.len() == entries@.len(),
                    forall|j: int|
                        0 <= j < entries@.len() ==> (#[trigger] views[j]) == (
                            entries@[j].0@,
                            entries@[j].1@,
                        ),
                    out@ == old(out)@ + seq![DICT_START] + spec_encode_entries(
                        views.take(i as int),
                    ),
                decreases entries@.len() - i,
            {
                proof {
                    assert(decreases_to!(val => val->Dict_0));
                    assert(decreases_to!(val => entries[i as int]));
                    assert(decreases_to!(val => entries[i as int].1));
                    lemma_encode_entries_push(views.take(i as int), views[i as int]);
                    assert(views.take(i + 1) =~= views.take(i as int).push(views[i as int]));
                }
                push_encoded_bytes(out, entries[i].0.as_slice());
                push_encoded(out, &entries[i].1);
                proof {
                    assert(out@ =~= old(out)@ + seq![DICT_START] + spec_encode_entries(
                        views.take(i + 1),
                    ));
                }
                i = i + 1;
            }
            out.push(END);
            proof {
                assert(views.take(views.len() as int) =~= views);
                assert(out@ =~= old(out)@ + spec_encode(val@));
            }
        },
    }
}

/// Encodes the byte string `data`.
pub fn encode_bytes(data: &[u8]) -> (out: Vec<u8>)
    ensures
        out@ == spec_encode_bytes(data@),
{
    let mut out: Vec<u8> = Vec::new();
    push_encoded_bytes(&mut out, data);
    proof {
        assert(Seq::<u8>::empty() + spec_encode_bytes(data@) =~= spec_encode_bytes(data@));
    }
    out
}

/// Encodes `val`, which must be well formed: the output is then the canonical
/// encoding, with the entries of every dictionary in ascending order of their
/// keys.
pub fn encode_bencode(val: &Bencode) -> (out: Vec<u8>)
    requires
        val@.wf(),
    ensures
        out@ == spec_encode(val@),
{
    let mut out: Vec<u8> = Vec::new();
    push_encoded(&mut out, val);
    proof {
        assert(Seq::<u8>::empty() + spec_encode(val@) =~= spec_encode(val@));
    }
    out
}

} // verus!

//! What the parser makes of encodings: of a whole one wherever it stands in a
//! buffer, and of one that the buffer holds only in part.

use crate::ascii::{COLON, DICT_START, END, INT_START, LIST_START};
use crate::decimal::{
    decimal, int_text, is_digit, lemma_decimal_parses, lemma_decimal_value, lemma_int_text_parses,
};
use crate::encode::{spec_encode, spec_encode_bytes, spec_encode_entries, spec_encode_items};
use crate::error::{InvalidKind, ParseError};
use crate::parse::{find_byte, spec_parse_at, spec_parse_entries, spec_parse_items};
use crate::dict::{
    entries_get, entries_insert, lemma_ascending_unique, lemma_insert_ascending, lemma_insert_get,
    lemma_insert_last,
};
use crate::value::{bytes_lt, dict_wf, keys_ascending, list_wf, Datum};
use vstd::prelude::*;

verus! {

/// `buf` holds all of `s` from `idx` on.
pub open spec fn has_at(buf: Seq<u8>, idx: int, s: Seq<u8>) -> bool {
    &&& 0 <= idx
    &&& idx + s.len() <= buf.len()
    &&& buf.subrange(idx, idx + s.len()) == s
}

/// `buf` ends, from `idx` on, with a part of `s` that is not all of it.
pub open spec fn has_part_at(buf: Seq<u8>, idx: int, s: Seq<u8>) -> bool {
    &&& 0 <= idx <= buf.len()
    &&& buf.len() - idx < s.len()
    &&& buf.subrange(idx, buf.len() as int) == s.take(buf.len() - idx)
}

/// A buffer that holds `a + b` holds `a` and then `b`.
pub proof fn lemma_has_at_split(buf: Seq<u8>, idx: int, a: Seq<u8>, b: Seq<u8>)
    requires
        has_at(buf, idx, a + b),
    ensures
        has_at(buf, idx, a),
        has_at(buf, idx + a.len(), b),
{
    let whole = buf.subrange(idx, idx + (a + b).len());
    assert(buf.subrange(idx, idx + a.len()) =~= whole.subrange(0, a.len() as int));
    assert((a + b).subrange(0, a.len() as int) =~= a);
    assert(buf.subrange(idx + a.len(), idx + a.len() + b.len()) =~= whole.subrange(
        a.len() as int,
        (a + b).len() as int,
    ));
    assert((a + b).subrange(a.len() as int, (a + b).len() as int) =~= b);
}

/// A buffer that ends with a part of `a + b` ends with a part of `a`, or holds `a`
/// and ends with a part of `b`.
pub proof fn lemma_has_part_at_split(buf: Seq<u8>, idx: int, a: Seq<u8>, b: Seq<u8>)
    requires
        has_part_at(buf, idx, a + b),
    ensures
        buf.len() - idx < a.len() ==> has_part_at(buf, idx, a),
        buf.len() - idx >= a.len() ==> has_at(buf, idx, a) && has_part_at(buf, idx + a.len(), b),
{
    let n = buf.len() - idx;
    let part = buf.subrange(idx, buf.len() as int);
    if n < a.len() {
        assert((a + b).take(n) =~= a.take(n));
    } else {
        assert(buf.subrange(idx, idx + a.len()) =~= part.subrange(0, a.len() as int));
        assert((a + b).take(n).subrange(0, a.len() as int) =~= a);
        assert(buf.subrange(idx + a.len(), buf.len() as int) =~= part.subrange(
            a.len() as int,
            n,
        ));
        assert((a + b).take(n).subrange(a.len() as int, n) =~= b.take(n - a.len()));
    }
}

/// Where `byte` does not occur from `from` up to `to`, the search from `from` is the
/// search from `to`.
pub proof fn lemma_find_skips(buf: Seq<u8>, from: int, to: int, byte: u8)
    requires
        0 <= from <= to <= buf.len(),
        forall|i: int| from <= i < to ==> buf[i] != byte,
    ensures
        find_byte(buf, from, byte) == find_byte(buf, to, byte),
    decreases to - from,
{
    if from < to {
        lemma_find_skips(buf, from + 1, to, byte);
    }
}

/// True of the bytes with which an encoding can start.
pub open spec fn starts_value(b: u8) -> bool {
    b == INT_START || b == LIST_START || b == DICT_START || is_digit(b)
}

/// An encoding has at least two bytes, and its first byte says that a value starts.
pub proof fn lemma_encode_first(v: Datum)
    ensures
        spec_encode(v).len() >= 2,
        starts_value(spec_encode(v)[0]),
        spec_encode(v)[0] == INT_START <==> v is Int,
        spec_encode(v)[0] == LIST_START <==> v is List,
        spec_encode(v)[0] == DICT_START <==> v is Dict,
{
    match v {
        Datum::Bytes(bytes) => {
            lemma_decimal_value(bytes.len());
            assert(spec_encode(v)[0] == decimal(bytes.len())[0]);
        },
        _ => {},
    }
}

/// The text of an integer holds digits and a minus sign, and so no `e`.
pub proof fn lemma_int_text_bytes(n: int)
    ensures
        int_text(n).len() > 0,
        forall|i: int| 0 <= i < int_text(n).len() ==> (#[trigger] int_text(n)[i]) != END,
{
    if n < 0 {
        lemma_decimal_value((-n) as nat);
        let d = decimal((-n) as nat);
        assert forall|i: int| 0 <= i < int_text(n).len() implies (#[trigger] int_text(n)[i])
            != END by {
            if i > 0 {
                assert(int_text(n)[i] == d[i - 1]);
            }
        }
    } else {
        lemma_decimal_value(n as nat);
    }
}

/// An integer is parsed back from its encoding, wherever the encoding stands.
pub proof fn lemma_parse_int_encoded(n: i64, buf: Seq<u8>, idx: int)
    requires
        has_at(buf, idx, spec_encode(Datum::Int(n))),
    ensures
        spec_parse_at(buf, idx) == Ok::<(Datum, int), ParseError>(
            (Datum::Int(n), idx + spec_encode(Datum::Int(n)).len()),
        ),
{
    let text = int_text(n as int);
    let enc = spec_encode(Datum::Int(n));
    lemma_int_text_bytes(n as int);
    lemma_has_at_split(buf, idx, seq![INT_START] + text, seq![END]);
    lemma_has_at_split(buf, idx, seq![INT_START], text);
    let end = idx + 1 + text.len();
    assert(buf[idx] == buf.subrange(idx, idx + 1)[0]);
    assert(buf[end] == buf.subrange(end, end + 1)[0]);
    assert forall|i: int| idx + 1 <= i < end implies buf[i] != END by {
        assert(buf[i] == buf.subrange(idx + 1, end)[i - idx - 1]);
    }
    lemma_find_skips(buf, idx + 1, end, END);
    lemma_int_text_parses(n);
}

/// A byte string is parsed back from its encoding, wherever the encoding stands.
pub proof fn lemma_parse_bytes_encoded(bytes: Seq<u8>, buf: Seq<u8>, idx: int)
    requires
        bytes.len() <= usize::MAX,
        has_at(buf, idx, spec_encode_bytes(bytes)),
    ensures
        spec_parse_at(buf, idx) == Ok::<(Datum, int), ParseError>(
            (Datum::Bytes(bytes), idx + spec_encode_bytes(bytes).len()),
        ),
{
    let digits = decimal(bytes.len());
    lemma_decimal_value(bytes.len());
    lemma_has_at_split(buf, idx, digits + seq![COLON], bytes);
    lemma_has_at_split(buf, idx, digits, seq![COLON]);
    let colon = idx + digits.len();
    assert(buf[colon] == buf.subrange(colon, colon + 1)[0]);
    assert forall|i: int| idx <= i < colon implies is_digit(#[trigger] buf[i]) by {
        assert(buf[i] == buf.subrange(idx, colon)[i - idx]);
    }
    assert(is_digit(buf[idx]));
    lemma_find_skips(buf, idx, colon, COLON);
    lemma_decimal_parses(bytes.len() as usize);
}

/// A well-formed value is parsed back from its encoding, wherever the encoding
/// stands in the buffer and whatever follows it: the parser returns the value and
/// the index after the encoding's last byte.
pub proof fn lemma_parse_encoded(v: Datum, buf: Seq<u8>, idx: int)
    requires
        v.wf(),
        has_at(buf, idx, spec_encode(v)),
    ensures
        spec_parse_at(buf, idx) == Ok::<(Datum, int), ParseError>((v, idx + spec_encode(v).len())),
    decreases v,
{
    match v {
        Datum::Int(n) => {
            lemma_parse_int_encoded(n, buf, idx);
        },
        Datum::Bytes(bytes) => {
            lemma_parse_bytes_encoded(bytes, buf, idx);
        },
        Datum::List(items) => {
            let body = spec_encode_items(items);
            lemma_has_at_split(buf, idx, seq![LIST_START] + body, seq![END]);
            lemma_has_at_split(buf, idx, seq![LIST_START], body);
            assert(buf[idx] == buf.subrange(idx, idx + 1)[0]);
            lemma_parse_items_encoded(items, buf, idx + 1, Seq::empty());
            assert(Seq::<Datum>::empty() + items =~= items);
        },
        Datum::Dict(entries) => {
            let body = spec_encode_entries(entries);
            lemma_has_at_split(buf, idx, seq![DICT_START] + body, seq![END]);
            lemma_has_at_split(buf, idx, seq![DICT_START], body);
            assert(buf[idx] == buf.subrange(idx, idx + 1)[0]);
            lemma_parse_entries_encoded(entries, buf, idx + 1, Seq::empty());
            assert(Seq::<(Seq<u8>, Datum)>::empty() + entries =~= entries);
        },
    }
}

/// The items of a list are parsed back from their encodings and the closing `e`,
/// and join the items that came before them.
pub proof fn lemma_parse_items_encoded(items: Seq<Datum>, buf: Seq<u8>, idx: int, acc: Seq<Datum>)
    requires
        list_wf(items),
        has_at(buf, idx, spec_encode_items(items)),
        has_at(buf, idx + spec_encode_items(items).len(), seq![END]),
    ensures
        spec_parse_items(buf, idx, acc) == Ok::<(Datum, int), ParseError>(
            (Datum::List(acc + items), idx + spec_encode_items(items).len() + 1),
        ),
    decreases items,
{
    if items.len() == 0 {
        assert(buf[idx] == buf.subrange(idx, idx + 1)[0]);
        assert(acc + items =~= acc);
    } else {
        let first = items[0];
        let rest = items.skip(1);
        let e0 = spec_encode(first);
        lemma_has_at_split(buf, idx, e0, spec_encode_items(rest));
        lemma_encode_first(first);
        assert(buf[idx] == buf.subrange(idx, idx + e0.len())[0]);
        lemma_parse_encoded(first, buf, idx);
        assert forall|i: int| 0 <= i < rest.len() implies (#[trigger] rest[i]).wf() by {
            assert(rest[i] == items[i + 1]);
        }
        lemma_parse_items_encoded(rest, buf, idx + e0.len(), acc.push(first));
        assert(acc.push(first) + rest =~= acc + items);
    }
}

/// The entries of a well-formed dictionary are parsed back from their encodings and
/// the closing `e`, and join the entries that came before them, whose keys come
/// before theirs.
pub proof fn lemma_parse_entries_encoded(
    entries: Seq<(Seq<u8>, Datum)>,
    buf: Seq<u8>,
    idx: int,
    acc: Seq<(Seq<u8>, Datum)>,
)
    requires
        dict_wf(entries),
        forall|i: int, j: int|
            0 <= i < acc.len() && 0 <= j < entries.len() ==> bytes_lt(
                #[trigger] acc[i].0,
                #[trigger] entries[j].0,
            ),
        has_at(buf, idx, spec_encode_entries(entries)),
        has_at(buf, idx + spec_encode_entries(entries).len(), seq![END]),
    ensures
        spec_parse_entries(buf, idx, acc) == Ok::<(Datum, int), ParseError>(
            (Datum::Dict(acc + entries), idx + spec_encode_entries(entries).len() + 1),
        ),
    decreases entries,
{
    if entries.len() == 0 {
        assert(buf[idx] == buf.subrange(idx, idx + 1)[0]);
        assert(acc + entries =~= acc);
    } else {
        let key = entries[0].0;
        let value = entries[0].1;
        let rest = entries.skip(1);
        let ek = spec_encode_bytes(key);
        let ev = spec_encode(value);
        lemma_has_at_split(buf, idx, ek + ev, spec_encode_entries(rest));
        lemma_has_at_split(buf, idx, ek, ev);
        lemma_encode_first(Datum::Bytes(key));
        assert(buf[idx] == buf.subrange(idx, idx + ek.len())[0]);
        lemma_parse_bytes_encoded(key, buf, idx);
        lemma_encode_first(value);
        lemma_parse_encoded(value, buf, idx + ek.len());
        lemma_insert_last(acc, key, value);
        let grown = acc.push((key, value));
        assert forall|i: int| 0 <= i < rest.len() implies (#[trigger] rest[i]).0.len()
            <= usize::MAX && rest[i].1.wf() by {
            assert(rest[i] == entries[i + 1]);
        }
        assert forall|i: int, j: int| 0 <= i < j < rest.len() implies bytes_lt(
            #[trigger] rest[i].0,
            #[trigger] rest[j].0,
        ) by {
            assert(rest[i] == entries[i + 1] && rest[j] == entries[j + 1]);
        }
        assert forall|i: int, j: int| 0 <= i < grown.len() && 0 <= j < rest.len() implies bytes_lt(
            #[trigger] grown[i].0,
            #[trigger] rest[j].0,
        ) by {
            assert(rest[j] == entries[j + 1]);
            if i < acc.len() {
                assert(grown[i] == acc[i]);
            } else {
                assert(grown[i] == entries[0]);
            }
        }
        lemma_parse_entries_encoded(rest, buf, idx + ek.len() + ev.len(), grown);
        assert(grown + rest =~= acc + entries);
    }
}

/// Of an integer whose encoding the buffer holds only in part, the parser says
/// that it needs more.
pub proof fn lemma_parse_int_part(n: i64, buf: Seq<u8>, idx: int)
    requires
        has_part_at(buf, idx, spec_encode(Datum::Int(n))),
    ensures
        spec_parse_at(buf, idx) == Err::<(Datum, int), ParseError>(ParseError::NeedMore),
{
    let text = int_text(n as int);
    let enc = spec_encode(Datum::Int(n));
    let avail = buf.len() - idx;
    if avail > 0 {
        lemma_int_text_bytes(n as int);
        let part = buf.subrange(idx, buf.len() as int);
        assert(buf[idx] == part[0]);
        assert forall|i: int| idx + 1 <= i < buf.len() implies buf[i] != END by {
            assert(buf[i] == part[i - idx]);
            assert(enc[i - idx] == text[i - idx - 1]);
        }
        lemma_find_skips(buf, idx + 1, buf.len() as int, END);
    }
}

/// Of a byte string whose encoding the buffer holds only in part, the parser says
/// that it needs more.
pub proof fn lemma_parse_bytes_part(bytes: Seq<u8>, buf: Seq<u8>, idx: int)
    requires
        bytes.len() <= usize::MAX,
        has_part_at(buf, idx, spec_encode_bytes(bytes)),
    ensures
        spec_parse_at(buf, idx) == Err::<(Datum, int), ParseError>(ParseError::NeedMore),
{
    let digits = decimal(bytes.len());
    let enc = spec_encode_bytes(bytes);
    let avail = buf.len() - idx;
    if avail > 0 {
        lemma_decimal_value(bytes.len());
        let part = buf.subrange(idx, buf.len() as int);
        assert(buf[idx] == part[0]);
        assert(enc[0] == digits[0]);
        assert(is_digit(buf[idx]));
        if avail <= digits.len() {
            assert forall|i: int| idx <= i < buf.len() implies buf[i] != COLON by {
                assert(buf[i] == part[i - idx]);
                assert(enc[i - idx] == digits[i - idx]);
            }
            lemma_find_skips(buf, idx, buf.len() as int, COLON);
        } else {
            assert(enc =~= digits + (seq![COLON] + bytes));
            lemma_has_part_at_split(buf, idx, digits, seq![COLON] + bytes);
            let colon = idx + digits.len();
            assert(buf[colon] == part[digits.len() as int]);
            assert(enc[digits.len() as int] == COLON);
            assert forall|i: int| idx <= i < colon implies buf[i] != COLON by {
                assert(buf[i] == buf.subrange(idx, colon)[i - idx]);
            }
            lemma_find_skips(buf, idx, colon, COLON);
            lemma_decimal_parses(bytes.len() as usize);
        }
    }
}

/// Of a well-formed value whose encoding the buffer holds only in part, the parser
/// says that it needs more: never that the input is invalid, and never a value.
pub proof fn lemma_parse_part(v: Datum, buf: Seq<u8>, idx: int)
    requires
        v.wf(),
        has_part_at(buf, idx, spec_encode(v)),
    ensures
        spec_parse_at(buf, idx) == Err::<(Datum, int), ParseError>(ParseError::NeedMore),
    decreases v,
{
    match v {
        Datum::Int(n) => {
            lemma_parse_int_part(n, buf, idx);
        },
        Datum::Bytes(bytes) => {
            lemma_parse_bytes_part(bytes, buf, idx);
        },
        Datum::List(items) => {
            if buf.len() - idx > 0 {
                let body = spec_encode_items(items);
                assert(spec_encode(v) =~= seq![LIST_START] + (body + seq![END]));
                lemma_has_part_at_split(buf, idx, seq![LIST_START], body + seq![END]);
                assert(buf[idx] == buf.subrange(idx, idx + 1)[0]);
                lemma_parse_items_part(items, buf, idx + 1, Seq::empty());
            }
        },
        Datum::Dict(entries) => {
            if buf.len() - idx > 0 {
                let body = spec_encode_entries(entries);
                assert(spec_encode(v) =~= seq![DICT_START] + (body + seq![END]));
                lemma_has_part_at_split(buf, idx, seq![DICT_START], body + seq![END]);
                assert(buf[idx] == buf.subrange(idx, idx + 1)[0]);
                lemma_parse_entries_part(entries, buf, idx + 1, Seq::empty());
            }
        },
    }
}

/// Of a list whose rest the buffer holds only in part, the parser says that it
/// needs more.
pub proof fn lemma_parse_items_part(items: Seq<Datum>, buf: Seq<u8>, idx: int, acc: Seq<Datum>)
    requires
        list_wf(items),
        has_part_at(buf, idx, spec_encode_items(items) + seq![END]),
    ensures
        spec_parse_items(buf, idx, acc) == Err::<(Datum, int), ParseError>(ParseError::NeedMore),
    decreases items,
{
    if buf.len() - idx > 0 {
        assert(items.len() > 0);
        let first = items[0];
        let rest = items.skip(1);
        let e0 = spec_encode(first);
        let tail = spec_encode_items(rest) + seq![END];
        assert(spec_encode_items(items) + seq![END] =~= e0 + tail);
        lemma_has_part_at_split(buf, idx, e0, tail);
        lemma_encode_first(first);
        assert(buf[idx] == buf.subrange(idx, buf.len() as int)[0]);
        assert(buf[idx] == e0[0]);
        if buf.len() - idx < e0.len() {
            lemma_parse_part(first, buf, idx);
        } else {
            lemma_parse_encoded(first, buf, idx);
            assert forall|i: int| 0 <= i < rest.len() implies (#[trigger] rest[i]).wf() by {
                assert(rest[i] == items[i + 1]);
            }
            lemma_parse_items_part(rest, buf, idx + e0.len(), acc.push(first));
        }
    }
}

/// Of a dictionary whose rest the buffer holds only in part, the parser says that it
/// needs more.
pub proof fn lemma_parse_entries_part(
    entries: Seq<(Seq<u8>, Datum)>,
    buf: Seq<u8>,
    idx: int,
    acc: Seq<(Seq<u8>, Datum)>,
)
    requires
        dict_wf(entries),
        has_part_at(buf, idx, spec_encode_entries(entries) + seq![END]),
    ensures
        spec_parse_entries(buf, idx, acc) == Err::<(Datum, int), ParseError>(ParseError::NeedMore),
    decreases entries,
{
    if buf.len() - idx > 0 {
        assert(entries.len() > 0);
        let key = entries[0].0;
        let value = entries[0].1;
        let rest = entries.skip(1);
        let ek = spec_encode_bytes(key);
        let ev = spec_encode(value);
        let tail = spec_encode_entries(rest) + seq![END];
        assert(spec_encode_entries(entries) + seq![END] =~= ek + (ev + tail));
        lemma_has_part_at_split(buf, idx, ek, ev + tail);
        lemma_encode_first(Datum::Bytes(key));
        assert(buf[idx] == buf.subrange(idx, buf.len() as int)[0]);
        assert(buf[idx] == ek[0]);
        if buf.len() - idx < ek.len() {
            lemma_parse_bytes_part(key, buf, idx);
        } else {
            lemma_parse_bytes_encoded(key, buf, idx);
            lemma_has_part_at_split(buf, idx + ek.len(), ev, tail);
            if buf.len() - idx - ek.len() < ev.len() {
                lemma_parse_part(value, buf, idx + ek.len());
            } else {
                lemma_encode_first(value);
                lemma_parse_encoded(value, buf, idx + ek.len());
                assert forall|i: int| 0 <= i < rest.len() implies (#[trigger] rest[i]).0.len()
                    <= usize::MAX && rest[i].1.wf() by {
                    assert(rest[i] == entries[i + 1]);
                }
                assert forall|i: int, j: int| 0 <= i < j < rest.len() implies bytes_lt(
                    #[trigger] rest[i].0,
                    #[trigger] rest[j].0,
                ) by {
                    assert(rest[i] == entries[i + 1] && rest[j] == entries[j + 1]);
                }
                lemma_parse_entries_part(
                    rest,
                    buf,
                    idx + ek.len() + ev.len(),
                    entries_insert(acc, key, value),
                );
            }
        }
    }
}

/// Round trip: a well-formed value is decoded from its encoding, and the decoder
/// consumes exactly the encoding, whatever bytes follow it in the buffer.
pub proof fn theorem_roundtrip(v: Datum, tail: Seq<u8>)
    requires
        v.wf(),
    ensures
        spec_parse_at(spec_encode(v) + tail, 0) == Ok::<(Datum, int), ParseError>(
            (v, spec_encode(v).len() as int),
        ),
{
    let buf = spec_encode(v) + tail;
    assert(buf.subrange(0, spec_encode(v).len() as int) =~= spec_encode(v));
    lemma_parse_encoded(v, buf, 0);
}

/// The encoding is injective on well-formed values.
pub proof fn theorem_encode_injective(a: Datum, b: Datum)
    requires
        a.wf(),
        b.wf(),
        spec_encode(a) == spec_encode(b),
    ensures
        a == b,
{
    theorem_roundtrip(a, Seq::empty());
    theorem_roundtrip(b, Seq::empty());
}

/// Incremental parsing: while only the first `k` bytes of an encoding have arrived,
/// with `k` less than its length, the parser asks for more; it reports neither a
/// value nor invalid input. With `theorem_roundtrip`, an encoding that arrives in
/// pieces of any sizes yields the same value and the same consumed length as one
/// that arrives whole.
pub proof fn theorem_partial_needs_more(v: Datum, k: int)
    requires
        v.wf(),
        0 <= k < spec_encode(v).len(),
    ensures
        spec_parse_at(spec_encode(v).take(k), 0) == Err::<(Datum, int), ParseError>(
            ParseError::NeedMore,
        ),
{
    let buf = spec_encode(v).take(k);
    assert(buf.subrange(0, buf.len() as int) =~= spec_encode(v).take(buf.len() - 0));
    lemma_parse_part(v, buf, 0);
}

/// Resynchronisation: where one byte that can begin no value stands before the
/// encoding of a well-formed value, the parser rejects the buffer for its first
/// byte, and once that byte is dropped it decodes the value, whatever follows it.
pub proof fn theorem_resync(byte: u8, v: Datum, tail: Seq<u8>)
    requires
        !starts_value(byte),
        v.wf(),
    ensures
        spec_parse_at(seq![byte] + spec_encode(v) + tail, 0) == Err::<(Datum, int), ParseError>(
            ParseError::Invalid(InvalidKind::Prefix),
        ),
        spec_parse_at((seq![byte] + spec_encode(v) + tail).skip(1), 0) == Ok::<
            (Datum, int),
            ParseError,
        >((v, spec_encode(v).len() as int)),
{
    let buf = seq![byte] + spec_encode(v) + tail;
    assert(buf[0] == byte);
    assert(buf.skip(1) =~= spec_encode(v) + tail);
    theorem_roundtrip(v, tail);
}

/// Canonical form: two well-formed dictionaries that bind every key alike have the
/// same encoding, in whatever order their entries were put in.
pub proof fn theorem_canonical(a: Seq<(Seq<u8>, Datum)>, b: Seq<(Seq<u8>, Datum)>)
    requires
        dict_wf(a),
        dict_wf(b),
        forall|key: Seq<u8>| entries_get(a, key) == entries_get(b, key),
    ensures
        spec_encode(Datum::Dict(a)) == spec_encode(Datum::Dict(b)),
{
    lemma_ascending_unique(a, b);
}

/// Two bindings of different keys can be made in either order.
pub proof fn theorem_insert_order(
    entries: Seq<(Seq<u8>, Datum)>,
    k1: Seq<u8>,
    v1: Datum,
    k2: Seq<u8>,
    v2: Datum,
)
    requires
        keys_ascending(entries),
        k1 != k2,
    ensures
        entries_insert(entries_insert(entries, k1, v1), k2, v2) == entries_insert(
            entries_insert(entries, k2, v2),
            k1,
            v1,
        ),
{
    let a1 = entries_insert(entries, k1, v1);
    let a2 = entries_insert(a1, k2, v2);
    let b1 = entries_insert(entries, k2, v2);
    let b2 = entries_insert(b1, k1, v1);
    lemma_insert_ascending(entries, k1, v1);
    lemma_insert_ascending(a1, k2, v2);
    lemma_insert_ascending(entries, k2, v2);
    lemma_insert_ascending(b1, k1, v1);
    assert forall|key: Seq<u8>| entries_get(a2, key) == entries_get(b2, key) by {
        lemma_insert_get(entries, k1, v1, key);
        lemma_insert_get(a1, k2, v2, key);
        lemma_insert_get(entries, k2, v2, key);
        lemma_insert_get(b1, k1, v1, key);
    }
    lemma_ascending_unique(a2, b2);
}

} // verus!

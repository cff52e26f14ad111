//! The parser on a buffer that grows: what it has decided stays decided.

use crate::ascii::{COLON, DICT_START, END, INT_START, LIST_START};
use crate::decimal::{is_digit, spec_parse_len};
use crate::dict::{entries_insert, lemma_insert_wf};
use crate::encode::spec_encode;
use crate::error::ParseError;
use crate::parse::{find_byte, spec_parse_at, spec_parse_entries, spec_parse_items};
use crate::roundtrip::theorem_roundtrip;
use crate::value::{dict_wf, lemma_list_push_wf, list_wf, Datum};
use vstd::prelude::*;

verus! {

/// `buf` is the beginning of `ext`.
pub open spec fn begins(buf: Seq<u8>, ext: Seq<u8>) -> bool {
    buf.len() <= ext.len() && ext.take(buf.len() as int) == buf
}

/// A buffer and one that it begins agree on the bytes of the first.
pub proof fn lemma_begins_index(buf: Seq<u8>, ext: Seq<u8>)
    requires
        begins(buf, ext),
    ensures
        forall|i: int| 0 <= i < buf.len() ==> buf[i] == ext[i],
        forall|i: int, j: int|
            0 <= i <= j <= buf.len() ==> #[trigger] buf.subrange(i, j) == ext.subrange(i, j),
{
    assert forall|i: int| 0 <= i < buf.len() implies buf[i] == ext[i] by {
        assert(ext.take(buf.len() as int)[i] == ext[i]);
    }
    assert forall|i: int, j: int| 0 <= i <= j <= buf.len() implies #[trigger] buf.subrange(i, j)
        == ext.subrange(i, j) by {
        assert(buf.subrange(i, j) =~= ext.subrange(i, j));
    }
}

/// The search stops at the first `byte` at or after `from`, or at the end.
pub proof fn lemma_find_first(buf: Seq<u8>, from: int, byte: u8)
    requires
        0 <= from <= buf.len(),
    ensures
        from <= find_byte(buf, from, byte) <= buf.len(),
        find_byte(buf, from, byte) < buf.len() ==> buf[find_byte(buf, from, byte)] == byte,
        forall|i: int| from <= i < find_byte(buf, from, byte) ==> buf[i] != byte,
    decreases buf.len() - from,
{
    if from < buf.len() && buf[from] != byte {
        lemma_find_first(buf, from + 1, byte);
    }
}

/// A `byte` found in a buffer is found at the same place in any buffer that it
/// begins.
pub proof fn lemma_find_stable(buf: Seq<u8>, ext: Seq<u8>, from: int, byte: u8)
    requires
        begins(buf, ext),
        0 <= from <= buf.len(),
        find_byte(buf, from, byte) < buf.len(),
    ensures
        find_byte(ext, from, byte) == find_byte(buf, from, byte),
    decreases buf.len() - from,
{
    lemma_begins_index(buf, ext);
    if buf[from] != byte {
        lemma_find_stable(buf, ext, from + 1, byte);
    }
}

/// Whatever the parser decides at `idx` of a buffer, a value or that the input is
/// invalid, it decides at `idx` of every buffer that this one begins; and a value
/// ends after `idx` and within the first buffer.
pub proof fn lemma_parse_stable(buf: Seq<u8>, ext: Seq<u8>, idx: int)
    requires
        begins(buf, ext),
        spec_parse_at(buf, idx) != Err::<(Datum, int), ParseError>(ParseError::NeedMore),
    ensures
        spec_parse_at(ext, idx) == spec_parse_at(buf, idx),
        spec_parse_at(buf, idx) matches Ok((_, next)) ==> idx < next <= buf.len(),
    decreases buf.len() - idx, 0int,
{
    lemma_begins_index(buf, ext);
    if buf[idx] == INT_START {
        lemma_find_first(buf, idx + 1, END);
        lemma_find_stable(buf, ext, idx + 1, END);
    } else if buf[idx] == LIST_START {
        lemma_parse_items_stable(buf, ext, idx + 1, Seq::empty());
    } else if buf[idx] == DICT_START {
        lemma_parse_entries_stable(buf, ext, idx + 1, Seq::empty());
    } else if is_digit(buf[idx]) {
        lemma_find_first(buf, idx, COLON);
        lemma_find_stable(buf, ext, idx, COLON);
        let colon = find_byte(buf, idx, COLON);
        match spec_parse_len(buf.subrange(idx, colon)) {
            Ok(n) => {
                assert(buf.subrange(colon + 1, colon + 1 + n) == ext.subrange(
                    colon + 1,
                    colon + 1 + n,
                ));
            },
            Err(_) => {},
        }
    }
}

/// Whatever the parser decides of the rest of a list, it decides in every buffer
/// that this one begins; and the list ends after `idx` and within the first buffer.
pub proof fn lemma_parse_items_stable(buf: Seq<u8>, ext: Seq<u8>, idx: int, acc: Seq<Datum>)
    requires
        begins(buf, ext),
        spec_parse_items(buf, idx, acc) != Err::<(Datum, int), ParseError>(ParseError::NeedMore),
    ensures
        spec_parse_items(ext, idx, acc) == spec_parse_items(buf, idx, acc),
        spec_parse_items(buf, idx, acc) matches Ok((_, next)) ==> idx < next <= buf.len(),
    decreases buf.len() - idx, 1int,
{
    lemma_begins_index(buf, ext);
    if buf[idx] != END {
        lemma_parse_stable(buf, ext, idx);
        match spec_parse_at(buf, idx) {
            Ok((item, next)) => {
                lemma_parse_items_stable(buf, ext, next, acc.push(item));
            },
            Err(_) => {},
        }
    }
}

/// Whatever the parser decides of the rest of a dictionary, it decides in every
/// buffer that this one begins; and the dictionary ends after `idx` and within the
/// first buffer.
pub proof fn lemma_parse_entries_stable(
    buf: Seq<u8>,
    ext: Seq<u8>,
    idx: int,
    acc: Seq<(Seq<u8>, Datum)>,
)
    requires
        begins(buf, ext),
        spec_parse_entries(buf, idx, acc) != Err::<(Datum, int), ParseError>(ParseError::NeedMore),
    ensures
        spec_parse_entries(ext, idx, acc) == spec_parse_entries(buf, idx, acc),
        spec_parse_entries(buf, idx, acc) matches Ok((_, next)) ==> idx < next <= buf.len(),
    decreases buf.len() - idx, 1int,
{
    lemma_begins_index(buf, ext);
    if buf[idx] != END {
        lemma_parse_stable(buf, ext, idx);
        match spec_parse_at(buf, idx) {
            Ok((key, next)) => {
                match key {
                    Datum::Bytes(k) => {
                        lemma_parse_stable(buf, ext, next);
                        match spec_parse_at(buf, next) {
                            Ok((value, after)) => {
                                lemma_parse_entries_stable(
                                    buf,
                                    ext,
                                    after,
                                    entries_insert(acc, k, value),
                                );
                            },
                            Err(_) => {},
                        }
                    },
                    _ => {},
                }
            },
            Err(_) => {},
        }
    }
}

/// Every value that the parser finds is well formed: whatever the order and the
/// number of the keys in the input, the dictionaries in the value have each key
/// once, in ascending order.
pub proof fn lemma_parse_wf(buf: Seq<u8>, idx: int)
    ensures
        spec_parse_at(buf, idx) matches Ok((v, _)) ==> v.wf(),
    decreases buf.len() - idx, 0int,
{
    if 0 <= idx < buf.len() {
        if buf[idx] == INT_START {
        } else if buf[idx] == LIST_START {
            lemma_parse_items_wf(buf, idx + 1, Seq::empty());
        } else if buf[idx] == DICT_START {
            lemma_parse_entries_wf(buf, idx + 1, Seq::empty());
        } else if is_digit(buf[idx]) {
            lemma_find_first(buf, idx, COLON);
        }
    }
}

/// A list that the parser finds is well formed, if the items before `idx` are.
pub proof fn lemma_parse_items_wf(buf: Seq<u8>, idx: int, acc: Seq<Datum>)
    requires
        list_wf(acc),
    ensures
        spec_parse_items(buf, idx, acc) matches Ok((v, _)) ==> v.wf(),
    decreases buf.len() - idx, 1int,
{
    if 0 <= idx < buf.len() && buf[idx] != END {
        lemma_parse_wf(buf, idx);
        match spec_parse_at(buf, idx) {
            Ok((item, next)) => {
                if idx < next <= buf.len() {
                    lemma_list_push_wf(acc, item);
                    lemma_parse_items_wf(buf, next, acc.push(item));
                }
            },
            Err(_) => {},
        }
    }
}

/// A dictionary that the parser finds is well formed, if the entries before `idx`
/// are.
pub proof fn lemma_parse_entries_wf(buf: Seq<u8>, idx: int, acc: Seq<(Seq<u8>, Datum)>)
    requires
        dict_wf(acc),
    ensures
        spec_parse_entries(buf, idx, acc) matches Ok((v, _)) ==> v.wf(),
    decreases buf.len() - idx, 1int,
{
    if 0 <= idx < buf.len() && buf[idx] != END {
        lemma_parse_wf(buf, idx);
        match spec_parse_at(buf, idx) {
            Ok((key, next)) => {
                if idx < next <= buf.len() {
                    match key {
                        Datum::Bytes(k) => {
                            lemma_parse_wf(buf, next);
                            match spec_parse_at(buf, next) {
                                Ok((value, after)) => {
                                    if next < after <= buf.len() {
                                        lemma_insert_wf(acc, k, value);
                                        lemma_parse_entries_wf(
                                            buf,
                                            after,
                                            entries_insert(acc, k, value),
                                        );
                                    }
                                },
                                Err(_) => {},
                            }
                        },
                        _ => {},
                    }
                }
            },
            Err(_) => {},
        }
    }
}

/// A value that the parser finds ends within the buffer: the parser reads nothing
/// past the end.
pub proof fn theorem_parse_within(buf: Seq<u8>, idx: int)
    ensures
        spec_parse_at(buf, idx) matches Ok((_, next)) ==> idx < next <= buf.len(),
{
    if spec_parse_at(buf, idx) is Ok {
        assert(buf.take(buf.len() as int) =~= buf);
        lemma_parse_stable(buf, buf, idx);
    }
}

/// Once the parser has found a value, or found the input invalid, no byte that
/// arrives later changes that: not the value, not the number of bytes consumed,
/// not the reason.
pub proof fn theorem_parse_stable(buf: Seq<u8>, more: Seq<u8>)
    requires
        spec_parse_at(buf, 0) != Err::<(Datum, int), ParseError>(ParseError::NeedMore),
    ensures
        spec_parse_at(buf + more, 0) == spec_parse_at(buf, 0),
{
    assert((buf + more).take(buf.len() as int) =~= buf);
    lemma_parse_stable(buf, buf + more, 0);
}

/// A value needs all of its bytes: while fewer have arrived than the parser
/// consumes for it, the parser asks for more. So a message that arrives in pieces,
/// of whatever sizes, is decoded when its last byte arrives, to the same value and
/// the same length as when it arrives whole.
pub proof fn theorem_parse_needs_whole(buf: Seq<u8>, k: int)
    requires
        spec_parse_at(buf, 0) is Ok,
        0 <= k < spec_parse_at(buf, 0)->Ok_0.1,
    ensures
        spec_parse_at(buf.take(k), 0) == Err::<(Datum, int), ParseError>(ParseError::NeedMore),
{
    theorem_parse_within(buf, 0);
    let part = buf.take(k);
    if spec_parse_at(part, 0) != Err::<(Datum, int), ParseError>(ParseError::NeedMore) {
        assert(buf.take(part.len() as int) =~= part);
        lemma_parse_stable(part, buf, 0);
    }
}

/// What the parser finds in any input, it finds again in the encoding of what it
/// found: decoding brings every accepted input to canonical form.
pub proof fn theorem_parse_canonical(buf: Seq<u8>)
    requires
        spec_parse_at(buf, 0) is Ok,
    ensures
        spec_parse_at(buf, 0)->Ok_0.0.wf(),
        spec_parse_at(spec_encode(spec_parse_at(buf, 0)->Ok_0.0), 0) == Ok::<
            (Datum, int),
            ParseError,
        >((spec_parse_at(buf, 0)->Ok_0.0, spec_encode(spec_parse_at(buf, 0)->Ok_0.0).len() as int)),
{
    lemma_parse_wf(buf, 0);
    let v = spec_parse_at(buf, 0)->Ok_0.0;
    theorem_roundtrip(v, Seq::empty());
    assert(spec_encode(v) + Seq::<u8>::empty() =~= spec_encode(v));
}

/// Two buffers have the same first `n` bytes.
pub open spec fn agree(a: Seq<u8>, b: Seq<u8>, n: int) -> bool {
    0 <= n <= a.len() && n <= b.len() && a.take(n) == b.take(n)
}

/// Buffers that agree on their first `n` bytes agree on every byte and every range
/// among them, and on their first `k` bytes for every `k` up to `n`.
pub proof fn lemma_agree_index(a: Seq<u8>, b: Seq<u8>, n: int)
    requires
        agree(a, b, n),
    ensures
        forall|i: int| 0 <= i < n ==> a[i] == b[i],
        forall|i: int, j: int|
            0 <= i <= j <= n ==> #[trigger] a.subrange(i, j) == b.subrange(i, j),
        forall|k: int| 0 <= k <= n ==> #[trigger] agree(a, b, k),
{
    assert forall|i: int| 0 <= i < n implies a[i] == b[i] by {
        assert(a.take(n)[i] == a[i]);
        assert(b.take(n)[i] == b[i]);
    }
    assert forall|i: int, j: int| 0 <= i <= j <= n implies #[trigger] a.subrange(i, j)
        == b.subrange(i, j) by {
        assert(a.subrange(i, j) =~= b.subrange(i, j));
    }
    assert forall|k: int| 0 <= k <= n implies #[trigger] agree(a, b, k) by {
        assert(a.take(k) =~= b.take(k));
    }
}

/// A `byte` found in one buffer is found at the same place in a buffer that agrees
/// with it up to and with that byte.
pub proof fn lemma_find_agree(a: Seq<u8>, b: Seq<u8>, from: int, byte: u8)
    requires
        0 <= from <= a.len(),
        find_byte(a, from, byte) < a.len(),
        agree(a, b, find_byte(a, from, byte) + 1),
    ensures
        find_byte(b, from, byte) == find_byte(a, from, byte),
    decreases a.len() - from,
{
    lemma_find_first(a, from, byte);
    lemma_agree_index(a, b, find_byte(a, from, byte) + 1);
    if a[from] != byte {
        lemma_find_agree(a, b, from + 1, byte);
    }
}

/// The value that the parser finds at `idx` depends on the bytes that it consumes
/// alone: it finds the same value, ending at the same index, in every buffer that
/// agrees with this one up to that index.
pub proof fn lemma_parse_agree(a: Seq<u8>, b: Seq<u8>, idx: int)
    requires
        spec_parse_at(a, idx) is Ok,
        agree(a, b, spec_parse_at(a, idx)->Ok_0.1),
    ensures
        spec_parse_at(b, idx) == spec_parse_at(a, idx),
    decreases a.len() - idx, 0int,
{
    let n = spec_parse_at(a, idx)->Ok_0.1;
    theorem_parse_within(a, idx);
    lemma_agree_index(a, b, n);
    if a[idx] == INT_START {
        lemma_find_first(a, idx + 1, END);
        lemma_find_agree(a, b, idx + 1, END);
    } else if a[idx] == LIST_START {
        lemma_parse_items_agree(a, b, idx + 1, Seq::empty());
    } else if a[idx] == DICT_START {
        lemma_parse_entries_agree(a, b, idx + 1, Seq::empty());
    } else if is_digit(a[idx]) {
        lemma_find_first(a, idx, COLON);
        let colon = find_byte(a, idx, COLON);
        assert(agree(a, b, colon + 1));
        lemma_find_agree(a, b, idx, COLON);
    }
}

/// The list that the parser finds depends on the bytes that it consumes alone.
pub proof fn lemma_parse_items_agree(a: Seq<u8>, b: Seq<u8>, idx: int, acc: Seq<Datum>)
    requires
        spec_parse_items(a, idx, acc) is Ok,
        agree(a, b, spec_parse_items(a, idx, acc)->Ok_0.1),
    ensures
        spec_parse_items(b, idx, acc) == spec_parse_items(a, idx, acc),
    decreases a.len() - idx, 1int,
{
    let n = spec_parse_items(a, idx, acc)->Ok_0.1;
    assert(a.take(a.len() as int) =~= a);
    lemma_parse_items_stable(a, a, idx, acc);
    lemma_agree_index(a, b, n);
    if a[idx] != END {
        match spec_parse_at(a, idx) {
            Ok((item, next)) => {
                lemma_parse_items_stable(a, a, next, acc.push(item));
                assert(agree(a, b, next));
                lemma_parse_agree(a, b, idx);
                lemma_parse_items_agree(a, b, next, acc.push(item));
            },
            Err(_) => {},
        }
    }
}

/// The dictionary that the parser finds depends on the bytes that it consumes
/// alone.
pub proof fn lemma_parse_entries_agree(
    a: Seq<u8>,
    b: Seq<u8>,
    idx: int,
    acc: Seq<(Seq<u8>, Datum)>,
)
    requires
        spec_parse_entries(a, idx, acc) is Ok,
        agree(a, b, spec_parse_entries(a, idx, acc)->Ok_0.1),
    ensures
        spec_parse_entries(b, idx, acc) == spec_parse_entries(a, idx, acc),
    decreases a.len() - idx, 1int,
{
    let n = spec_parse_entries(a, idx, acc)->Ok_0.1;
    assert(a.take(a.len() as int) =~= a);
    lemma_parse_entries_stable(a, a, idx, acc);
    lemma_agree_index(a, b, n);
    if a[idx] != END {
        match spec_parse_at(a, idx) {
            Ok((key, next)) => {
                match key {
                    Datum::Bytes(k) => {
                        match spec_parse_at(a, next) {
                            Ok((value, after)) => {
                                let grown = entries_insert(acc, k, value);
                                lemma_parse_entries_stable(a, a, after, grown);
                                theorem_parse_within(a, next);
                                assert(agree(a, b, next));
                                assert(agree(a, b, after));
                                lemma_parse_agree(a, b, idx);
                                lemma_parse_agree(a, b, next);
                                lemma_parse_entries_agree(a, b, after, grown);
                            },
                            Err(_) => {},
                        }
                    },
                    _ => {},
                }
            },
            Err(_) => {},
        }
    }
}

/// The parser consumes exactly what a value needs and looks at nothing else: two
/// buffers that agree on the bytes consumed for a value give the same value and
/// the same consumed length, whatever stands behind those bytes in either.
pub proof fn theorem_parse_consumed_only(a: Seq<u8>, b: Seq<u8>)
    requires
        spec_parse_at(a, 0) is Ok,
        agree(a, b, spec_parse_at(a, 0)->Ok_0.1),
    ensures
        spec_parse_at(b, 0) == spec_parse_at(a, 0),
{
    lemma_parse_agree(a, b, 0);
}

} // verus!

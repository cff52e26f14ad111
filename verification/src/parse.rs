//! The incremental parser: one value from the front of a buffer that may still grow.

use crate::ascii::{COLON, DICT_START, DIGIT_0, DIGIT_9, END, INT_START, LIST_START};
use crate::decimal::{is_digit, parse_int, parse_len, spec_parse_int, spec_parse_len};
use crate::dict::{dict_insert, entries_insert, lemma_insert_wf};
use crate::error::{InvalidKind, ParseError};
use crate::value::{
    copy_bytes, dict_wf, entries_view, items_view, lemma_items_view_push, lemma_list_push_wf,
    list_wf, Bencode, Datum,
};
use vstd::prelude::*;
use vstd::slice::slice_subrange;

verus! {

/// The index of the first `byte` in `buf` at or after `from`, or the length of `buf`
/// if there is none.
pub open spec fn find_byte(buf: Seq<u8>, from: int, byte: u8) -> int
    decreases buf.len() - from,
{
    if from >= buf.len() {
        buf.len() as int
    } else if buf[from] == byte {
        from
    } else {
        find_byte(buf, from + 1, byte)
    }
}

/// What the parser makes of `buf` from `idx` on: the value that starts there and the
/// index after its last byte, or `NeedMore` where `buf` ends before the value does,
/// or `Invalid` where no value can start like this.
///
/// The first byte decides the kind. `i` starts an integer, whose text runs to the
/// next `e`. A digit starts a byte string: a length up to the next `:`, then that
/// many bytes. `l` starts a list and `d` a dictionary, which run to the `e` that
/// stands where their next item or key would start.
pub open spec fn spec_parse_at(buf: Seq<u8>, idx: int) -> Result<(Datum, int), ParseError>
    decreases buf.len() - idx, 0int,
{
    if idx < 0 || idx >= buf.len() {
        Err(ParseError::NeedMore)
    } else if buf[idx] == INT_START {
        let end = find_byte(buf, idx + 1, END);
        if end >= buf.len() {
            Err(ParseError::NeedMore)
        } else {
            match spec_parse_int(buf.subrange(idx + 1, end)) {
                Ok(n) => Ok((Datum::Int(n), end + 1)),
                Err(e) => Err(e),
            }
        }
    } else if buf[idx] == LIST_START {
        spec_parse_items(buf, idx + 1, Seq::empty())
    } else if buf[idx] == DICT_START {
        spec_parse_entries(buf, idx + 1, Seq::empty())
    } else if is_digit(buf[idx]) {
        let colon = find_byte(buf, idx, COLON);
        if colon >= buf.len() {
            Err(ParseError::NeedMore)
        } else {
            match spec_parse_len(buf.subrange(idx, colon)) {
                Ok(n) => if colon + 1 + n > buf.len() {
                    Err(ParseError::NeedMore)
                } else {
                    Ok((Datum::Bytes(buf.subrange(colon + 1, colon + 1 + n)), colon + 1 + n))
                },
                Err(e) => Err(e),
            }
        }
    } else {
        Err(ParseError::Invalid(InvalidKind::Prefix))
    }
}

/// The rest of a list whose items so far are `acc` and whose next item, or closing
/// `e`, is at `idx`.
///
/// A parsed value always ends after it starts and within the buffer; the test of
/// that here only makes the definition well founded.
pub open spec fn spec_parse_items(buf: Seq<u8>, idx: int, acc: Seq<Datum>) -> Result<
    (Datum, int),
    ParseError,
>
    decreases buf.len() - idx, 1int,
{
    if idx < 0 || idx >= buf.len() {
        Err(ParseError::NeedMore)
    } else if buf[idx] == END {
        Ok((Datum::List(acc), idx + 1))
    } else {
        match spec_parse_at(buf, idx) {
            Ok((item, next)) => if next <= idx || next > buf.len() {
                Err(ParseError::NeedMore)
            } else {
                spec_parse_items(buf, next, acc.push(item))
            },
            Err(e) => Err(e),
        }
    }
}

/// The rest of a dictionary whose entries so far are `acc` and whose next key, or
/// closing `e`, is at `idx`. A key must be a byte string; a key that occurs again
/// is bound anew, so that the last of its values stays.
pub open spec fn spec_parse_entries(buf: Seq<u8>, idx: int, acc: Seq<(Seq<u8>, Datum)>) -> Result<
    (Datum, int),
    ParseError,
>
    decreases buf.len() - idx, 1int,
{
    if idx < 0 || idx >= buf.len() {
        Err(ParseError::NeedMore)
    } else if buf[idx] == END {
        Ok((Datum::Dict(acc), idx + 1))
    } else {
        match spec_parse_at(buf, idx) {
            Ok((key, next)) => if next <= idx || next > buf.len() {
                Err(ParseError::NeedMore)
            } else {
                match key {
                    Datum::Bytes(k) => match spec_parse_at(buf, next) {
                        Ok((value, after)) => if after <= next || after > buf.len() {
                            Err(ParseError::NeedMore)
                        } else {
                            spec_parse_entries(buf, after, entries_insert(acc, k, value))
                        },
                        Err(e) => Err(e),
                    },
                    _ => Err(ParseError::Invalid(InvalidKind::DictKey)),
                }
            },
            Err(e) => Err(e),
        }
    }
}

/// The index of the first `byte` in `buf` at or after `from`, or the length of `buf`.
fn find(buf: &[u8], from: usize, byte: u8) -> (r: usize)
    requires
        from <= buf@.len(),
    ensures
        r == find_byte(buf@, from as int, byte),
        from <= r <= buf@.len(),
{
    let mut i: usize = from;
    while i < buf.len() && buf[i] != byte
        invariant
            from <= i <= buf@.len(),
            find_byte(buf@, from as int, byte) == find_byte(buf@, i as int, byte),
        decreases buf@.len() - i,
    {
        i = i + 1;
    }
    i
}

/// Parses the value that starts at `idx` in `buf`.
///
/// Returns the value and the index after its last byte; `NeedMore` where `buf` ends
/// before the value does; `Invalid` where no value can start like this.
pub fn parse_at(buf: &[u8], idx: usize) -> (r: Result<(Bencode, usize), ParseError>)
    ensures
        match r {
            Ok((val, next)) => {
                &&& spec_parse_at(buf@, idx as int) == Ok::<(Datum, int), ParseError>(
                    (val@, next as int),
                )
                &&& val@.wf()
                &&& idx < next <= buf@.len()
            },
            Err(e) => spec_parse_at(buf@, idx as int) == Err::<(Datum, int), ParseError>(e),
        },
    decreases buf@.len() - idx,
{
    if idx >= buf.len() {
        return Err(ParseError::NeedMore);
    }
    let first: u8 = buf[idx];
    if first == INT_START {
        let end = find(buf, idx + 1, END);
        if end >= buf.len() {
            return Err(ParseError::NeedMore);
        }
        match parse_int(slice_subrange(buf, idx + 1, end)) {
            Ok(n) => Ok((Bencode::Int(n), end + 1)),
            Err(e) => Err(e),
        }
    } else if first == LIST_START {
        let mut list: Vec<Bencode> = Vec::new();
        let mut pos: usize = idx + 1;
        proof {
            assert(items_view(list@) =~= Seq::<Datum>::empty());
        }
        loop
            invariant
                idx < pos <= buf@.len(),
                spec_parse_at(buf@, idx as int) == spec_parse_items(
                    buf@,
                    pos as int,
                    items_view(list@),
                ),
                list_wf(items_view(list@)),
            decreases buf@.len() - pos,
        {
            if pos >= buf.len() {
                return Err(ParseError::NeedMore);
            }
            if buf[pos] == END {
                return Ok((Bencode::List(list), pos + 1));
            }
            match parse_at(buf, pos) {
                Ok((item, next)) => {
                    proof {
                        lemma_items_view_push(list@, item);
                        lemma_list_push_wf(items_view(list@), item@);
                    }
                    list.push(item);
                    pos = next;
                },
                Err(e) => {
                    return Err(e);
                },
            }
        }
    } else if first == DICT_START {
        let mut dict: Vec<(Vec<u8>, Bencode)> = Vec::new();
        let mut pos: usize = idx + 1;
        proof {
            assert(entries_view(dict@) =~= Seq::<(Seq<u8>, Datum)>::empty());
        }
        loop
            invariant
                idx < pos <= buf@.len(),
                spec_parse_at(buf@, idx as int) == spec_parse_entries(
                    buf@,
                    pos as int,
                    entries_view(dict@),
                ),
                dict_wf(entries_view(dict@)),
            decreases buf@.len() - pos,
        {
            if pos >= buf.len() {
                return Err(ParseError::NeedMore);
            }
            if buf[pos] == END {
                return Ok((Bencode::Dict(dict), pos + 1));
            }
            let (key, next) = match parse_at(buf, pos) {
                Ok(found) => found,
                Err(e) => {
                    return Err(e);
                },
            };
            let key_bytes = match key {
                Bencode::Bytes(b) => b,
                _ => {
                    return Err(ParseError::Invalid(InvalidKind::DictKey));
                },
            };
            let (value, after) = match parse_at(buf, next) {
                Ok(found) => found,
                Err(e) => {
                    return Err(e);
                },
            };
            proof {
                lemma_insert_wf(entries_view(dict@), key_bytes@, value@);
            }
            dict_insert(&mut dict, key_bytes, value);
            pos = after;
        }
    } else if first >= DIGIT_0 && first <= DIGIT_9 {
        let colon = find(buf, idx, COLON);
        if colon >= buf.len() {
            return Err(ParseError::NeedMore);
        }
        let len = match parse_len(slice_subrange(buf, idx, colon)) {
            Ok(n) => n,
            Err(e) => {
                return Err(e);
            },
        };
        let start: usize = colon + 1;
        if len > buf.len() - start {
            return Err(ParseError::NeedMore);
        }
        let bytes = copy_bytes(slice_subrange(buf, start, start + len));
        Ok((Bencode::Bytes(bytes), start + len))
    } else {
        Err(ParseError::Invalid(InvalidKind::Prefix))
    }
}

} // verus!

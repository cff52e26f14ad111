//! The keys of requests and responses, and how they stand to one another.

use crate::value::bytes_lt;
use vstd::prelude::*;
use vstd::string::StringSliceAdditionalSpecFns;
use vstd::utf8::{is_ascii_chars, is_ascii_chars_encode_utf8};

verus! {

/// A byte string comes before another where the two agree on their first `k` bytes
/// and its next byte is the smaller one.
pub proof fn lemma_lt_at(a: Seq<u8>, b: Seq<u8>, k: int)
    requires
        0 <= k < a.len(),
        k < b.len(),
        forall|i: int| 0 <= i < k ==> a[i] == b[i],
        a[k] < b[k],
    ensures
        bytes_lt(a, b),
    decreases k,
{
    if k > 0 {
        lemma_lt_at(a.skip(1), b.skip(1), k - 1);
    }
}

/// The bytes of a text of ASCII characters are its characters.
pub proof fn lemma_ascii_bytes(s: &str)
    requires
        is_ascii_chars(s@),
    ensures
        s.spec_bytes().len() == s@.len(),
        forall|i: int| 0 <= i < s@.len() ==> (#[trigger] s.spec_bytes()[i]) == s@[i] as u8,
{
    is_ascii_chars_encode_utf8(s@);
}

/// The keys of the catalogue of operations in ascending order.
pub proof fn lemma_describe_keys()
    ensures
        bytes_lt("arglists".spec_bytes(), "doc".spec_bytes()),
        bytes_lt("doc".spec_bytes(), "name".spec_bytes()),
        bytes_lt("name".spec_bytes(), "vars".spec_bytes()),
        bytes_lt("format".spec_bytes(), "id".spec_bytes()),
        bytes_lt("id".spec_bytes(), "namespaces".spec_bytes()),
        bytes_lt("namespaces".spec_bytes(), "op".spec_bytes()),
        bytes_lt("arglists".spec_bytes(), "name".spec_bytes()),
        bytes_lt("format".spec_bytes(), "namespaces".spec_bytes()),
        bytes_lt("format".spec_bytes(), "op".spec_bytes()),
        bytes_lt("id".spec_bytes(), "op".spec_bytes()),
{
    reveal_strlit("arglists");
    reveal_strlit("doc");
    reveal_strlit("name");
    reveal_strlit("vars");
    reveal_strlit("format");
    reveal_strlit("id");
    reveal_strlit("namespaces");
    reveal_strlit("op");
    lemma_ascii_bytes("arglists");
    lemma_ascii_bytes("doc");
    lemma_ascii_bytes("name");
    lemma_ascii_bytes("vars");
    lemma_ascii_bytes("format");
    lemma_ascii_bytes("id");
    lemma_ascii_bytes("namespaces");
    lemma_ascii_bytes("op");
    lemma_lt_at("arglists".spec_bytes(), "doc".spec_bytes(), 0);
    lemma_lt_at("doc".spec_bytes(), "name".spec_bytes(), 0);
    lemma_lt_at("name".spec_bytes(), "vars".spec_bytes(), 0);
    lemma_lt_at("format".spec_bytes(), "id".spec_bytes(), 0);
    lemma_lt_at("id".spec_bytes(), "namespaces".spec_bytes(), 0);
    lemma_lt_at("namespaces".spec_bytes(), "op".spec_bytes(), 0);
    lemma_lt_at("arglists".spec_bytes(), "name".spec_bytes(), 0);
    lemma_lt_at("format".spec_bytes(), "namespaces".spec_bytes(), 0);
    lemma_lt_at("format".spec_bytes(), "op".spec_bytes(), 0);
    lemma_lt_at("id".spec_bytes(), "op".spec_bytes(), 0);
}

/// The keys of the responses to an invocation in ascending order.
pub proof fn lemma_invoke_keys()
    ensures
        bytes_lt("ex-message".spec_bytes(), "ex-type".spec_bytes()),
        bytes_lt("ex-type".spec_bytes(), "id".spec_bytes()),
        bytes_lt("id".spec_bytes(), "op".spec_bytes()),
        bytes_lt("op".spec_bytes(), "value".spec_bytes()),
        bytes_lt("ex-message".spec_bytes(), "id".spec_bytes()),
        bytes_lt("ex-message".spec_bytes(), "op".spec_bytes()),
        bytes_lt("ex-type".spec_bytes(), "op".spec_bytes()),
        bytes_lt("id".spec_bytes(), "value".spec_bytes()),
{
    reveal_strlit("ex-message");
    reveal_strlit("ex-type");
    reveal_strlit("id");
    reveal_strlit("op");
    reveal_strlit("value");
    lemma_ascii_bytes("ex-message");
    lemma_ascii_bytes("ex-type");
    lemma_ascii_bytes("id");
    lemma_ascii_bytes("op");
    lemma_ascii_bytes("value");
    lemma_lt_at("ex-message".spec_bytes(), "ex-type".spec_bytes(), 3);
    lemma_lt_at("ex-type".spec_bytes(), "id".spec_bytes(), 0);
    lemma_lt_at("id".spec_bytes(), "op".spec_bytes(), 0);
    lemma_lt_at("op".spec_bytes(), "value".spec_bytes(), 0);
    lemma_lt_at("ex-message".spec_bytes(), "id".spec_bytes(), 0);
    lemma_lt_at("ex-message".spec_bytes(), "op".spec_bytes(), 0);
    lemma_lt_at("ex-type".spec_bytes(), "op".spec_bytes(), 0);
    lemma_lt_at("id".spec_bytes(), "value".spec_bytes(), 0);
}

} // verus!

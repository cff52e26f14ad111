//! Responses: the dictionaries that answer requests, and their encodings.

use crate::dict::{
    dict_insert, entries_get, entries_insert, lemma_get_absent, lemma_insert_between,
    lemma_insert_wf,
};
use crate::keys::{lemma_describe_keys, lemma_invoke_keys};
use crate::encode::{encode_bencode, spec_encode};
use crate::value::{
    copy_bytes, dict_wf, entries_view, lemma_bytes_lt_irreflexive, Bencode, Datum,
};
use vstd::prelude::*;
use vstd::string::StringSliceAdditionalSpecFns;

verus! {

/// The value that an optional value in memory stands for.
pub open spec fn option_view(v: Option<Bencode>) -> Option<Datum> {
    match v {
        Some(b) => Some(b@),
        None => None,
    }
}

/// True when the value, if there is one, is well formed.
pub open spec fn option_wf(v: Option<Datum>) -> bool {
    match v {
        Some(d) => d.wf(),
        None => true,
    }
}

/// The entries that named values in memory stand for, each name as its bytes.
pub open spec fn pairs_view(pairs: Seq<(&str, Bencode)>) -> Seq<(Seq<u8>, Datum)> {
    Seq::new(pairs.len(), |i: int| (pairs[i].0.spec_bytes(), pairs[i].1@))
}

/// `acc` after each of `pairs` is bound in turn, so that of two pairs with one key
/// the later stays.
pub open spec fn insert_all(acc: Seq<(Seq<u8>, Datum)>, pairs: Seq<(Seq<u8>, Datum)>) -> Seq<
    (Seq<u8>, Datum),
>
    decreases pairs.len(),
{
    if pairs.len() == 0 {
        acc
    } else {
        insert_all(entries_insert(acc, pairs[0].0, pairs[0].1), pairs.skip(1))
    }
}

/// The response that carries `pairs`, and `id` under the key `id` if the request had
/// one. A pair with the key `id` replaces the request's.
pub open spec fn spec_response_map(id: Option<Datum>, pairs: Seq<(Seq<u8>, Datum)>) -> Datum {
    Datum::Dict(
        insert_all(
            match id {
                Some(v) => entries_insert(Seq::empty(), "id".spec_bytes(), v),
                None => Seq::empty(),
            },
            pairs,
        ),
    )
}

/// The byte string that holds the text `s`.
pub fn text_value(s: &str) -> (r: Bencode)
    ensures
        r@ == Datum::Bytes(s.spec_bytes()),
        r@.wf(),
{
    Bencode::Bytes(copy_bytes(s.as_bytes()))
}

/// Builds the response that carries `pairs`, and `id` under the key `id` if the
/// request had one.
pub fn response_map(id: Option<Bencode>, pairs: Vec<(&str, Bencode)>) -> (r: Bencode)
    ensures
        r@ == spec_response_map(option_view(id), pairs_view(pairs@)),
        option_wf(option_view(id)) && (forall|i: int|
            0 <= i < pairs@.len() ==> (#[trigger] pairs@[i]).1@.wf()) ==> r@.wf(),
{
    let ghost all_wf = option_wf(option_view(id)) && (forall|i: int|
        0 <= i < pairs@.len() ==> (#[trigger] pairs@[i]).1@.wf());
    let ghost given = pairs_view(pairs@);
    let mut dict: Vec<(Vec<u8>, Bencode)> = Vec::new();
    proof {
        assert(entries_view(dict@) =~= Seq::<(Seq<u8>, Datum)>::empty());
    }
    match id {
        Some(v) => {
            let key = copy_bytes("id".as_bytes());
            proof {
                if all_wf {
                    lemma_insert_wf(entries_view(dict@), key@, v@);
                }
            }
            dict_insert(&mut dict, key, v);
        },
        None => {},
    }
    let mut rest = pairs;
    while rest.len() > 0
        invariant
            spec_response_map(option_view(id), given) == Datum::Dict(
                insert_all(entries_view(dict@), pairs_view(rest@)),
            ),
            all_wf ==> dict_wf(entries_view(dict@)),
            all_wf ==> forall|i: int| 0 <= i < rest@.len() ==> (#[trigger] rest@[i]).1@.wf(),
        decreases rest@.len(),
    {
        let ghost before = rest@;
        let (name, value) = rest.remove(0);
        let key = copy_bytes(name.as_bytes());
        proof {
            assert(pairs_view(before)[0] == (key@, value@));
            assert(pairs_view(rest@) =~= pairs_view(before).skip(1));
            if all_wf {
                assert(before[0].1@.wf());
                lemma_insert_wf(entries_view(dict@), key@, value@);
                assert forall|i: int| 0 <= i < rest@.len() implies (#[trigger] rest@[i]).1@.wf(
                ) by {
                    assert(rest@[i] == before[i + 1]);
                }
            }
        }
        dict_insert(&mut dict, key, value);
    }
    Bencode::Dict(dict)
}

/// The entry `id` of a response: the request's `id`, if it had one.
pub open spec fn id_entry(id: Option<Datum>) -> Seq<(Seq<u8>, Datum)> {
    match id {
        Some(v) => seq![("id".spec_bytes(), v)],
        None => Seq::empty(),
    }
}

/// The entry of the one operation in the catalogue: its arguments, what
/// it does, and its name.
pub open spec fn describe_var() -> Datum {
    Datum::Dict(
        seq![
            ("arglists".spec_bytes(), Datum::Bytes("([m])".spec_bytes())),
            (
                "doc".spec_bytes(),
                Datum::Bytes("Compute eigenvalues for a 6x6 matrix.".spec_bytes()),
            ),
            ("name".spec_bytes(), Datum::Bytes("eigenvalues".spec_bytes())),
        ],
    )
}

/// The one namespace of the catalogue, with its one operation.
pub open spec fn describe_namespace() -> Datum {
    Datum::Dict(
        seq![
            ("name".spec_bytes(), Datum::Bytes("pod.eigs".spec_bytes())),
            ("vars".spec_bytes(), Datum::List(seq![describe_var()])),
        ],
    )
}

/// The response to `describe`: the catalogue of operations, in the format `json`,
/// with the request's `id` if it had one.
pub open spec fn describe_response(id: Option<Datum>) -> Datum {
    Datum::Dict(
        seq![("format".spec_bytes(), Datum::Bytes("json".spec_bytes()))] + id_entry(id) + seq![
            ("namespaces".spec_bytes(), Datum::List(seq![describe_namespace()])),
            ("op".spec_bytes(), Datum::Bytes("describe".spec_bytes())),
        ],
    )
}

/// The response that reports the failure `message` of an invocation, with the
/// request's `id` if it had one.
pub open spec fn error_response(id: Option<Datum>, message: Seq<u8>) -> Datum {
    Datum::Dict(
        seq![
            ("ex-message".spec_bytes(), Datum::Bytes(message)),
            ("ex-type".spec_bytes(), Datum::Bytes("Exception".spec_bytes())),
        ] + id_entry(id) + seq![("op".spec_bytes(), Datum::Bytes("invoke".spec_bytes()))],
    )
}

/// The response that carries the result `value` of an invocation, with the
/// request's `id` if it had one.
pub open spec fn value_response(id: Option<Datum>, value: Seq<u8>) -> Datum {
    Datum::Dict(
        id_entry(id) + seq![
            ("op".spec_bytes(), Datum::Bytes("invoke".spec_bytes())),
            ("value".spec_bytes(), Datum::Bytes(value)),
        ],
    )
}

/// Binding two pairs in turn.
proof fn lemma_insert_all_2(
    acc: Seq<(Seq<u8>, Datum)>,
    a: (Seq<u8>, Datum),
    b: (Seq<u8>, Datum),
)
    ensures
        insert_all(acc, seq![a, b]) == entries_insert(entries_insert(acc, a.0, a.1), b.0, b.1),
{
    reveal_with_fuel(insert_all, 3);
    assert(seq![a, b].skip(1) =~= seq![b]);
    assert(seq![b].skip(1) =~= Seq::<(Seq<u8>, Datum)>::empty());
}

/// Binding three pairs in turn.
proof fn lemma_insert_all_3(
    acc: Seq<(Seq<u8>, Datum)>,
    a: (Seq<u8>, Datum),
    b: (Seq<u8>, Datum),
    c: (Seq<u8>, Datum),
)
    ensures
        insert_all(acc, seq![a, b, c]) == entries_insert(
            entries_insert(entries_insert(acc, a.0, a.1), b.0, b.1),
            c.0,
            c.1,
        ),
{
    assert(seq![a, b, c].skip(1) =~= seq![b, c]);
    lemma_insert_all_2(entries_insert(acc, a.0, a.1), b, c);
}

/// The request's `id`, bound in an empty dictionary, is the entry `id`.
proof fn lemma_id_entry(id: Option<Datum>)
    ensures
        id_entry(id) == (match id {
            Some(v) => entries_insert(Seq::empty(), "id".spec_bytes(), v),
            None => Seq::empty(),
        }),
{
    match id {
        Some(v) => {
            lemma_insert_between(Seq::empty(), "id".spec_bytes(), v, 0);
            assert(Seq::<(Seq<u8>, Datum)>::empty().insert(0, ("id".spec_bytes(), v)) =~= id_entry(
                id,
            ));
        },
        None => {},
    }
}

/// The entry of the operation is what its three pairs build.
proof fn lemma_describe_var()
    ensures
        spec_response_map(
            None,
            seq![
                ("name".spec_bytes(), Datum::Bytes("eigenvalues".spec_bytes())),
                (
                    "doc".spec_bytes(),
                    Datum::Bytes("Compute eigenvalues for a 6x6 matrix.".spec_bytes()),
                ),
                ("arglists".spec_bytes(), Datum::Bytes("([m])".spec_bytes())),
            ],
        ) == describe_var(),
{
    let name = ("name".spec_bytes(), Datum::Bytes("eigenvalues".spec_bytes()));
    let doc = (
        "doc".spec_bytes(),
        Datum::Bytes("Compute eigenvalues for a 6x6 matrix.".spec_bytes()),
    );
    let arglists = ("arglists".spec_bytes(), Datum::Bytes("([m])".spec_bytes()));
    let e0 = Seq::<(Seq<u8>, Datum)>::empty();
    lemma_describe_keys();
    lemma_insert_all_3(e0, name, doc, arglists);
    lemma_insert_between(e0, name.0, name.1, 0);
    let e1 = e0.insert(0, name);
    assert(e1 =~= seq![name]);
    lemma_insert_between(e1, doc.0, doc.1, 0);
    let e2 = e1.insert(0, doc);
    assert(e2 =~= seq![doc, name]);
    lemma_insert_between(e2, arglists.0, arglists.1, 0);
    assert(e2.insert(0, arglists) =~= seq![arglists, doc, name]);
}

/// The namespace is what its two pairs build.
proof fn lemma_describe_namespace()
    ensures
        spec_response_map(
            None,
            seq![
                ("name".spec_bytes(), Datum::Bytes("pod.eigs".spec_bytes())),
                ("vars".spec_bytes(), Datum::List(seq![describe_var()])),
            ],
        ) == describe_namespace(),
{
    let name = ("name".spec_bytes(), Datum::Bytes("pod.eigs".spec_bytes()));
    let vars = ("vars".spec_bytes(), Datum::List(seq![describe_var()]));
    let e0 = Seq::<(Seq<u8>, Datum)>::empty();
    lemma_describe_keys();
    lemma_insert_all_2(e0, name, vars);
    lemma_insert_between(e0, name.0, name.1, 0);
    let e1 = e0.insert(0, name);
    assert(e1 =~= seq![name]);
    lemma_insert_between(e1, vars.0, vars.1, 1);
    assert(e1.insert(1, vars) =~= seq![name, vars]);
}

/// The response to `describe` is what its three pairs and the `id` build.
proof fn lemma_describe_response(id: Option<Datum>)
    ensures
        spec_response_map(
            id,
            seq![
                ("op".spec_bytes(), Datum::Bytes("describe".spec_bytes())),
                ("format".spec_bytes(), Datum::Bytes("json".spec_bytes())),
                ("namespaces".spec_bytes(), Datum::List(seq![describe_namespace()])),
            ],
        ) == describe_response(id),
{
    let op = ("op".spec_bytes(), Datum::Bytes("describe".spec_bytes()));
    let format = ("format".spec_bytes(), Datum::Bytes("json".spec_bytes()));
    let namespaces = ("namespaces".spec_bytes(), Datum::List(seq![describe_namespace()]));
    let e0 = id_entry(id);
    let n = e0.len() as int;
    lemma_id_entry(id);
    lemma_describe_keys();
    lemma_insert_all_3(e0, op, format, namespaces);
    lemma_insert_between(e0, op.0, op.1, n);
    let e1 = e0.insert(n, op);
    assert(e1 =~= id_entry(id) + seq![op]);
    lemma_insert_between(e1, format.0, format.1, 0);
    let e2 = e1.insert(0, format);
    assert(e2 =~= seq![format] + id_entry(id) + seq![op]);
    lemma_insert_between(e2, namespaces.0, namespaces.1, n + 1);
    assert(e2.insert(n + 1, namespaces) =~= seq![format] + id_entry(id) + seq![namespaces, op]);
}

/// The response to a failed invocation is what its three pairs and the `id` build.
proof fn lemma_error_response(id: Option<Datum>, message: Seq<u8>)
    ensures
        spec_response_map(
            id,
            seq![
                ("op".spec_bytes(), Datum::Bytes("invoke".spec_bytes())),
                ("ex-message".spec_bytes(), Datum::Bytes(message)),
                ("ex-type".spec_bytes(), Datum::Bytes("Exception".spec_bytes())),
            ],
        ) == error_response(id, message),
{
    let op = ("op".spec_bytes(), Datum::Bytes("invoke".spec_bytes()));
    let ex_message = ("ex-message".spec_bytes(), Datum::Bytes(message));
    let ex_type = ("ex-type".spec_bytes(), Datum::Bytes("Exception".spec_bytes()));
    let e0 = id_entry(id);
    let n = e0.len() as int;
    lemma_id_entry(id);
    lemma_invoke_keys();
    lemma_insert_all_3(e0, op, ex_message, ex_type);
    lemma_insert_between(e0, op.0, op.1, n);
    let e1 = e0.insert(n, op);
    assert(e1 =~= id_entry(id) + seq![op]);
    lemma_insert_between(e1, ex_message.0, ex_message.1, 0);
    let e2 = e1.insert(0, ex_message);
    assert(e2 =~= seq![ex_message] + id_entry(id) + seq![op]);
    lemma_insert_between(e2, ex_type.0, ex_type.1, 1);
    assert(e2.insert(1, ex_type) =~= seq![ex_message, ex_type] + id_entry(id) + seq![op]);
}

/// The response to an invocation is what its two pairs and the `id` build.
proof fn lemma_value_response(id: Option<Datum>, value: Seq<u8>)
    ensures
        spec_response_map(
            id,
            seq![
                ("op".spec_bytes(), Datum::Bytes("invoke".spec_bytes())),
                ("value".spec_bytes(), Datum::Bytes(value)),
            ],
        ) == value_response(id, value),
{
    let op = ("op".spec_bytes(), Datum::Bytes("invoke".spec_bytes()));
    let val = ("value".spec_bytes(), Datum::Bytes(value));
    let e0 = id_entry(id);
    let n = e0.len() as int;
    lemma_id_entry(id);
    lemma_invoke_keys();
    lemma_insert_all_2(e0, op, val);
    lemma_insert_between(e0, op.0, op.1, n);
    let e1 = e0.insert(n, op);
    assert(e1 =~= id_entry(id) + seq![op]);
    lemma_insert_between(e1, val.0, val.1, n + 1);
    assert(e1.insert(n + 1, val) =~= id_entry(id) + seq![op, val]);
}

/// Every response carries the request's `id` under the key `id`, and none where the
/// request had none.
pub proof fn theorem_response_id(id: Option<Datum>, text: Seq<u8>)
    ensures
        entries_get(describe_response(id)->Dict_0, "id".spec_bytes()) == id,
        entries_get(error_response(id, text)->Dict_0, "id".spec_bytes()) == id,
        entries_get(value_response(id, text)->Dict_0, "id".spec_bytes()) == id,
{
    let key = "id".spec_bytes();
    lemma_describe_keys();
    lemma_invoke_keys();
    lemma_bytes_lt_irreflexive(key);
    reveal_with_fuel(entries_get, 5);
    let d = describe_response(id)->Dict_0;
    let e = error_response(id, text)->Dict_0;
    let v = value_response(id, text)->Dict_0;
    match id {
        Some(x) => {
            assert(d.skip(1)[0] == (key, x));
            assert(e.skip(1).skip(1)[0] == (key, x));
            assert(v[0] == (key, x));
        },
        None => {
            assert(d.len() == 3 && e.len() == 3 && v.len() == 2);
            lemma_get_absent(d, key);
            lemma_get_absent(e, key);
            lemma_get_absent(v, key);
        },
    }
}

/// A list with the one item `item`.
fn list_of(item: Bencode) -> (r: Bencode)
    ensures
        r@ == Datum::List(seq![item@]),
        item@.wf() ==> r@.wf(),
{
    let mut items: Vec<Bencode> = Vec::new();
    items.push(item);
    proof {
        crate::value::lemma_items_view(items@);
        assert(crate::value::items_view(items@) =~= seq![item@]);
    }
    Bencode::List(items)
}

/// The encoded response to `describe`: the catalogue of operations, with the request's
/// `id` if it had one.
pub fn handle_describe(id: Option<Bencode>) -> (out: Vec<u8>)
    requires
        option_wf(option_view(id)),
    ensures
        out@ == spec_encode(describe_response(option_view(id))),
        describe_response(option_view(id)).wf(),
{
    let var_pairs = vec![
        ("name", text_value("eigenvalues")),
        ("doc", text_value("Compute eigenvalues for a 6x6 matrix.")),
        ("arglists", text_value("([m])")),
    ];
    proof {
        assert(pairs_view(var_pairs@) =~= seq![
            ("name".spec_bytes(), Datum::Bytes("eigenvalues".spec_bytes())),
            (
                "doc".spec_bytes(),
                Datum::Bytes("Compute eigenvalues for a 6x6 matrix.".spec_bytes()),
            ),
            ("arglists".spec_bytes(), Datum::Bytes("([m])".spec_bytes())),
        ]);
    }
    let var = response_map(None, var_pairs);
    proof {
        lemma_describe_var();
    }
    let ns_pairs = vec![("name", text_value("pod.eigs")), ("vars", list_of(var))];
    proof {
        assert(pairs_view(ns_pairs@) =~= seq![
            ("name".spec_bytes(), Datum::Bytes("pod.eigs".spec_bytes())),
            ("vars".spec_bytes(), Datum::List(seq![describe_var()])),
        ]);
    }
    let ns = response_map(None, ns_pairs);
    proof {
        lemma_describe_namespace();
    }
    let pairs = vec![
        ("op", text_value("describe")),
        ("format", text_value("json")),
        ("namespaces", list_of(ns)),
    ];
    proof {
        assert(pairs_view(pairs@) =~= seq![
            ("op".spec_bytes(), Datum::Bytes("describe".spec_bytes())),
            ("format".spec_bytes(), Datum::Bytes("json".spec_bytes())),
            ("namespaces".spec_bytes(), Datum::List(seq![describe_namespace()])),
        ]);
        lemma_describe_response(option_view(id));
    }
    let resp = response_map(id, pairs);
    encode_bencode(&resp)
}

/// The encoded response that reports the failure `msg` of an invocation, with the
/// request's `id` if it had one.
pub fn write_error(id: Option<Bencode>, msg: &str) -> (out: Vec<u8>)
    requires
        option_wf(option_view(id)),
    ensures
        out@ == spec_encode(error_response(option_view(id), msg.spec_bytes())),
        error_response(option_view(id), msg.spec_bytes()).wf(),
{
    let pairs = vec![
        ("op", text_value("invoke")),
        ("ex-message", text_value(msg)),
        ("ex-type", text_value("Exception")),
    ];
    proof {
        assert(pairs_view(pairs@) =~= seq![
            ("op".spec_bytes(), Datum::Bytes("invoke".spec_bytes())),
            ("ex-message".spec_bytes(), Datum::Bytes(msg.spec_bytes())),
            ("ex-type".spec_bytes(), Datum::Bytes("Exception".spec_bytes())),
        ]);
        lemma_error_response(option_view(id), msg.spec_bytes());
    }
    let resp = response_map(id, pairs);
    encode_bencode(&resp)
}

/// The encoded response that carries the result `value` of an invocation, with the
/// request's `id` if it had one.
pub fn write_value(id: Option<Bencode>, value: &str) -> (out: Vec<u8>)
    requires
        option_wf(option_view(id)),
    ensures
        out@ == spec_encode(value_response(option_view(id), value.spec_bytes())),
        value_response(option_view(id), value.spec_bytes()).wf(),
{
    let pairs = vec![("op", text_value("invoke")), ("value", text_value(value))];
    proof {
        assert(pairs_view(pairs@) =~= seq![
            ("op".spec_bytes(), Datum::Bytes("invoke".spec_bytes())),
            ("value".spec_bytes(), Datum::Bytes(value.spec_bytes())),
        ]);
        lemma_value_response(option_view(id), value.spec_bytes());
    }
    let resp = response_map(id, pairs);
    encode_bencode(&resp)
}

} // verus!

//! Structured text: the argument of an invocation as a tree of plain values.

use crate::value::bytes_eq;
use vstd::prelude::*;
use vstd::string::StringSliceAdditionalSpecFns;
use vstd::utf8::encode_utf8;

verus! {

/// A document of `serde_json`. The library carries one through as it is and sees
/// nothing of what it holds.
#[verifier::external_type_specification]
#[verifier::external_body]
pub struct ExJsonDocument(serde_json::Value);

/// A structured-text value as a mathematical object.
///
/// A number is held as the bit pattern of its double-precision value, a string as
/// its UTF-8 bytes, and an object as its members in the order in which the decoder
/// hands them out.
pub enum JsonValue {
    Null,
    Bool(bool),
    Number(Option<u64>),
    Text(Seq<u8>),
    Array(Seq<JsonValue>),
    Object(Seq<(Seq<u8>, JsonValue)>),
}

/// A structured-text value as held in memory.
#[derive(Debug)]
pub enum Json {
    Null,
    Bool(bool),
    Number(Option<u64>),
    Text(Vec<u8>),
    Array(Vec<Json>),
    Object(Vec<(Vec<u8>, Json)>),
}

/// The value that a structured-text value in memory stands for.
pub open spec fn json_value_of(j: Json) -> JsonValue
    decreases j,
{
    match j {
        Json::Null => JsonValue::Null,
        Json::Bool(b) => JsonValue::Bool(b),
        Json::Number(n) => JsonValue::Number(n),
        Json::Text(bytes) => JsonValue::Text(bytes@),
        Json::Array(items) => JsonValue::Array(json_items_view(items@)),
        Json::Object(members) => JsonValue::Object(json_members_view(members@)),
    }
}

/// The values that a vector of structured-text values in memory stands for.
pub open spec fn json_items_view(items: Seq<Json>) -> Seq<JsonValue>
    decreases items,
{
    if items.len() == 0 {
        Seq::empty()
    } else {
        json_items_view(items.drop_last()).push(json_value_of(items.last()))
    }
}

/// The members that a vector of members in memory stands for.
pub open spec fn json_members_view(members: Seq<(Vec<u8>, Json)>) -> Seq<(Seq<u8>, JsonValue)>
    decreases members,
{
    if members.len() == 0 {
        Seq::empty()
    } else {
        json_members_view(members.drop_last()).push(
            (members.last().0@, json_value_of(members.last().1)),
        )
    }
}

impl View for Json {
    type V = JsonValue;

    open spec fn view(&self) -> JsonValue {
        json_value_of(*self)
    }
}

/// What [`serde_json::from_slice`] makes of `bytes` as a `serde_json::Value`, as
/// a tree of plain values: the document that the bytes spell, or nothing where they
/// spell none.
pub uninterp spec fn json_decoded(bytes: Seq<u8>) -> Option<JsonValue>;

/// Turns a document of `serde_json` into a tree of plain values, variant by
/// variant: a number by `serde_json::Number::as_f64` and the bits of what it
/// returns, a string and a member's name by their bytes.
#[verifier::external_body]
fn json_from_document(doc: serde_json::Value) -> Json {
    match doc {
        serde_json::Value::Null => Json::Null,
        serde_json::Value::Bool(b) => Json::Bool(b),
        serde_json::Value::Number(n) => Json::Number(n.as_f64().map(|x| x.to_bits())),
        serde_json::Value::String(s) => Json::Text(s.into_bytes()),
        serde_json::Value::Array(items) => Json::Array(
            items.into_iter().map(json_from_document).collect(),
        ),
        serde_json::Value::Object(members) => Json::Object(
            members.into_iter().map(|(k, v)| (k.into_bytes(), json_from_document(v))).collect(),
        ),
    }
}

/// Decodes `bytes` with [`serde_json::from_slice`]. The result depends on the bytes
/// alone: the decoder reads nothing else.
#[verifier::external_body]
pub(crate) fn parse_json(bytes: &[u8]) -> (r: Option<Json>)
    ensures
        match r {
            Some(j) => json_decoded(bytes@) == Some(j@),
            None => json_decoded(bytes@) is None,
        },
{
    match serde_json::from_slice::<serde_json::Value>(bytes) {
        Ok(doc) => Some(json_from_document(doc)),
        Err(_) => None,
    }
}

/// The view of a vector of values has the view of each value at its index.
pub proof fn lemma_json_items_view(items: Seq<Json>)
    ensures
        json_items_view(items).len() == items.len(),
        forall|i: int|
            0 <= i < items.len() ==> (#[trigger] json_items_view(items)[i]) == items[i]@,
    decreases items.len(),
{
    if items.len() > 0 {
        lemma_json_items_view(items.drop_last());
    }
}

/// The view of a vector of members has the view of each member at its index.
pub proof fn lemma_json_members_view(members: Seq<(Vec<u8>, Json)>)
    ensures
        json_members_view(members).len() == members.len(),
        forall|i: int|
            0 <= i < members.len() ==> (#[trigger] json_members_view(members)[i]) == (
                members[i].0@,
                members[i].1@,
            ),
    decreases members.len(),
{
    if members.len() > 0 {
        lemma_json_members_view(members.drop_last());
    }
}

/// The value of the first of `members` whose name is `name`.
pub open spec fn members_get(members: Seq<(Seq<u8>, JsonValue)>, name: Seq<u8>) -> Option<
    JsonValue,
>
    decreases members.len(),
{
    if members.len() == 0 {
        None
    } else if members[0].0 == name {
        Some(members[0].1)
    } else {
        members_get(members.skip(1), name)
    }
}

/// The member `name` of `j`, where `j` is an object that has one.
pub open spec fn spec_json_field(j: JsonValue, name: Seq<u8>) -> Option<JsonValue> {
    match j {
        JsonValue::Object(members) => members_get(members, name),
        _ => None,
    }
}

/// The member `name` of `json`, where `json` is an object that has one.
pub fn json_field<'a>(json: &'a Json, name: &str) -> (r: Option<&'a Json>)
    ensures
        match r {
            Some(v) => spec_json_field(json@, name.spec_bytes()) == Some(v@),
            None => spec_json_field(json@, name.spec_bytes()) is None,
        },
{
    match json {
        Json::Object(members) => {
            let wanted = name.as_bytes();
            let ghost views = json_members_view(members@);
            proof {
                lemma_json_members_view(members@);
                assert(views.skip(0) =~= views);
            }
            let mut i: usize = 0;
            while i < members.len()
                invariant
                    i <= members@.len(),
                    wanted@ == name.spec_bytes(),
                    json@ == JsonValue::Object(views),
                    views == json_members_view(members@),
                    views.len() == members@.len(),
                    forall|j: int|
                        0 <= j < members@.len() ==> (#[trigger] views[j]) == (
                            members@[j].0@,
                            members@[j].1@,
                        ),
                    members_get(views, wanted@) == members_get(views.skip(i as int), wanted@),
                decreases members@.len() - i,
            {
                proof {
                    assert(views.skip(i as int)[0] == views[i as int]);
                    assert(views.skip(i as int).skip(1) =~= views.skip(i + 1));
                }
                if bytes_eq(members[i].0.as_slice(), wanted) {
                    return Some(&members[i].1);
                }
                i = i + 1;
            }
            None
        },
        _ => None,
    }
}

/// The one argument that a document gives: the document itself, or the one item
/// of an array. An array of no item or of several gives none.
pub open spec fn spec_single_argument(j: JsonValue) -> Option<JsonValue> {
    match j {
        JsonValue::Array(items) => if items.len() == 1 {
            Some(items[0])
        } else {
            None
        },
        other => Some(other),
    }
}

/// Takes the one argument out of a document.
pub fn single_argument(json: Json) -> (r: Option<Json>)
    ensures
        match r {
            Some(j) => spec_single_argument(json@) == Some(j@),
            None => spec_single_argument(json@) is None,
        },
{
    match json {
        Json::Array(items) => {
            proof {
                lemma_json_items_view(items@);
            }
            let mut items = items;
            if items.len() == 1 {
                Some(items.remove(0))
            } else {
                None
            }
        },
        other => Some(other),
    }
}

/// What [`serde_json::to_string`] makes of a document: the bytes of the text that
/// it writes, or nothing where it fails.
pub uninterp spec fn json_text(doc: serde_json::Value) -> Option<Seq<u8>>;

/// Writes a document as text with [`serde_json::to_string`]; `None` where that
/// function fails. The result depends on the document alone.
#[verifier::external_body]
pub(crate) fn json_to_string(doc: &serde_json::Value) -> (r: Option<String>)
    ensures
        match r {
            Some(s) => json_text(*doc) == Some(encode_utf8(s@)),
            None => json_text(*doc) is None,
        },
{
    match serde_json::to_string(doc) {
        Ok(s) => Some(s),
        Err(_) => None,
    }
}

} // verus!

//! The request dispatcher: from a decoded message to what the worker does next.

use crate::dict::{dict_get, entries_get, lemma_get_wf};
use crate::encode::spec_encode;
use crate::json::{
    json_decoded, json_text, json_to_string, parse_json, single_argument, spec_single_argument,
    Json, JsonValue,
};
use crate::matrix::{build_matrix, spec_build_matrix, MatrixInput, CELLS};
use crate::respond::{
    describe_response, error_response, handle_describe, option_view, option_wf, value_response,
    write_error, write_value,
};
use crate::text::string_from_utf8;
use crate::value::{
    bytes_eq, copy_bytes, dict_wf, entries_view, lemma_items_view, Bencode, Datum,
};
use vstd::prelude::*;
use vstd::string::StringSliceAdditionalSpecFns;
use vstd::utf8::{decode_utf8, encode_utf8, valid_utf8};

verus! {

/// An invocation that is ready to run: the matrix, and the `id` to answer with.
#[derive(Debug)]
pub struct Job {
    pub id: Option<Bencode>,
    pub matrix: MatrixInput,
}

/// What the worker does for a message.
#[derive(Debug)]
pub enum Action {
    /// Write these bytes, and flush.
    Reply(Vec<u8>),
    /// Take the eigenvalues of the matrix, and answer with `finish_invoke`.
    Compute(Job),
    /// Nothing: the message gets no response.
    Nothing,
}

/// An action as a mathematical object.
pub enum ActionView {
    Reply(Seq<u8>),
    Compute { id: Option<Datum>, cells: Seq<u64>, symmetric: bool },
    Nothing,
}

impl View for Action {
    type V = ActionView;

    open spec fn view(&self) -> ActionView {
        match self {
            Action::Reply(bytes) => ActionView::Reply(bytes@),
            Action::Compute(job) => ActionView::Compute {
                id: option_view(job.id),
                cells: job.matrix.cells@,
                symmetric: job.matrix.symmetric,
            },
            Action::Nothing => ActionView::Nothing,
        }
    }
}

/// The text that a value holds: that of a byte string that is well-formed UTF-8.
pub open spec fn spec_bencode_str(v: Datum) -> Option<Seq<char>> {
    match v {
        Datum::Bytes(bytes) => if valid_utf8(bytes) {
            Some(decode_utf8(bytes))
        } else {
            None
        },
        _ => None,
    }
}

/// The text that `val` holds, if it is a byte string that is well-formed UTF-8.
pub fn bencode_str(val: &Bencode) -> (r: Option<String>)
    ensures
        match r {
            Some(s) => spec_bencode_str(val@) == Some(s@),
            None => spec_bencode_str(val@) is None,
        },
{
    match val {
        Bencode::Bytes(bytes) => {
            let r = string_from_utf8(copy_bytes(bytes.as_slice()));
            proof {
                if r is Some {
                    vstd::utf8::encode_utf8_decode_utf8(r->0@);
                }
            }
            r
        },
        _ => None,
    }
}

/// The argument text of an invocation: a byte string, bare or as the one item of a
/// list.
pub open spec fn spec_invoke_args(args: Option<Datum>) -> Option<Seq<u8>> {
    match args {
        Some(Datum::Bytes(bytes)) => Some(bytes),
        Some(Datum::List(items)) => if items.len() == 1 {
            match items[0] {
                Datum::Bytes(bytes) => Some(bytes),
                _ => None,
            }
        } else {
            None
        },
        _ => None,
    }
}

/// The encoded response that reports the failure `message` of the invocation `id`.
pub open spec fn failure(id: Option<Datum>, message: &str) -> ActionView {
    ActionView::Reply(spec_encode(error_response(id, message.spec_bytes())))
}

/// The document that a document in memory stands for, if there is one.
pub open spec fn document_view(doc: Option<Json>) -> Option<JsonValue> {
    match doc {
        Some(j) => Some(j@),
        None => None,
    }
}

/// What the worker does for the invocation `id` once the argument text is decoded:
/// `doc` is the document, or nothing where the text is none.
///
/// The checks come in this order, and the first that fails decides the response:
/// the text is a document; the document gives one argument; the argument gives a
/// matrix.
pub open spec fn spec_invoke_document(id: Option<Datum>, doc: Option<JsonValue>) -> ActionView {
    match doc {
        None => failure(id, "invalid json input"),
        Some(doc) => match spec_single_argument(doc) {
            None => failure(id, "expected single arg map"),
            Some(input) => match spec_build_matrix(input) {
                Err(e) => failure(id, e.text()),
                Ok((cells, symmetric)) => ActionView::Compute { id, cells, symmetric },
            },
        },
    }
}

/// What the worker does for an `invoke` request with the entries `entries`.
///
/// The checks come in this order, and the first that fails decides the response:
/// `var` is text; it names the operation; `args` gives the argument text; and then
/// those on the decoded text.
pub open spec fn spec_handle_invoke(entries: Seq<(Seq<u8>, Datum)>) -> ActionView {
    let id = entries_get(entries, "id".spec_bytes());
    let var = match entries_get(entries, "var".spec_bytes()) {
        Some(v) => spec_bencode_str(v),
        None => None,
    };
    if var is None {
        failure(id, "missing var")
    } else if var->0 != "pod.eigs/eigenvalues"@ {
        failure(id, "unknown var")
    } else {
        match spec_invoke_args(entries_get(entries, "args".spec_bytes())) {
            None => failure(id, "missing args"),
            Some(text) => spec_invoke_document(id, json_decoded(text)),
        }
    }
}

/// The operation that a message asks for.
#[derive(Clone, Copy, Debug, PartialEq, Eq, Structural)]
pub enum Op {
    Describe,
    Invoke,
    Shutdown,
    /// Any other operation, and any message that names none.
    Unknown,
}

/// The operation that the message `msg` asks for: what its entry `op` names.
pub open spec fn spec_op(msg: Datum) -> Op {
    match msg {
        Datum::Dict(entries) => match entries_get(entries, "op".spec_bytes()) {
            Some(Datum::Bytes(name)) => if name == "describe".spec_bytes() {
                Op::Describe
            } else if name == "invoke".spec_bytes() {
                Op::Invoke
            } else if name == "shutdown".spec_bytes() {
                Op::Shutdown
            } else {
                Op::Unknown
            },
            _ => Op::Unknown,
        },
        _ => Op::Unknown,
    }
}

/// What the worker does for the message `msg`: it answers `describe` with the
/// catalogue of operations, handles `invoke`, and gives no response to anything
/// else.
pub open spec fn spec_handle_message(msg: Datum) -> ActionView {
    match spec_op(msg) {
        Op::Describe => ActionView::Reply(
            spec_encode(describe_response(entries_get(msg->Dict_0, "id".spec_bytes()))),
        ),
        Op::Invoke => spec_handle_invoke(msg->Dict_0),
        Op::Shutdown => ActionView::Nothing,
        Op::Unknown => ActionView::Nothing,
    }
}

/// Every `describe` request gets a response, every `invoke` request gets a response
/// or a computation that ends in one, and nothing else gets any.
pub proof fn theorem_one_response(msg: Datum)
    ensures
        spec_op(msg) == Op::Describe ==> spec_handle_message(msg) is Reply,
        spec_op(msg) == Op::Invoke ==> spec_handle_message(msg) is Reply || spec_handle_message(
            msg,
        ) is Compute,
        spec_op(msg) == Op::Shutdown || spec_op(msg) == Op::Unknown ==> spec_handle_message(msg)
            is Nothing,
{
}

/// A copy of the entry `id` of a request, if it has one.
fn request_id(dict: &Vec<(Vec<u8>, Bencode)>) -> (r: Option<Bencode>)
    requires
        dict_wf(entries_view(dict@)),
    ensures
        option_view(r) == entries_get(entries_view(dict@), "id".spec_bytes()),
        option_wf(option_view(r)),
{
    proof {
        lemma_get_wf(entries_view(dict@), "id".spec_bytes());
    }
    match dict_get(dict, "id") {
        Some(v) => Some(v.clone()),
        None => None,
    }
}

/// The argument text of an invocation.
fn invoke_args(dict: &Vec<(Vec<u8>, Bencode)>) -> (r: Option<&Vec<u8>>)
    ensures
        match r {
            Some(bytes) => spec_invoke_args(entries_get(entries_view(dict@), "args".spec_bytes()))
                == Some(bytes@),
            None => spec_invoke_args(entries_get(entries_view(dict@), "args".spec_bytes()))
                is None,
        },
{
    match dict_get(dict, "args") {
        Some(Bencode::Bytes(bytes)) => Some(bytes),
        Some(Bencode::List(items)) => {
            proof {
                lemma_items_view(items@);
            }
            if items.len() == 1 {
                match &items[0] {
                    Bencode::Bytes(bytes) => Some(bytes),
                    _ => None,
                }
            } else {
                None
            }
        },
        _ => None,
    }
}

/// Handles the invocation `id` once the argument text is decoded: `doc` is the
/// document, or nothing where the text is none. Hands back the matrix to take the
/// eigenvalues of, or the encoded response that reports what is wrong.
pub fn invoke_document(id: Option<Bencode>, doc: Option<Json>) -> (r: Action)
    requires
        option_wf(option_view(id)),
    ensures
        r@ == spec_invoke_document(option_view(id), document_view(doc)),
        r matches Action::Compute(job) ==> job.matrix.cells@.len() == CELLS && option_wf(
            option_view(job.id),
        ),
{
    let doc = match doc {
        Some(doc) => doc,
        None => {
            return Action::Reply(write_error(id, "invalid json input"));
        },
    };
    let input = match single_argument(doc) {
        Some(input) => input,
        None => {
            return Action::Reply(write_error(id, "expected single arg map"));
        },
    };
    match build_matrix(&input) {
        Ok(matrix) => Action::Compute(Job { id, matrix }),
        Err(e) => Action::Reply(write_error(id, e.message())),
    }
}

/// Handles an `invoke` request: checks it, and hands back the matrix to take the
/// eigenvalues of, or the encoded response that reports what is wrong.
pub fn handle_invoke(dict: &Vec<(Vec<u8>, Bencode)>) -> (r: Action)
    requires
        dict_wf(entries_view(dict@)),
    ensures
        r@ == spec_handle_invoke(entries_view(dict@)),
        r matches Action::Compute(job) ==> job.matrix.cells@.len() == CELLS && option_wf(
            option_view(job.id),
        ),
{
    let id = request_id(dict);
    let var = match dict_get(dict, "var") {
        Some(v) => bencode_str(v),
        None => None,
    };
    let var = match var {
        Some(v) => v,
        None => {
            return Action::Reply(write_error(id, "missing var"));
        },
    };
    if !str_eq(var.as_str(), "pod.eigs/eigenvalues") {
        return Action::Reply(write_error(id, "unknown var"));
    }
    let text = match invoke_args(dict) {
        Some(bytes) => bytes,
        None => {
            return Action::Reply(write_error(id, "missing args"));
        },
    };
    invoke_document(id, parse_json(text.as_slice()))
}

/// Whether two texts are the same.
pub fn str_eq(a: &str, b: &str) -> (r: bool)
    ensures
        r == (a@ == b@),
{
    proof {
        vstd::utf8::encode_utf8_decode_utf8(a@);
        vstd::utf8::encode_utf8_decode_utf8(b@);
    }
    bytes_eq(a.as_bytes(), b.as_bytes())
}

/// The operation that `msg` asks for.
pub fn message_op(msg: &Bencode) -> (r: Op)
    ensures
        r == spec_op(msg@),
{
    match msg {
        Bencode::Dict(dict) => match dict_get(dict, "op") {
            Some(Bencode::Bytes(name)) => {
                if bytes_eq(name.as_slice(), "describe".as_bytes()) {
                    Op::Describe
                } else if bytes_eq(name.as_slice(), "invoke".as_bytes()) {
                    Op::Invoke
                } else if bytes_eq(name.as_slice(), "shutdown".as_bytes()) {
                    Op::Shutdown
                } else {
                    Op::Unknown
                }
            },
            _ => Op::Unknown,
        },
        _ => Op::Unknown,
    }
}

/// Dispatches the message `msg`: answers `describe`, handles `invoke`, and gives no
/// response to anything else.
pub fn handle_message(msg: Bencode) -> (r: Action)
    requires
        msg@.wf(),
    ensures
        r@ == spec_handle_message(msg@),
        r matches Action::Compute(job) ==> job.matrix.cells@.len() == CELLS && option_wf(
            option_view(job.id),
        ),
{
    match message_op(&msg) {
        Op::Describe => match &msg {
            Bencode::Dict(dict) => Action::Reply(handle_describe(request_id(dict))),
            _ => Action::Nothing,
        },
        Op::Invoke => match &msg {
            Bencode::Dict(dict) => handle_invoke(dict),
            _ => Action::Nothing,
        },
        Op::Shutdown => Action::Nothing,
        Op::Unknown => Action::Nothing,
    }
}

/// The encoded response to an invocation whose outcome is `outcome`: the result
/// text, or the message of the failure.
pub open spec fn invoke_response(id: Option<Datum>, outcome: Result<Seq<u8>, Seq<u8>>) -> Seq<u8> {
    match outcome {
        Ok(text) => spec_encode(value_response(id, text)),
        Err(message) => spec_encode(error_response(id, message)),
    }
}

/// The bytes of the text of an outcome.
pub open spec fn outcome_bytes(outcome: Result<String, String>) -> Result<Seq<u8>, Seq<u8>> {
    match outcome {
        Ok(text) => Ok(encode_utf8(text@)),
        Err(message) => Err(encode_utf8(message@)),
    }
}

/// Encodes the response to an invocation `id` whose outcome is `outcome`: the
/// result text, or the message of the failure.
pub fn invoke_reply(id: Option<Bencode>, outcome: Result<String, String>) -> (out: Vec<u8>)
    requires
        option_wf(option_view(id)),
    ensures
        out@ == invoke_response(option_view(id), outcome_bytes(outcome)),
{
    match outcome {
        Ok(text) => write_value(id, text.as_str()),
        Err(message) => write_error(id, message.as_str()),
    }
}

/// What an invocation ended in, as bytes: the text of the result document, or the
/// message of the failure. A document that cannot be written as text counts as a
/// failure with a message of its own.
pub open spec fn finished_outcome(outcome: Result<serde_json::Value, String>) -> Result<
    Seq<u8>,
    Seq<u8>,
> {
    match outcome {
        Ok(doc) => match json_text(doc) {
            Some(text) => Ok(text),
            None => Err("failed to serialize output".spec_bytes()),
        },
        Err(message) => Err(encode_utf8(message@)),
    }
}

/// Encodes the response to an invocation `id` that ended in `outcome`: the document
/// of the result, or the message of the failure.
///
/// A failure is reported with its message. A result is written as text and sent as
/// the response's `value`; where it cannot be written as text, that is reported as
/// a failure.
pub fn finish_invoke(id: Option<Bencode>, outcome: Result<serde_json::Value, String>) -> (out: Vec<
    u8,
>)
    requires
        option_wf(option_view(id)),
    ensures
        out@ == invoke_response(option_view(id), finished_outcome(outcome)),
{
    match outcome {
        Ok(doc) => match json_to_string(&doc) {
            Some(text) => invoke_reply(id, Ok(text)),
            None => write_error(id, "failed to serialize output"),
        },
        Err(message) => invoke_reply(id, Err(message)),
    }
}

} // verus!

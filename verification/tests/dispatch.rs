use pod_eigs::dict::{dict_get, dict_get_bytes, dict_insert};
use pod_eigs::dispatch::{
    bencode_str, finish_invoke, handle_invoke, handle_message, invoke_document, invoke_reply,
    message_op, str_eq, Action, Op,
};
use pod_eigs::json::Json;
use pod_eigs::encode::encode_bencode;
use pod_eigs::parse::parse_at;
use pod_eigs::respond::{handle_describe, response_map, text_value, write_error, write_value};
use pod_eigs::value::{bencode_int, Bencode};

fn text(s: &str) -> Bencode {
    Bencode::Bytes(s.as_bytes().to_vec())
}

fn dict(pairs: Vec<(&str, Bencode)>) -> Vec<(Vec<u8>, Bencode)> {
    let mut out: Vec<(Vec<u8>, Bencode)> = Vec::new();
    for (k, v) in pairs {
        dict_insert(&mut out, k.as_bytes().to_vec(), v);
    }
    out
}

fn decode(bytes: &[u8]) -> Vec<(Vec<u8>, Bencode)> {
    let (v, used) = parse_at(bytes, 0).expect("a whole response");
    assert_eq!(used, bytes.len());
    match v {
        Bencode::Dict(entries) => entries,
        _ => panic!("a dictionary"),
    }
}

fn bytes_at<'a>(d: &'a Vec<(Vec<u8>, Bencode)>, key: &str) -> &'a [u8] {
    match dict_get(d, key) {
        Some(Bencode::Bytes(b)) => b.as_slice(),
        _ => panic!("no byte string under {}", key),
    }
}

fn reply(action: Action) -> Vec<u8> {
    match action {
        Action::Reply(bytes) => bytes,
        other => panic!("expected a reply, got {:?}", other),
    }
}

fn invoke(args: Bencode) -> Bencode {
    Bencode::Dict(dict(vec![
        ("op", text("invoke")),
        ("id", text("7")),
        ("var", text("pod.eigs/eigenvalues")),
        ("args", args),
    ]))
}

fn error_of(action: Action) -> String {
    let d = decode(&reply(action));
    assert_eq!(bytes_at(&d, "op"), b"invoke");
    assert_eq!(bytes_at(&d, "ex-type"), b"Exception");
    assert_eq!(bytes_at(&d, "id"), b"7");
    assert!(dict_get(&d, "value").is_none());
    String::from_utf8(bytes_at(&d, "ex-message").to_vec()).unwrap()
}

fn identity_rows() -> String {
    let mut rows = Vec::new();
    for i in 0..6 {
        let row: Vec<&str> = (0..6).map(|j| if i == j { "1" } else { "0" }).collect();
        rows.push(format!("[{}]", row.join(",")));
    }
    format!("[{}]", rows.join(","))
}

#[test]
fn dict_get_finds_entries() {
    let d = dict(vec![("b", Bencode::Int(2)), ("a", Bencode::Int(1))]);
    assert_eq!(dict_get(&d, "a").and_then(bencode_int), Some(1));
    assert_eq!(dict_get(&d, "b").and_then(bencode_int), Some(2));
    assert!(dict_get(&d, "c").is_none());
    assert!(dict_get(&d, "").is_none());
    assert_eq!(dict_get_bytes(&d, b"b").and_then(bencode_int), Some(2));
    assert!(dict_get(&Vec::new(), "a").is_none());
}

#[test]
fn bencode_int_reads_integers_only() {
    assert_eq!(bencode_int(&Bencode::Int(-5)), Some(-5));
    assert_eq!(bencode_int(&text("5")), None);
    assert_eq!(bencode_int(&Bencode::List(vec![Bencode::Int(1)])), None);
}

#[test]
fn bencode_str_reads_utf8_byte_strings_only() {
    assert_eq!(bencode_str(&text("héllo")), Some("héllo".to_string()));
    assert_eq!(bencode_str(&text("")), Some(String::new()));
    assert_eq!(bencode_str(&Bencode::Bytes(vec![0xff, 0xfe])), None);
    assert_eq!(bencode_str(&Bencode::Bytes(vec![0xc3])), None);
    assert_eq!(bencode_str(&Bencode::Int(1)), None);
}

#[test]
fn str_eq_compares_texts() {
    assert!(str_eq("abc", "abc"));
    assert!(!str_eq("abc", "abd"));
    assert!(!str_eq("abc", "ab"));
    assert!(str_eq("", ""));
}

#[test]
fn text_value_holds_the_bytes() {
    assert_eq!(encode_bencode(&text_value("json")), b"4:json".to_vec());
}

#[test]
fn response_map_sorts_and_carries_the_id() {
    let r = response_map(
        Some(Bencode::Int(9)),
        vec![("op", text("x")), ("a", Bencode::Int(1))],
    );
    assert_eq!(encode_bencode(&r), b"d1:ai1e2:idi9e2:op1:xe".to_vec());
    let r = response_map(None, vec![("op", text("x")), ("a", Bencode::Int(1))]);
    assert_eq!(encode_bencode(&r), b"d1:ai1e2:op1:xe".to_vec());
    let r = response_map(None, vec![]);
    assert_eq!(encode_bencode(&r), b"de".to_vec());
}

#[test]
fn response_map_lets_a_later_pair_win() {
    let r = response_map(
        Some(Bencode::Int(9)),
        vec![("id", Bencode::Int(1)), ("k", Bencode::Int(2)), ("k", Bencode::Int(3))],
    );
    assert_eq!(encode_bencode(&r), b"d2:idi1e1:ki3ee".to_vec());
}

#[test]
fn describe_with_id() {
    let out = handle_describe(Some(Bencode::Int(42)));
    let expected: &[u8] = b"d6:format4:json2:idi42e10:namespacesld4:name8:pod.eigs4:varsld8:arglists5:([m])3:doc37:Compute eigenvalues for a 6x6 matrix.4:name11:eigenvalueseeee2:op8:describee";
    assert_eq!(out, expected.to_vec());
    let d = decode(&out);
    assert_eq!(dict_get(&d, "id").and_then(bencode_int), Some(42));
    let namespaces = match dict_get(&d, "namespaces") {
        Some(Bencode::List(items)) => items,
        _ => panic!("namespaces"),
    };
    assert_eq!(namespaces.len(), 1);
    let ns = match &namespaces[0] {
        Bencode::Dict(entries) => entries,
        _ => panic!("a namespace"),
    };
    let vars = match dict_get(ns, "vars") {
        Some(Bencode::List(items)) => items,
        _ => panic!("vars"),
    };
    assert_eq!(vars.len(), 1);
    match &vars[0] {
        Bencode::Dict(entries) => assert_eq!(bytes_at(entries, "name"), b"eigenvalues"),
        _ => panic!("a var"),
    }
}

#[test]
fn describe_without_id() {
    let out = handle_describe(None);
    let d = decode(&out);
    assert!(dict_get(&d, "id").is_none());
    assert_eq!(bytes_at(&d, "op"), b"describe");
    assert_eq!(bytes_at(&d, "format"), b"json");
}

#[test]
fn describe_request_is_dispatched() {
    let msg = Bencode::Dict(dict(vec![("op", text("describe")), ("id", Bencode::Int(42))]));
    assert_eq!(message_op(&msg), Op::Describe);
    let out = reply(handle_message(msg));
    assert_eq!(out, handle_describe(Some(Bencode::Int(42))));
}

#[test]
fn write_error_frames_the_message() {
    let out = write_error(Some(text("a1")), "unknown var");
    assert_eq!(
        out,
        b"d10:ex-message11:unknown var7:ex-type9:Exception2:id2:a12:op6:invokee".to_vec()
    );
    let out = write_error(None, "");
    assert_eq!(out, b"d10:ex-message0:7:ex-type9:Exception2:op6:invokee".to_vec());
}

#[test]
fn write_value_frames_the_result() {
    let out = write_value(Some(Bencode::Int(3)), "{\"eigenvalues\":[]}");
    assert_eq!(
        out,
        b"d2:idi3e2:op6:invoke5:value18:{\"eigenvalues\":[]}e".to_vec()
    );
}

#[test]
fn operations_are_told_apart() {
    let of = |name: Bencode| message_op(&Bencode::Dict(dict(vec![("op", name)])));
    assert_eq!(of(text("describe")), Op::Describe);
    assert_eq!(of(text("invoke")), Op::Invoke);
    assert_eq!(of(text("shutdown")), Op::Shutdown);
    assert_eq!(of(text("eval")), Op::Unknown);
    assert_eq!(of(text("Describe")), Op::Unknown);
    assert_eq!(of(text("")), Op::Unknown);
    assert_eq!(of(Bencode::Int(1)), Op::Unknown);
    assert_eq!(message_op(&Bencode::Dict(vec![])), Op::Unknown);
    assert_eq!(message_op(&text("describe")), Op::Unknown);
    assert_eq!(message_op(&Bencode::List(vec![text("describe")])), Op::Unknown);
}

#[test]
fn messages_without_a_response() {
    for msg in [
        Bencode::Int(1),
        text("describe"),
        Bencode::List(vec![]),
        Bencode::Dict(vec![]),
        Bencode::Dict(dict(vec![("op", text("shutdown"))])),
        Bencode::Dict(dict(vec![("op", text("load-ns")), ("id", Bencode::Int(1))])),
        Bencode::Dict(dict(vec![("op", Bencode::Int(3))])),
    ] {
        assert!(matches!(handle_message(msg), Action::Nothing));
    }
}

#[test]
fn invoke_without_var() {
    let msg = Bencode::Dict(dict(vec![("op", text("invoke")), ("id", text("7"))]));
    assert_eq!(error_of(handle_message(msg)), "missing var");
    let msg = Bencode::Dict(dict(vec![
        ("op", text("invoke")),
        ("id", text("7")),
        ("var", Bencode::Int(1)),
    ]));
    assert_eq!(error_of(handle_message(msg)), "missing var");
    let msg = Bencode::Dict(dict(vec![
        ("op", text("invoke")),
        ("id", text("7")),
        ("var", Bencode::Bytes(vec![0xff])),
    ]));
    assert_eq!(error_of(handle_message(msg)), "missing var");
}

#[test]
fn invoke_with_unknown_var() {
    let msg = Bencode::Dict(dict(vec![
        ("op", text("invoke")),
        ("id", text("7")),
        ("var", text("pod.eigs/other")),
        ("args", text("{}")),
    ]));
    assert_eq!(error_of(handle_message(msg)), "unknown var");
}

#[test]
fn invoke_without_args() {
    let d = dict(vec![
        ("op", text("invoke")),
        ("id", text("7")),
        ("var", text("pod.eigs/eigenvalues")),
    ]);
    assert_eq!(error_of(handle_invoke(&d)), "missing args");
    assert_eq!(error_of(handle_message(invoke(Bencode::Int(1)))), "missing args");
    assert_eq!(
        error_of(handle_message(invoke(Bencode::List(vec![])))),
        "missing args"
    );
    assert_eq!(
        error_of(handle_message(invoke(Bencode::List(vec![Bencode::Int(1)])))),
        "missing args"
    );
    assert_eq!(
        error_of(handle_message(invoke(Bencode::List(vec![text("{}"), text("{}")])))),
        "missing args"
    );
}

#[test]
fn invoke_with_invalid_json() {
    for bad in ["", "{", "[1,", "nope", "{\"data\":}", "{} {}"] {
        assert_eq!(
            error_of(handle_message(invoke(text(bad)))),
            "invalid json input"
        );
    }
}

#[test]
fn invoke_with_several_arguments() {
    assert_eq!(
        error_of(handle_message(invoke(text("[{}, {}]")))),
        "expected single arg map"
    );
    assert_eq!(
        error_of(handle_message(invoke(text("[]")))),
        "expected single arg map"
    );
}

#[test]
fn invoke_with_a_misshapen_argument() {
    let cases: Vec<(String, &str)> = vec![
        ("{}".to_string(), "expected :data (len 36) or :rows (6x6)"),
        ("3".to_string(), "expected :data (len 36) or :rows (6x6)"),
        ("\"rows\"".to_string(), "expected :data (len 36) or :rows (6x6)"),
        ("[[1,2]]".to_string(), "expected :data (len 36) or :rows (6x6)"),
        ("{\"rows\": 5}".to_string(), "rows must be a vector"),
        ("{\"rows\": 5, \"data\": []}".to_string(), "rows must be a vector"),
        ("{\"rows\": [[1]]}".to_string(), "rows must have length 6"),
        ("{\"rows\": [1,2,3,4,5,6]}".to_string(), "row must be a vector"),
        (
            "{\"rows\": [[1],[1],[1],[1],[1],[1]]}".to_string(),
            "each row must have length 6",
        ),
        (
            "{\"rows\": [[1,2,3,4,5,6],[1,2,3,4,5,6],[1,2,3,4,5,\"x\"],7,7,7]}".to_string(),
            "row entries must be numbers",
        ),
        (
            "{\"rows\": [[1,2,3,4,5,6],7,[1,2,3,4,5,\"x\"],7,7,7]}".to_string(),
            "row must be a vector",
        ),
        ("{\"data\": {}}".to_string(), "data must be a vector"),
        ("{\"data\": [1,2,3]}".to_string(), "data must have length 36"),
        (
            format!("{{\"data\": [{}null]}}", "1,".repeat(35)),
            "data entries must be numbers",
        ),
    ];
    for (arg, message) in cases {
        assert_eq!(error_of(handle_message(invoke(text(&arg)))), message);
    }
}

#[test]
fn invoke_hands_out_the_matrix() {
    let arg = format!("{{\"rows\": {}, \"symmetric\": true}}", identity_rows());
    match handle_message(invoke(Bencode::List(vec![text(&arg)]))) {
        Action::Compute(job) => {
            assert!(job.matrix.symmetric);
            assert_eq!(job.matrix.cells.len(), 36);
            for i in 0..6 {
                for j in 0..6 {
                    let cell = f64::from_bits(job.matrix.cells[i * 6 + j]);
                    assert_eq!(cell, if i == j { 1.0 } else { 0.0 });
                }
            }
            assert_eq!(job.id.as_ref().map(encode_bencode), Some(b"1:7".to_vec()));
        }
        other => panic!("expected a job, got {:?}", other),
    }
}

#[test]
fn invoke_reads_flat_data_row_by_row() {
    let cells: Vec<String> = (0..36).map(|k| format!("{}.5", k)).collect();
    let arg = format!("[{{\"data\": [{}]}}]", cells.join(","));
    match handle_message(invoke(text(&arg))) {
        Action::Compute(job) => {
            assert!(!job.matrix.symmetric);
            let got: Vec<f64> = job.matrix.cells.iter().map(|c| f64::from_bits(*c)).collect();
            let want: Vec<f64> = (0..36).map(|k| k as f64 + 0.5).collect();
            assert_eq!(got, want);
        }
        other => panic!("expected a job, got {:?}", other),
    }
}

#[test]
fn invoke_reads_numbers_of_every_form() {
    let arg = format!(
        "{{\"symmetric\": \"yes\", \"data\": [-3, 18446744073709551615, 1e-3, -0.0, 2.5E2, {}0]}}",
        "7,".repeat(30)
    );
    match handle_message(invoke(text(&arg))) {
        Action::Compute(job) => {
            // a flag that is no boolean counts as false
            assert!(!job.matrix.symmetric);
            let got: Vec<f64> = job.matrix.cells.iter().map(|c| f64::from_bits(*c)).collect();
            assert_eq!(got[0], -3.0);
            assert_eq!(got[1], 18446744073709551615u64 as f64);
            assert_eq!(got[2], 0.001);
            assert_eq!(got[3], 0.0);
            assert!(got[3].is_sign_negative());
            assert_eq!(got[4], 250.0);
            assert_eq!(got[5], 7.0);
            assert_eq!(got[35], 0.0);
        }
        other => panic!("expected a job, got {:?}", other),
    }
}

#[test]
fn rows_win_over_data() {
    let arg = format!("{{\"data\": [1], \"rows\": {}}}", identity_rows());
    assert!(matches!(
        handle_message(invoke(text(&arg))),
        Action::Compute(_)
    ));
}

#[test]
fn invoke_without_id_answers_without_id() {
    let msg = Bencode::Dict(dict(vec![("op", text("invoke"))]));
    let d = decode(&reply(handle_message(msg)));
    assert!(dict_get(&d, "id").is_none());
    assert_eq!(bytes_at(&d, "ex-message"), b"missing var");
}

#[test]
fn invoke_reply_reports_the_outcome() {
    let ok = invoke_reply(Some(Bencode::Int(1)), Ok("[1]".to_string()));
    assert_eq!(ok, b"d2:idi1e2:op6:invoke5:value3:[1]e".to_vec());
    let err = invoke_reply(Some(Bencode::Int(1)), Err("boom".to_string()));
    assert_eq!(err, write_error(Some(Bencode::Int(1)), "boom"));
}

#[test]
fn finish_invoke_writes_the_result_as_text() {
    let values: Vec<serde_json::Value> = (0..6).map(|_| serde_json::Value::from(1.0)).collect();
    let mut map = serde_json::Map::new();
    map.insert("eigenvalues".to_string(), serde_json::Value::Array(values));
    let out = finish_invoke(Some(text("7")), Ok(serde_json::Value::Object(map)));
    let d = decode(&out);
    assert_eq!(bytes_at(&d, "op"), b"invoke");
    assert_eq!(bytes_at(&d, "id"), b"7");
    assert!(dict_get(&d, "ex-message").is_none());
    assert_eq!(
        bytes_at(&d, "value"),
        b"{\"eigenvalues\":[1.0,1.0,1.0,1.0,1.0,1.0]}"
    );
    let back: serde_json::Value = serde_json::from_slice(bytes_at(&d, "value")).unwrap();
    let eigenvalues = back.get("eigenvalues").unwrap().as_array().unwrap();
    assert_eq!(eigenvalues.len(), 6);
    for v in eigenvalues {
        assert!((v.as_f64().unwrap() - 1.0).abs() < 1.0e-6);
    }
}

#[test]
fn finish_invoke_reports_a_failure_verbatim() {
    let out = finish_invoke(
        Some(text("7")),
        Err("matrix is not symmetric within epsilon".to_string()),
    );
    let message = error_of(Action::Reply(out));
    assert_eq!(message, "matrix is not symmetric within epsilon");
    assert!(message.contains("not symmetric"));
}

#[test]
fn invoke_document_judges_the_decoded_argument() {
    let id = || Some(text("7"));
    assert_eq!(error_of(invoke_document(id(), None)), "invalid json input");
    assert_eq!(
        error_of(invoke_document(id(), Some(Json::Array(vec![])))),
        "expected single arg map"
    );
    assert_eq!(
        error_of(invoke_document(id(), Some(Json::Array(vec![Json::Null, Json::Null])))),
        "expected single arg map"
    );
    assert_eq!(
        error_of(invoke_document(id(), Some(Json::Null))),
        "expected :data (len 36) or :rows (6x6)"
    );
    let data: Vec<Json> = (0..36).map(|k| Json::Number(Some((k as f64).to_bits()))).collect();
    let object = Json::Object(vec![
        (b"data".to_vec(), Json::Array(data)),
        (b"symmetric".to_vec(), Json::Bool(true)),
    ]);
    match invoke_document(id(), Some(Json::Array(vec![object]))) {
        Action::Compute(job) => {
            assert!(job.matrix.symmetric);
            assert_eq!(f64::from_bits(job.matrix.cells[35]), 35.0);
            assert_eq!(job.id.as_ref().map(encode_bencode), Some(b"1:7".to_vec()));
        }
        other => panic!("expected a job, got {:?}", other),
    }
}

#[test]
fn finish_invoke_sends_the_text_of_any_document() {
    let mut inner = serde_json::Map::new();
    inner.insert("b".to_string(), serde_json::Value::Null);
    inner.insert("a".to_string(), serde_json::Value::Bool(true));
    let docs = vec![
        serde_json::Value::Null,
        serde_json::Value::from(-3),
        serde_json::Value::from("text \"quoted\""),
        serde_json::Value::Array(vec![
            serde_json::Value::Array(vec![serde_json::Value::from(0.5), serde_json::Value::from(-1.25)]),
            serde_json::Value::Object(inner),
        ]),
    ];
    for doc in docs {
        let text = serde_json::to_string(&doc).unwrap();
        let out = finish_invoke(Some(Bencode::Int(1)), Ok(doc));
        assert_eq!(out, write_value(Some(Bencode::Int(1)), &text));
        assert_eq!(out, invoke_reply(Some(Bencode::Int(1)), Ok(text)));
    }
}

use pod_eigs::dict::dict_insert;
use pod_eigs::dispatch::Action;
use pod_eigs::encode::encode_bencode;
use pod_eigs::error::InvalidKind;
use pod_eigs::respond::handle_describe;
use pod_eigs::session::{Diagnostic, Session, Step};
use pod_eigs::value::Bencode;

fn text(s: &str) -> Bencode {
    Bencode::Bytes(s.as_bytes().to_vec())
}

fn request(op: &str, id: i64) -> Vec<u8> {
    let mut d: Vec<(Vec<u8>, Bencode)> = Vec::new();
    dict_insert(&mut d, b"op".to_vec(), text(op));
    dict_insert(&mut d, b"id".to_vec(), Bencode::Int(id));
    encode_bencode(&Bencode::Dict(d))
}

fn expect_reply(step: Step) -> Vec<u8> {
    match step {
        Step::Act(Action::Reply(bytes)) => bytes,
        other => panic!("expected a reply, got {:?}", other),
    }
}

#[test]
fn new_session_is_empty() {
    let mut s = Session::new();
    assert_eq!(s.buffered(), 0);
    assert_eq!(s.parse_errors(), 0);
    assert!(!s.is_closed());
    assert!(matches!(s.step(), Step::Read));
    assert_eq!(s.buffered(), 0);
}

#[test]
fn whole_message_is_answered() {
    let mut s = Session::new();
    s.feed(&request("describe", 42));
    assert_eq!(expect_reply(s.step()), handle_describe(Some(Bencode::Int(42))));
    assert_eq!(s.buffered(), 0);
    assert!(matches!(s.step(), Step::Read));
}

#[test]
fn one_byte_at_a_time_gives_the_same_answer() {
    let bytes = request("describe", 42);
    let mut s = Session::new();
    for (k, b) in bytes.iter().enumerate() {
        s.feed(&[*b]);
        if k + 1 < bytes.len() {
            assert!(matches!(s.step(), Step::Read));
            assert_eq!(s.buffered(), k + 1);
        }
    }
    assert_eq!(expect_reply(s.step()), handle_describe(Some(Bencode::Int(42))));
    assert_eq!(s.buffered(), 0);
    assert_eq!(s.parse_errors(), 0);
}

#[test]
fn chunks_of_any_size_give_the_same_answers() {
    let mut stream = request("describe", 1);
    stream.extend_from_slice(&request("unknown", 2));
    stream.extend_from_slice(&request("describe", 3));
    for size in 1..stream.len() + 1 {
        let mut s = Session::new();
        let mut replies: Vec<Vec<u8>> = Vec::new();
        let mut ignored = 0;
        for chunk in stream.chunks(size) {
            s.feed(chunk);
            loop {
                match s.step() {
                    Step::Read => break,
                    Step::Act(Action::Reply(bytes)) => replies.push(bytes),
                    Step::Act(Action::Nothing) => ignored += 1,
                    other => panic!("unexpected {:?}", other),
                }
            }
        }
        assert_eq!(
            replies,
            vec![
                handle_describe(Some(Bencode::Int(1))),
                handle_describe(Some(Bencode::Int(3)))
            ]
        );
        assert_eq!(ignored, 1);
        assert_eq!(s.buffered(), 0);
    }
}

#[test]
fn one_bad_byte_is_skipped_and_counted() {
    let mut bytes = vec![b'x'];
    bytes.extend_from_slice(&request("describe", 5));
    let total = bytes.len();
    let mut s = Session::new();
    s.feed(&bytes);
    match s.step() {
        Step::Resync(d) => assert_eq!(
            d,
            Diagnostic { index: 1, kind: InvalidKind::Prefix, buffer_len: total }
        ),
        other => panic!("expected a resync, got {:?}", other),
    }
    assert_eq!(s.parse_errors(), 1);
    assert_eq!(s.buffered(), total - 1);
    assert_eq!(expect_reply(s.step()), handle_describe(Some(Bencode::Int(5))));
    assert_eq!(s.parse_errors(), 1);
    assert!(matches!(s.step(), Step::Read));
}

#[test]
fn errors_are_counted_across_messages() {
    let mut s = Session::new();
    s.feed(b"??");
    s.feed(&request("describe", 1));
    s.feed(b"i1x2e");
    s.feed(&request("describe", 2));
    let mut kinds = Vec::new();
    let mut indexes = Vec::new();
    let mut replies = 0;
    let mut ignored = 0;
    loop {
        match s.step() {
            Step::Read => break,
            Step::Resync(d) => {
                kinds.push(d.kind);
                indexes.push(d.index);
            }
            Step::Act(Action::Reply(_)) => replies += 1,
            Step::Act(Action::Nothing) => ignored += 1,
            other => panic!("unexpected {:?}", other),
        }
    }
    // "i1x2e" is no integer; without its `i`, "1x2e…" is a length that never ends
    // well, and so on until the next request stands at the front
    assert_eq!(kinds[0], InvalidKind::Prefix);
    assert_eq!(kinds[1], InvalidKind::Prefix);
    assert_eq!(kinds[2], InvalidKind::Int);
    assert_eq!(indexes, (1..indexes.len() + 1).collect::<Vec<usize>>());
    assert_eq!(s.parse_errors(), indexes.len());
    assert_eq!(replies, 2);
    assert_eq!(ignored, 0);
}

#[test]
fn resync_to_an_empty_buffer_asks_for_input() {
    let mut s = Session::new();
    s.feed(b"x");
    assert!(matches!(s.step(), Step::Resync(_)));
    assert_eq!(s.buffered(), 0);
    assert!(matches!(s.step(), Step::Read));
    assert_eq!(s.parse_errors(), 1);
}

#[test]
fn shutdown_ends_the_session_before_anything_else() {
    let mut bytes = request("shutdown", 1);
    bytes.extend_from_slice(&request("describe", 2));
    bytes.extend_from_slice(b"garbage");
    let trailing = bytes.len() - request("shutdown", 1).len();
    let mut s = Session::new();
    s.feed(&bytes);
    assert!(matches!(s.step(), Step::Shutdown));
    assert!(s.is_closed());
    assert_eq!(s.buffered(), trailing);
    for _ in 0..3 {
        assert!(matches!(s.step(), Step::Shutdown));
        assert_eq!(s.buffered(), trailing);
        assert_eq!(s.parse_errors(), 0);
    }
}

#[test]
fn shutdown_as_the_very_first_bytes() {
    let mut s = Session::new();
    s.feed(b"d2:op8:shutdowne");
    assert!(matches!(s.step(), Step::Shutdown));
}

#[test]
fn shutdown_after_a_response() {
    let mut s = Session::new();
    s.feed(&request("describe", 1));
    s.feed(&request("shutdown", 2));
    assert_eq!(expect_reply(s.step()), handle_describe(Some(Bencode::Int(1))));
    assert!(matches!(s.step(), Step::Shutdown));
}

#[test]
fn messages_that_are_no_requests_are_consumed_in_silence() {
    let mut s = Session::new();
    s.feed(b"i42e3:abcle");
    for _ in 0..3 {
        assert!(matches!(s.step(), Step::Act(Action::Nothing)));
    }
    assert!(matches!(s.step(), Step::Read));
    assert_eq!(s.buffered(), 0);
}

fn run(stream: &[u8], size: usize) -> (Vec<Vec<u8>>, usize, usize, bool) {
    let mut s = Session::new();
    let mut replies: Vec<Vec<u8>> = Vec::new();
    for chunk in stream.chunks(size) {
        s.feed(chunk);
        loop {
            match s.step() {
                Step::Read | Step::Shutdown => break,
                Step::Act(Action::Reply(bytes)) => replies.push(bytes),
                Step::Act(_) => {}
                Step::Resync(_) => {}
            }
        }
    }
    (replies, s.parse_errors(), s.buffered(), s.is_closed())
}

#[test]
fn damaged_input_gives_the_same_answers_in_any_chunks() {
    let mut stream = b"\x00\xffe".to_vec();
    stream.extend_from_slice(&request("describe", 1));
    stream.extend_from_slice(b"i12xe:::");
    stream.extend_from_slice(&request("describe", 2));
    stream.extend_from_slice(b"d3:abc");
    let whole = run(&stream, stream.len());
    assert_eq!(whole.0.len(), 2);
    assert!(whole.1 > 0);
    assert_eq!(whole.2, 6);
    for size in 1..stream.len() {
        assert_eq!(run(&stream, size), whole);
    }
    let mut closing = stream.clone();
    closing.extend_from_slice(b"i1ee");
    closing.extend_from_slice(&request("shutdown", 3));
    closing.extend_from_slice(&request("describe", 4));
    let whole = run(&closing, closing.len());
    assert!(whole.3);
    assert_eq!(whole.0.len(), 2);
    for size in 1..closing.len() {
        let cut = run(&closing, size);
        assert_eq!(cut.0, whole.0);
        assert_eq!(cut.1, whole.1);
        assert!(cut.3);
    }
}

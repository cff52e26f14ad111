use pod_eigs::dict::dict_insert;
use pod_eigs::encode::{encode_bencode, encode_bytes};
use pod_eigs::error::{InvalidKind, ParseError};
use pod_eigs::parse::parse_at;
use pod_eigs::value::Bencode;

fn text(s: &str) -> Bencode {
    Bencode::Bytes(s.as_bytes().to_vec())
}

fn decode(bytes: &[u8]) -> (Bencode, usize) {
    parse_at(bytes, 0).expect("a whole value")
}

fn same(a: &Bencode, b: &Bencode) -> bool {
    match (a, b) {
        (Bencode::Int(x), Bencode::Int(y)) => x == y,
        (Bencode::Bytes(x), Bencode::Bytes(y)) => x == y,
        (Bencode::List(x), Bencode::List(y)) => {
            x.len() == y.len() && x.iter().zip(y.iter()).all(|(p, q)| same(p, q))
        }
        (Bencode::Dict(x), Bencode::Dict(y)) => {
            x.len() == y.len()
                && x.iter().zip(y.iter()).all(|(p, q)| p.0 == q.0 && same(&p.1, &q.1))
        }
        _ => false,
    }
}

fn sample() -> Bencode {
    let mut inner: Vec<(Vec<u8>, Bencode)> = Vec::new();
    dict_insert(&mut inner, b"zeta".to_vec(), Bencode::Int(-7));
    dict_insert(&mut inner, b"alpha".to_vec(), Bencode::List(vec![]));
    let mut outer: Vec<(Vec<u8>, Bencode)> = Vec::new();
    dict_insert(&mut outer, b"op".to_vec(), text("invoke"));
    dict_insert(&mut outer, b"id".to_vec(), Bencode::Int(42));
    dict_insert(
        &mut outer,
        b"args".to_vec(),
        Bencode::List(vec![text(""), Bencode::Dict(inner), Bencode::Int(0)]),
    );
    Bencode::Dict(outer)
}

#[test]
fn encodes_integers() {
    assert_eq!(encode_bencode(&Bencode::Int(0)), b"i0e".to_vec());
    assert_eq!(encode_bencode(&Bencode::Int(42)), b"i42e".to_vec());
    assert_eq!(encode_bencode(&Bencode::Int(-1)), b"i-1e".to_vec());
    assert_eq!(encode_bencode(&Bencode::Int(1000)), b"i1000e".to_vec());
    assert_eq!(
        encode_bencode(&Bencode::Int(i64::MAX)),
        b"i9223372036854775807e".to_vec()
    );
    assert_eq!(
        encode_bencode(&Bencode::Int(i64::MIN)),
        b"i-9223372036854775808e".to_vec()
    );
}

#[test]
fn encodes_byte_strings() {
    assert_eq!(encode_bytes(b""), b"0:".to_vec());
    assert_eq!(encode_bytes(b"spam"), b"4:spam".to_vec());
    assert_eq!(encode_bytes(b"0123456789"), b"10:0123456789".to_vec());
    assert_eq!(encode_bencode(&text("e:i")), b"3:e:i".to_vec());
    assert_eq!(encode_bytes(&[0xff, 0x00]), vec![b'2', b':', 0xff, 0x00]);
}

#[test]
fn encodes_lists_in_order() {
    let list = Bencode::List(vec![Bencode::Int(2), text("b"), Bencode::Int(1)]);
    assert_eq!(encode_bencode(&list), b"li2e1:bi1ee".to_vec());
    assert_eq!(encode_bencode(&Bencode::List(vec![])), b"le".to_vec());
}

#[test]
fn encodes_dictionaries_by_ascending_key() {
    assert_eq!(
        encode_bencode(&sample()),
        b"d4:argsl0:d5:alphale4:zetai-7eei0ee2:idi42e2:op6:invokee".to_vec()
    );
    assert_eq!(encode_bencode(&Bencode::Dict(vec![])), b"de".to_vec());
}

#[test]
fn insertion_order_leaves_no_trace() {
    let keys: [&[u8]; 5] = [b"b", b"", b"ab", b"a", b"\xff"];
    let mut forward: Vec<(Vec<u8>, Bencode)> = Vec::new();
    for (i, k) in keys.iter().enumerate() {
        dict_insert(&mut forward, k.to_vec(), Bencode::Int(i as i64));
    }
    let mut backward: Vec<(Vec<u8>, Bencode)> = Vec::new();
    for (i, k) in keys.iter().enumerate().rev() {
        dict_insert(&mut backward, k.to_vec(), Bencode::Int(i as i64));
    }
    let a = encode_bencode(&Bencode::Dict(forward));
    let b = encode_bencode(&Bencode::Dict(backward));
    assert_eq!(a, b);
    assert_eq!(a, b"d0:i1e1:ai3e2:abi2e1:bi0e1:\xffi4ee".to_vec());
}

#[test]
fn inserting_a_key_again_replaces_its_value() {
    let mut dict: Vec<(Vec<u8>, Bencode)> = Vec::new();
    dict_insert(&mut dict, b"k".to_vec(), Bencode::Int(1));
    dict_insert(&mut dict, b"j".to_vec(), Bencode::Int(2));
    dict_insert(&mut dict, b"k".to_vec(), Bencode::Int(3));
    assert_eq!(encode_bencode(&Bencode::Dict(dict)), b"d1:ji2e1:ki3ee".to_vec());
}

#[test]
fn round_trip() {
    let values = vec![
        Bencode::Int(0),
        Bencode::Int(i64::MIN),
        Bencode::Int(i64::MAX),
        text(""),
        text("hello"),
        Bencode::Bytes(vec![0, 255, b'e', b':']),
        Bencode::List(vec![]),
        Bencode::Dict(vec![]),
        sample(),
        Bencode::List(vec![sample(), sample()]),
    ];
    for v in values.iter() {
        let bytes = encode_bencode(v);
        let (back, used) = decode(&bytes);
        assert_eq!(used, bytes.len());
        assert!(same(&back, v));
        assert_eq!(encode_bencode(&back), bytes);
    }
}

#[test]
fn clone_keeps_the_value() {
    let v = sample();
    let c = v.clone();
    assert!(same(&v, &c));
}

#[test]
fn parser_consumes_one_value_only() {
    let mut bytes = encode_bencode(&sample());
    let len = bytes.len();
    bytes.extend_from_slice(b"i1egarbage");
    let (back, used) = decode(&bytes);
    assert_eq!(used, len);
    assert!(same(&back, &sample()));
    let (next, after) = parse_at(&bytes, used).expect("the second value");
    assert!(same(&next, &Bencode::Int(1)));
    assert_eq!(after, len + 3);
}

#[test]
fn every_proper_prefix_needs_more() {
    let bytes = encode_bencode(&sample());
    for k in 0..bytes.len() {
        assert_eq!(parse_at(&bytes[..k], 0).err(), Some(ParseError::NeedMore));
    }
}

#[test]
fn parse_past_the_end_needs_more() {
    assert_eq!(parse_at(b"", 0).err(), Some(ParseError::NeedMore));
    assert_eq!(parse_at(b"i1e", 3).err(), Some(ParseError::NeedMore));
    assert_eq!(parse_at(b"i1e", 7).err(), Some(ParseError::NeedMore));
}

#[test]
fn truncated_input_is_incomplete() {
    for input in [
        &b"i"[..],
        b"i12",
        b"i12ab",
        b"i-",
        b"5",
        b"5:",
        b"5:abcd",
        b"l",
        b"li1e",
        b"d",
        b"d1:a",
        b"d1:ai1e",
        b"18446744073709551615:abc",
    ] {
        assert_eq!(parse_at(input, 0).err(), Some(ParseError::NeedMore));
    }
}

#[test]
fn invalid_prefix() {
    for input in [&b"x"[..], b"e", b":", b"-1:", b" i1e", b"\x00"] {
        assert_eq!(
            parse_at(input, 0).err(),
            Some(ParseError::Invalid(InvalidKind::Prefix))
        );
    }
    assert_eq!(
        parse_at(b"lxe", 0).err(),
        Some(ParseError::Invalid(InvalidKind::Prefix))
    );
}

#[test]
fn invalid_integers() {
    for input in [
        &b"ie"[..],
        b"i-e",
        b"i+e",
        b"i1.5e",
        b"i 1e",
        b"i--1e",
        b"i9223372036854775808e",
        b"i-9223372036854775809e",
        b"i12abe",
        b"iabce",
    ] {
        // `e` ends the text, so what stands before the first `e` is judged
        assert_eq!(
            parse_at(input, 0).err(),
            Some(ParseError::Invalid(InvalidKind::Int))
        );
    }
    assert_eq!(
        parse_at(b"i\xffe", 0).err(),
        Some(ParseError::Invalid(InvalidKind::IntUtf8))
    );
}

#[test]
fn lenient_integers() {
    assert!(same(&decode(b"i007e").0, &Bencode::Int(7)));
    assert!(same(&decode(b"i+5e").0, &Bencode::Int(5)));
    assert!(same(&decode(b"i-0e").0, &Bencode::Int(0)));
    assert!(same(
        &decode(b"i-9223372036854775808e").0,
        &Bencode::Int(i64::MIN)
    ));
    assert!(same(
        &decode(b"i0000000000000000000000009223372036854775807e").0,
        &Bencode::Int(i64::MAX)
    ));
}

#[test]
fn invalid_lengths() {
    assert_eq!(
        parse_at(b"1x:a", 0).err(),
        Some(ParseError::Invalid(InvalidKind::Len))
    );
    assert_eq!(
        parse_at(b"1-1:a", 0).err(),
        Some(ParseError::Invalid(InvalidKind::Len))
    );
    assert_eq!(
        parse_at(b"99999999999999999999999999:a", 0).err(),
        Some(ParseError::Invalid(InvalidKind::Len))
    );
    assert_eq!(
        parse_at(b"1\xff:a", 0).err(),
        Some(ParseError::Invalid(InvalidKind::LenUtf8))
    );
}

#[test]
fn lengths_with_leading_zeros() {
    let (v, used) = decode(b"003:abcd");
    assert!(same(&v, &text("abc")));
    assert_eq!(used, 7);
}

#[test]
fn dictionary_keys_must_be_byte_strings() {
    assert_eq!(
        parse_at(b"di1ei2ee", 0).err(),
        Some(ParseError::Invalid(InvalidKind::DictKey))
    );
    assert_eq!(
        parse_at(b"dlei2ee", 0).err(),
        Some(ParseError::Invalid(InvalidKind::DictKey))
    );
    // the key is judged before the value is looked at
    assert_eq!(
        parse_at(b"di1e", 0).err(),
        Some(ParseError::Invalid(InvalidKind::DictKey))
    );
}

#[test]
fn duplicate_keys_keep_the_last_value() {
    let (v, used) = decode(b"d1:ai1e1:bi2e1:ai3ee");
    assert_eq!(used, 20);
    assert_eq!(encode_bencode(&v), b"d1:ai3e1:bi2ee".to_vec());
}

#[test]
fn unsorted_input_is_held_sorted() {
    let (v, _) = decode(b"d1:zi1e1:ai2e1:mi3ee");
    match &v {
        Bencode::Dict(entries) => {
            let keys: Vec<&[u8]> = entries.iter().map(|e| e.0.as_slice()).collect();
            assert_eq!(keys, vec![&b"a"[..], b"m", b"z"]);
        }
        _ => panic!("a dictionary"),
    }
    assert_eq!(encode_bencode(&v), b"d1:ai2e1:mi3e1:zi1ee".to_vec());
}

#[test]
fn invalid_kinds_have_their_messages() {
    assert_eq!(InvalidKind::IntUtf8.message(), "invalid int utf8");
    assert_eq!(InvalidKind::Int.message(), "invalid int");
    assert_eq!(InvalidKind::LenUtf8.message(), "invalid len utf8");
    assert_eq!(InvalidKind::Len.message(), "invalid len");
    assert_eq!(InvalidKind::DictKey.message(), "dict key must be bytes");
    assert_eq!(InvalidKind::Prefix.message(), "invalid bencode prefix");
}

#[test]
fn canonical_values_are_recognised() {
    assert!(Bencode::Int(1).is_canonical());
    assert!(text("x").is_canonical());
    assert!(Bencode::List(vec![]).is_canonical());
    assert!(Bencode::Dict(vec![]).is_canonical());
    assert!(sample().is_canonical());
    assert!(decode(b"d1:zi1e1:ai2e1:zi3ee").0.is_canonical());
    let unsorted = Bencode::Dict(vec![
        (b"b".to_vec(), Bencode::Int(1)),
        (b"a".to_vec(), Bencode::Int(2)),
    ]);
    assert!(!unsorted.is_canonical());
    let twice = Bencode::Dict(vec![
        (b"a".to_vec(), Bencode::Int(1)),
        (b"a".to_vec(), Bencode::Int(2)),
    ]);
    assert!(!twice.is_canonical());
    let sorted = Bencode::Dict(vec![
        (b"a".to_vec(), Bencode::Int(1)),
        (b"ab".to_vec(), Bencode::Int(2)),
        (b"b".to_vec(), Bencode::Int(3)),
    ]);
    assert!(sorted.is_canonical());
    let nested = Bencode::List(vec![Bencode::Int(0), Bencode::Dict(vec![(b"k".to_vec(), twice)])]);
    assert!(!nested.is_canonical());
}

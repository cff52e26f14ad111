use pod_eigs::decimal::{parse_int, parse_len, push_decimal, push_int_text};
use pod_eigs::error::{InvalidKind, ParseError};
use pod_eigs::value::{bytes_eq, copy_bytes, key_order, KeyOrder};

#[test]
fn parse_int_reads_signed_literals() {
    assert_eq!(parse_int(b"0"), Ok(0));
    assert_eq!(parse_int(b"-0"), Ok(0));
    assert_eq!(parse_int(b"+17"), Ok(17));
    assert_eq!(parse_int(b"-17"), Ok(-17));
    assert_eq!(parse_int(b"0042"), Ok(42));
    assert_eq!(parse_int(b"9223372036854775807"), Ok(i64::MAX));
    assert_eq!(parse_int(b"-9223372036854775808"), Ok(i64::MIN));
}

#[test]
fn parse_int_rejects_the_rest() {
    let invalid = Err(ParseError::Invalid(InvalidKind::Int));
    assert_eq!(parse_int(b""), invalid);
    assert_eq!(parse_int(b"-"), invalid);
    assert_eq!(parse_int(b"+"), invalid);
    assert_eq!(parse_int(b"+-1"), invalid);
    assert_eq!(parse_int(b"1 "), invalid);
    assert_eq!(parse_int(b"0x10"), invalid);
    assert_eq!(parse_int(b"9223372036854775808"), invalid);
    assert_eq!(parse_int(b"-9223372036854775809"), invalid);
    assert_eq!(parse_int(b"99999999999999999999999999999999"), invalid);
    assert_eq!(parse_int("١٢".as_bytes()), invalid);
    assert_eq!(
        parse_int(b"12\xff"),
        Err(ParseError::Invalid(InvalidKind::IntUtf8))
    );
    assert_eq!(
        parse_int(b"\xc3"),
        Err(ParseError::Invalid(InvalidKind::IntUtf8))
    );
}

#[test]
fn parse_len_reads_unsigned_literals() {
    assert_eq!(parse_len(b"0"), Ok(0));
    assert_eq!(parse_len(b"+5"), Ok(5));
    assert_eq!(parse_len(b"007"), Ok(7));
    assert_eq!(parse_len(usize::MAX.to_string().as_bytes()), Ok(usize::MAX));
}

#[test]
fn parse_len_rejects_the_rest() {
    let invalid = Err(ParseError::Invalid(InvalidKind::Len));
    assert_eq!(parse_len(b""), invalid);
    assert_eq!(parse_len(b"+"), invalid);
    assert_eq!(parse_len(b"-0"), invalid);
    assert_eq!(parse_len(b"-5"), invalid);
    assert_eq!(parse_len(b"5a"), invalid);
    assert_eq!(parse_len(b"340282366920938463463374607431768211456"), invalid);
    assert_eq!(
        parse_len(b"5\x80"),
        Err(ParseError::Invalid(InvalidKind::LenUtf8))
    );
}

#[test]
fn parse_agrees_with_std() {
    let samples: [&[u8]; 12] = [
        b"0", b"-0", b"+0", b"12", b"-12", b"+12", b"", b"-", b"1-", b"00", b"18446744073709551615",
        b"18446744073709551616",
    ];
    for s in samples {
        let text = std::str::from_utf8(s).unwrap();
        assert_eq!(parse_int(s).ok(), text.parse::<i64>().ok());
        assert_eq!(parse_len(s).ok(), text.parse::<usize>().ok());
    }
}

#[test]
fn push_decimal_writes_digits() {
    let mut out = b"n=".to_vec();
    push_decimal(&mut out, 0);
    out.push(b',');
    push_decimal(&mut out, 9);
    out.push(b',');
    push_decimal(&mut out, 10);
    out.push(b',');
    push_decimal(&mut out, 1234567890);
    out.push(b',');
    push_decimal(&mut out, u64::MAX);
    assert_eq!(out, b"n=0,9,10,1234567890,18446744073709551615".to_vec());
}

#[test]
fn push_int_text_writes_the_sign() {
    let mut out = Vec::new();
    push_int_text(&mut out, -1);
    out.push(b' ');
    push_int_text(&mut out, 0);
    out.push(b' ');
    push_int_text(&mut out, i64::MIN);
    out.push(b' ');
    push_int_text(&mut out, i64::MAX);
    assert_eq!(out, b"-1 0 -9223372036854775808 9223372036854775807".to_vec());
}

#[test]
fn push_agrees_with_std() {
    for n in [0i64, 1, -1, 99, -100, 1 << 40, -(1 << 40), i64::MIN, i64::MAX] {
        let mut out = Vec::new();
        push_int_text(&mut out, n);
        assert_eq!(out, n.to_string().into_bytes());
        assert_eq!(parse_int(&out), Ok(n));
    }
}

#[test]
fn key_order_is_byte_lexicographic() {
    assert_eq!(key_order(b"", b""), KeyOrder::Equal);
    assert_eq!(key_order(b"", b"a"), KeyOrder::Less);
    assert_eq!(key_order(b"a", b""), KeyOrder::Greater);
    assert_eq!(key_order(b"a", b"b"), KeyOrder::Less);
    assert_eq!(key_order(b"b", b"a"), KeyOrder::Greater);
    assert_eq!(key_order(b"ab", b"abc"), KeyOrder::Less);
    assert_eq!(key_order(b"abc", b"ab"), KeyOrder::Greater);
    assert_eq!(key_order(b"abc", b"abc"), KeyOrder::Equal);
    assert_eq!(key_order(b"a\xff", b"b"), KeyOrder::Less);
    assert_eq!(key_order(b"\x7f", b"\x80"), KeyOrder::Less);
    let mut keys: Vec<&[u8]> = vec![b"b", b"", b"ab", b"a", b"\xff", b"a\x00"];
    let mut by_std = keys.clone();
    by_std.sort();
    keys.sort_by(|a, b| match key_order(a, b) {
        KeyOrder::Less => std::cmp::Ordering::Less,
        KeyOrder::Equal => std::cmp::Ordering::Equal,
        KeyOrder::Greater => std::cmp::Ordering::Greater,
    });
    assert_eq!(keys, by_std);
}

#[test]
fn bytes_eq_and_copy() {
    assert!(bytes_eq(b"abc", b"abc"));
    assert!(!bytes_eq(b"abc", b"abd"));
    assert!(!bytes_eq(b"abc", b"abcd"));
    assert_eq!(copy_bytes(b"abc"), b"abc".to_vec());
    assert_eq!(copy_bytes(b""), Vec::<u8>::new());
}

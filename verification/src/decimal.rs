//! Decimal literals: the text of integers and lengths on the wire.

use crate::ascii::{DIGIT_0, DIGIT_9, MINUS, PLUS};
use crate::error::{InvalidKind, ParseError};
use crate::text::{is_utf8, lemma_ascii_is_utf8};
use vstd::prelude::*;
use vstd::utf8::valid_utf8;

verus! {

/// True of the ASCII digits.
pub open spec fn is_digit(b: u8) -> bool {
    DIGIT_0 <= b <= DIGIT_9
}

/// True when every byte of `s` is an ASCII digit.
pub open spec fn all_digits(s: Seq<u8>) -> bool {
    forall|i: int| 0 <= i < s.len() ==> is_digit(#[trigger] s[i])
}

/// The number that the digit `b` stands for.
pub open spec fn digit_value(b: u8) -> nat {
    if is_digit(b) {
        (b - DIGIT_0) as nat
    } else {
        0
    }
}

/// The number that a sequence of digits denotes, most significant digit first.
pub open spec fn digits_value(s: Seq<u8>) -> nat
    decreases s.len(),
{
    if s.len() == 0 {
        0
    } else {
        digits_value(s.drop_last()) * 10 + digit_value(s.last())
    }
}

/// The decimal digits of `n`, without leading zeros.
pub open spec fn decimal(n: nat) -> Seq<u8>
    decreases n,
{
    if n < 10 {
        seq![(DIGIT_0 + n) as u8]
    } else {
        decimal(n / 10).push((DIGIT_0 + n % 10) as u8)
    }
}

/// The text of the integer `n`: its digits, after a minus sign if it is negative.
pub open spec fn int_text(n: int) -> Seq<u8> {
    if n < 0 {
        seq![MINUS] + decimal((-n) as nat)
    } else {
        decimal(n as nat)
    }
}

/// What is left of a length literal after an optional plus sign.
pub open spec fn unsigned_digits(s: Seq<u8>) -> Seq<u8> {
    if s.len() > 0 && s[0] == PLUS {
        s.skip(1)
    } else {
        s
    }
}

/// What is left of an integer literal after an optional sign.
pub open spec fn signed_digits(s: Seq<u8>) -> Seq<u8> {
    if s.len() > 0 && (s[0] == PLUS || s[0] == MINUS) {
        s.skip(1)
    } else {
        s
    }
}

/// The number that a signed literal denotes.
pub open spec fn signed_value(s: Seq<u8>) -> int {
    if s.len() > 0 && s[0] == MINUS {
        -(digits_value(signed_digits(s)) as int)
    } else {
        digits_value(signed_digits(s)) as int
    }
}

/// True when `s` is the literal of a length that fits the machine: an optional plus
/// sign, then at least one digit.
pub open spec fn is_len_literal(s: Seq<u8>) -> bool {
    &&& unsigned_digits(s).len() > 0
    &&& all_digits(unsigned_digits(s))
    &&& digits_value(unsigned_digits(s)) <= usize::MAX
}

/// True when `s` is the literal of a 64-bit integer: an optional sign, then at least
/// one digit.
pub open spec fn is_int_literal(s: Seq<u8>) -> bool {
    &&& signed_digits(s).len() > 0
    &&& all_digits(signed_digits(s))
    &&& i64::MIN <= signed_value(s) <= i64::MAX
}

/// The integer that `s` denotes, or why it denotes none: bytes that are not UTF-8
/// are no text, and text that is no literal is no integer.
pub open spec fn spec_parse_int(s: Seq<u8>) -> Result<i64, ParseError> {
    if !valid_utf8(s) {
        Err(ParseError::Invalid(InvalidKind::IntUtf8))
    } else if is_int_literal(s) {
        Ok(signed_value(s) as i64)
    } else {
        Err(ParseError::Invalid(InvalidKind::Int))
    }
}

/// The length that `s` denotes, or why it denotes none: bytes that are not UTF-8
/// are no text, and text that is no literal is no length.
pub open spec fn spec_parse_len(s: Seq<u8>) -> Result<usize, ParseError> {
    if !valid_utf8(s) {
        Err(ParseError::Invalid(InvalidKind::LenUtf8))
    } else if is_len_literal(s) {
        Ok(digits_value(unsigned_digits(s)) as usize)
    } else {
        Err(ParseError::Invalid(InvalidKind::Len))
    }
}

/// Digits behind an optional sign are ASCII, and so UTF-8.
pub proof fn lemma_literal_is_utf8(s: Seq<u8>)
    requires
        all_digits(signed_digits(s)),
    ensures
        valid_utf8(s),
{
    assert forall|i: int| 0 <= i < s.len() implies (#[trigger] s[i]) < 128 by {
        if signed_digits(s) == s {
            assert(is_digit(s[i]));
        } else if i > 0 {
            assert(s[i] == signed_digits(s)[i - 1]);
            assert(is_digit(signed_digits(s)[i - 1]));
        }
    }
    lemma_ascii_is_utf8(s);
}

/// Appending one digit multiplies the value by ten and adds the digit.
pub proof fn lemma_digits_value_push(s: Seq<u8>, b: u8)
    ensures
        digits_value(s.push(b)) == digits_value(s) * 10 + digit_value(b),
{
    assert(s.push(b).drop_last() =~= s);
}

/// A prefix of a digit sequence denotes no more than the whole.
pub proof fn lemma_digits_value_prefix(s: Seq<u8>, k: int)
    requires
        0 <= k <= s.len(),
    ensures
        digits_value(s.take(k)) <= digits_value(s),
    decreases s.len(),
{
    if k == s.len() {
        assert(s.take(k) =~= s);
    } else {
        lemma_digits_value_prefix(s.drop_last(), k);
        assert(s.drop_last().take(k) =~= s.take(k));
    }
}

/// The digits of a number are digits, at least one of them, and denote the number.
pub proof fn lemma_decimal_value(n: nat)
    ensures
        decimal(n).len() > 0,
        all_digits(decimal(n)),
        digits_value(decimal(n)) == n,
    decreases n,
{
    if n < 10 {
        let s = decimal(n);
        assert(s.drop_last() =~= Seq::<u8>::empty());
        assert(digits_value(s.drop_last()) == 0);
    } else {
        lemma_decimal_value(n / 10);
        lemma_digits_value_push(decimal(n / 10), (DIGIT_0 + n % 10) as u8);
    }
}

/// The text of a 64-bit integer is an integer literal that denotes it.
pub proof fn lemma_int_text_parses(n: i64)
    ensures
        spec_parse_int(int_text(n as int)) == Ok::<i64, ParseError>(n),
{
    let s = int_text(n as int);
    if n < 0 {
        let m = (-(n as int)) as nat;
        lemma_decimal_value(m);
        assert(s.skip(1) =~= decimal(m));
    } else {
        lemma_decimal_value(n as nat);
        assert(is_digit(s[0]));
    }
    lemma_literal_is_utf8(s);
}

/// The digits of a machine-sized length are a length literal that denotes it.
pub proof fn lemma_decimal_parses(n: usize)
    ensures
        spec_parse_len(decimal(n as nat)) == Ok::<usize, ParseError>(n),
{
    lemma_decimal_value(n as nat);
    assert(is_digit(decimal(n as nat)[0]));
    lemma_literal_is_utf8(decimal(n as nat));
}

/// Reads the digits `bytes[start..]` as a number no larger than `limit`.
fn digits_to_u64(bytes: &[u8], start: usize, limit: u64) -> (r: Option<u64>)
    requires
        start <= bytes@.len(),
    ensures
        r == (if start < bytes@.len() && all_digits(bytes@.skip(start as int)) && digits_value(
            bytes@.skip(start as int),
        ) <= limit {
            Some(digits_value(bytes@.skip(start as int)) as u64)
        } else {
            None
        }),
{
    if start >= bytes.len() {
        return None;
    }
    let ghost whole = bytes@.skip(start as int);
    let mut acc: u64 = 0;
    let mut i: usize = start;
    while i < bytes.len()
        invariant
            start <= i <= bytes@.len(),
            whole == bytes@.skip(start as int),
            all_digits(whole.take(i - start)),
            acc == digits_value(whole.take(i - start)),
            acc <= limit,
        decreases bytes@.len() - i,
    {
        let b: u8 = bytes[i];
        assert(whole[i - start] == b);
        if b < DIGIT_0 || b > DIGIT_9 {
            return None;
        }
        let next: u128 = (acc as u128) * 10 + ((b - DIGIT_0) as u128);
        proof {
            assert(whole.take(i - start + 1) =~= whole.take(i - start).push(b));
            lemma_digits_value_push(whole.take(i - start), b);
            lemma_digits_value_prefix(whole, i - start + 1);
        }
        if next > limit as u128 {
            return None;
        }
        acc = next as u64;
        i = i + 1;
    }
    proof {
        assert(whole.take(i - start) =~= whole);
    }
    Some(acc)
}

/// Reads `bytes` as the decimal literal of a 64-bit integer: an optional sign, then
/// digits.
pub fn parse_int(bytes: &[u8]) -> (r: Result<i64, ParseError>)
    ensures
        r == spec_parse_int(bytes@),
{
    let n = bytes.len();
    let negative = n > 0 && bytes[0] == MINUS;
    let start: usize = if n > 0 && (bytes[0] == PLUS || bytes[0] == MINUS) {
        1
    } else {
        0
    };
    let limit: u64 = if negative {
        9223372036854775808
    } else {
        9223372036854775807
    };
    proof {
        assert(bytes@.skip(0) =~= bytes@);
        assert(signed_digits(bytes@) == bytes@.skip(start as int));
        if all_digits(signed_digits(bytes@)) {
            lemma_literal_is_utf8(bytes@);
        }
    }
    match digits_to_u64(bytes, start, limit) {
        Some(v) => {
            if !negative {
                Ok(v as i64)
            } else if v == 9223372036854775808 {
                Ok(i64::MIN)
            } else {
                Ok(-(v as i64))
            }
        },
        None => {
            if is_utf8(bytes) {
                Err(ParseError::Invalid(InvalidKind::Int))
            } else {
                Err(ParseError::Invalid(InvalidKind::IntUtf8))
            }
        },
    }
}

/// Reads `bytes` as the decimal literal of a length: an optional plus sign, then
/// digits.
pub fn parse_len(bytes: &[u8]) -> (r: Result<usize, ParseError>)
    ensures
        r == spec_parse_len(bytes@),
{
    let start: usize = if bytes.len() > 0 && bytes[0] == PLUS {
        1
    } else {
        0
    };
    proof {
        assert(bytes@.skip(0) =~= bytes@);
        assert(unsigned_digits(bytes@) == bytes@.skip(start as int));
        if all_digits(unsigned_digits(bytes@)) {
            if unsigned_digits(bytes@) == bytes@ {
                assert(signed_digits(bytes@) == bytes@) by {
                    if bytes@.len() > 0 {
                        assert(is_digit(bytes@[0]));
                    }
                }
            }
            lemma_literal_is_utf8(bytes@);
        }
    }
    match digits_to_u64(bytes, start, usize::MAX as u64) {
        Some(v) => Ok(v as usize),
        None => {
            if is_utf8(bytes) {
                Err(ParseError::Invalid(InvalidKind::Len))
            } else {
                Err(ParseError::Invalid(InvalidKind::LenUtf8))
            }
        },
    }
}

/// Appends the decimal digits of `n` to `out`.
pub fn push_decimal(out: &mut Vec<u8>, n: u64)
    ensures
        final(out)@ == old(out)@ + decimal(n as nat),
    decreases n,
{
    if n >= 10 {
        push_decimal(out, n / 10);
    }
    out.push(DIGIT_0 + (n % 10) as u8);
}

/// Appends the text of `n` to `out`.
pub fn push_int_text(out: &mut Vec<u8>, n: i64)
    ensures
        final(out)@ == old(out)@ + int_text(n as int),
{
    if n < 0 {
        out.push(MINUS);
        let magnitude: u64 = if n == i64::MIN {
            9223372036854775808
        } else {
            (-n) as u64
        };
        push_decimal(out, magnitude);
    } else {
        push_decimal(out, n as u64);
    }
}

} // verus!

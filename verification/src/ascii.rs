//! The ASCII bytes that the wire format gives a meaning to.

use vstd::prelude::*;

verus! {

/// `+`
pub const PLUS: u8 = 43;

/// `-`
pub const MINUS: u8 = 45;

/// `0`
pub const DIGIT_0: u8 = 48;

/// `9`
pub const DIGIT_9: u8 = 57;

/// `:`, between the length of a byte string and its bytes.
pub const COLON: u8 = 58;

/// `d`, the first byte of a dictionary.
pub const DICT_START: u8 = 100;

/// `e`, the last byte of an integer, a list and a dictionary.
pub const END: u8 = 101;

/// `i`, the first byte of an integer.
pub const INT_START: u8 = 105;

/// `l`, the first byte of a list.
pub const LIST_START: u8 = 108;

} // verus!

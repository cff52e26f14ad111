//! The protocol layer of a worker that answers requests over a byte stream.
//!
//! Requests and responses are values of a self-describing wire format with four
//! kinds: integers, byte strings, lists, and dictionaries keyed by byte strings.
//!
//! - [`value`] and [`dict`] hold the value model: a value in memory, the
//!   mathematical value that it stands for, and dictionaries whose entries are
//!   kept in ascending order of their keys.
//! - [`encode`] is the canonical encoding, [`parse`] the incremental parser, and
//!   [`decimal`] the integers and lengths in them.
//! - [`roundtrip`] and [`incremental`] state what holds between the two: a value
//!   is parsed back from its encoding, and what the parser has decided of a
//!   buffer stays decided when more bytes arrive.
//! - [`dispatch`] turns a decoded request into what the worker does, [`respond`]
//!   builds the responses, [`json`] and [`matrix`] read the argument of an
//!   invocation.
//! - [`session`] owns the bytes received and not yet consumed, and says step by
//!   step what the worker does next: read, answer, compute, report a dropped
//!   byte, or stop.
//!
//! The library computes and decides; it neither reads nor writes. The process
//! around it reads the input, performs each step, and takes the eigenvalues.

pub mod ascii;
pub mod decimal;
pub mod dict;
pub mod dispatch;
pub mod encode;
pub mod error;
pub mod incremental;
pub mod json;
pub mod keys;
pub mod matrix;
pub mod parse;
pub mod respond;
pub mod roundtrip;
pub mod session;
pub mod text;
pub mod value;

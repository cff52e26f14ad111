//! The session: the bytes received and not yet consumed, and what to do next.

use crate::dispatch::{
    handle_message, message_op, spec_handle_message, spec_op, Action, ActionView, Op,
};
use crate::encode::spec_encode;
use crate::error::{InvalidKind, ParseError};
use crate::incremental::{theorem_parse_stable, theorem_parse_within};
use crate::parse::{parse_at, spec_parse_at};
use crate::roundtrip::{starts_value, theorem_partial_needs_more, theorem_resync, theorem_roundtrip};
use crate::value::Datum;
use vstd::prelude::*;

verus! {

/// The state of a session as a mathematical object.
pub struct SessionState {
    /// The bytes received and not yet consumed.
    pub buffer: Seq<u8>,
    /// How many times a byte was dropped to find the next message.
    pub errors: usize,
    /// Whether a shutdown request has been consumed.
    pub closed: bool,
}

/// The state of a session.
#[derive(Debug)]
pub struct Session {
    buffer: Vec<u8>,
    errors: usize,
    closed: bool,
}

/// What to report when a byte is dropped.
#[derive(Clone, Copy, Debug, PartialEq, Eq, Structural)]
pub struct Diagnostic {
    /// The number of this parse error, counted from one; it stays at the machine's
    /// limit once it has reached it.
    pub index: usize,
    /// Why the front of the buffer was no value.
    pub kind: InvalidKind,
    /// The length of the buffer before the byte was dropped.
    pub buffer_len: usize,
}

/// What the worker does next.
#[derive(Debug)]
pub enum Step {
    /// The buffer holds no whole message: read more input and feed it.
    Read,
    /// A message was consumed: perform the action, then step again.
    Act(Action),
    /// A byte was dropped: report it apart from the responses, then step again.
    Resync(Diagnostic),
    /// A shutdown request was consumed: stop, and leave the rest of the buffer.
    Shutdown,
}

/// A step as a mathematical object.
pub enum StepView {
    Read,
    Act(ActionView),
    Resync(Diagnostic),
    Shutdown,
}

impl View for Step {
    type V = StepView;

    open spec fn view(&self) -> StepView {
        match self {
            Step::Read => StepView::Read,
            Step::Act(action) => StepView::Act(action@),
            Step::Resync(d) => StepView::Resync(*d),
            Step::Shutdown => StepView::Shutdown,
        }
    }
}

/// The count of parse errors after one more. At the machine's limit the count
/// stays where it is: it never decreases and never starts again.
pub open spec fn next_error(errors: usize) -> usize {
    if errors == usize::MAX {
        usize::MAX
    } else {
        (errors + 1) as usize
    }
}

/// One step of a session: the state after it, and what the worker does.
///
/// A closed session stays as it is. Otherwise the parser is tried at the front of
/// the buffer. A whole message is removed from the buffer: a shutdown request
/// closes the session before anything is dispatched, any other message is
/// dispatched. Where the parser needs more, nothing changes. Where the front is
/// invalid, one byte is dropped and counted.
pub open spec fn spec_step(s: SessionState) -> (SessionState, StepView) {
    if s.closed {
        (s, StepView::Shutdown)
    } else {
        match spec_parse_at(s.buffer, 0) {
            Ok((msg, used)) => if spec_op(msg) == Op::Shutdown {
                (
                    SessionState { buffer: s.buffer.skip(used), errors: s.errors, closed: true },
                    StepView::Shutdown,
                )
            } else {
                (
                    SessionState { buffer: s.buffer.skip(used), errors: s.errors, closed: false },
                    StepView::Act(spec_handle_message(msg)),
                )
            },
            Err(ParseError::NeedMore) => (s, StepView::Read),
            Err(ParseError::Invalid(kind)) => (
                SessionState {
                    buffer: s.buffer.skip(1),
                    errors: next_error(s.errors),
                    closed: false,
                },
                StepView::Resync(
                    Diagnostic {
                        index: next_error(s.errors),
                        kind,
                        buffer_len: s.buffer.len() as usize,
                    },
                ),
            ),
        }
    }
}

impl View for Session {
    type V = SessionState;

    closed spec fn view(&self) -> SessionState {
        SessionState { buffer: self.buffer@, errors: self.errors, closed: self.closed }
    }
}

impl Session {
    /// A session that has received nothing.
    pub fn new() -> (r: Session)
        ensures
            r@ == (SessionState { buffer: Seq::empty(), errors: 0, closed: false }),
    {
        Session { buffer: Vec::new(), errors: 0, closed: false }
    }

    /// Appends the bytes read from the input to the buffer.
    pub fn feed(&mut self, chunk: &[u8])
        ensures
            final(self)@ == (SessionState {
                buffer: old(self)@.buffer + chunk@,
                errors: old(self)@.errors,
                closed: old(self)@.closed,
            }),
    {
        let mut i: usize = 0;
        while i < chunk.len()
            invariant
                i <= chunk@.len(),
                self.buffer@ == old(self).buffer@ + chunk@.take(i as int),
                self.errors == old(self).errors,
                self.closed == old(self).closed,
            decreases chunk@.len() - i,
        {
            self.buffer.push(chunk[i]);
            proof {
                assert(chunk@.take(i + 1) =~= chunk@.take(i as int).push(chunk@[i as int]));
            }
            i = i + 1;
        }
        proof {
            assert(chunk@.take(chunk@.len() as int) =~= chunk@);
        }
    }

    /// How many bytes are buffered.
    pub fn buffered(&self) -> (n: usize)
        ensures
            n == self@.buffer.len(),
    {
        self.buffer.len()
    }

    /// How many times a byte was dropped to find the next message.
    pub fn parse_errors(&self) -> (n: usize)
        ensures
            n == self@.errors,
    {
        self.errors
    }

    /// Whether a shutdown request has been consumed.
    pub fn is_closed(&self) -> (b: bool)
        ensures
            b == self@.closed,
    {
        self.closed
    }

    /// Makes one step: tries the parser at the front of the buffer, and says what
    /// the worker does next.
    pub fn step(&mut self) -> (r: Step)
        ensures
            (final(self)@, r@) == spec_step(old(self)@),
    {
        if self.closed {
            return Step::Shutdown;
        }
        match parse_at(self.buffer.as_slice(), 0) {
            Ok((msg, used)) => {
                let rest = self.buffer.split_off(used);
                self.buffer = rest;
                proof {
                    assert(self.buffer@ =~= old(self).buffer@.skip(used as int));
                }
                if message_op(&msg) == Op::Shutdown {
                    self.closed = true;
                    Step::Shutdown
                } else {
                    Step::Act(handle_message(msg))
                }
            },
            Err(ParseError::NeedMore) => Step::Read,
            Err(ParseError::Invalid(kind)) => {
                let buffer_len = self.buffer.len();
                let index: usize = if self.errors == usize::MAX {
                    usize::MAX
                } else {
                    self.errors + 1
                };
                self.errors = index;
                let rest = self.buffer.split_off(1);
                self.buffer = rest;
                proof {
                    assert(self.buffer@ =~= old(self).buffer@.skip(1));
                }
                Step::Resync(Diagnostic { index, kind, buffer_len })
            },
        }
    }
}

/// An open session with the buffer `buffer` and `errors` parse errors.
pub open spec fn open_session(buffer: Seq<u8>, errors: usize) -> SessionState {
    SessionState { buffer, errors, closed: false }
}

/// What a step makes of the well-formed message `v` once it is consumed.
pub open spec fn message_step(v: Datum) -> StepView {
    if spec_op(v) == Op::Shutdown {
        StepView::Shutdown
    } else {
        StepView::Act(spec_handle_message(v))
    }
}

/// Incremental equivalence, first half: while only the first `k` bytes of a
/// message have been fed, a step asks for more input and leaves the session as it
/// is, so that the next chunk joins what is there.
pub proof fn theorem_step_partial(v: Datum, k: int, errors: usize)
    requires
        v.wf(),
        0 <= k < spec_encode(v).len(),
    ensures
        spec_step(open_session(spec_encode(v).take(k), errors)) == (
            open_session(spec_encode(v).take(k), errors),
            StepView::Read,
        ),
{
    theorem_partial_needs_more(v, k);
}

/// Incremental equivalence, second half: once the last byte of a message has been
/// fed, in whatever chunks it came, a step consumes exactly the message and does
/// what the message asks for; the bytes that follow it stay in the buffer.
pub proof fn theorem_step_whole(v: Datum, tail: Seq<u8>, errors: usize)
    requires
        v.wf(),
    ensures
        spec_step(open_session(spec_encode(v) + tail, errors)) == (
            SessionState { buffer: tail, errors, closed: spec_op(v) == Op::Shutdown },
            message_step(v),
        ),
{
    theorem_roundtrip(v, tail);
    assert((spec_encode(v) + tail).skip(spec_encode(v).len() as int) =~= tail);
}

/// The count of parse errors never decreases: a step leaves it as it is, or, where
/// it drops a byte, adds one to it up to the machine's limit.
pub proof fn theorem_errors_monotonic(s: SessionState)
    ensures
        s.errors <= spec_step(s).0.errors,
        spec_step(s).1 is Resync ==> spec_step(s).0.errors == next_error(s.errors)
            && spec_step(s).1->Resync_0.index == next_error(s.errors) && (s.errors < usize::MAX
            ==> spec_step(s).0.errors == s.errors + 1),
        !(spec_step(s).1 is Resync) ==> spec_step(s).0.errors == s.errors,
{
}

/// Resynchronisation: where one byte that can begin no value stands before a
/// message, the first step drops that byte alone and counts one parse error, and
/// the second step consumes the message.
pub proof fn theorem_step_resync(byte: u8, v: Datum, tail: Seq<u8>, errors: usize)
    requires
        !starts_value(byte),
        v.wf(),
    ensures
        spec_step(open_session(seq![byte] + spec_encode(v) + tail, errors)) == (
            open_session(spec_encode(v) + tail, next_error(errors)),
            StepView::Resync(
                Diagnostic {
                    index: next_error(errors),
                    kind: InvalidKind::Prefix,
                    buffer_len: (seq![byte] + spec_encode(v) + tail).len() as usize,
                },
            ),
        ),
        spec_step(open_session(spec_encode(v) + tail, next_error(errors))) == (
            SessionState {
                buffer: tail,
                errors: next_error(errors),
                closed: spec_op(v) == Op::Shutdown,
            },
            message_step(v),
        ),
        errors < usize::MAX ==> next_error(errors) == errors + 1,
        errors == usize::MAX ==> next_error(errors) == usize::MAX,
{
    theorem_resync(byte, v, tail);
    assert((seq![byte] + spec_encode(v) + tail).skip(1) =~= spec_encode(v) + tail);
    theorem_step_whole(v, tail, next_error(errors));
}

/// Shutdown precedence: a shutdown request closes the session as soon as it is
/// consumed, before anything is dispatched, and a closed session makes no further
/// step: the bytes behind the request are never parsed and never answered.
pub proof fn theorem_shutdown_precedence(v: Datum, tail: Seq<u8>, errors: usize)
    requires
        v.wf(),
        spec_op(v) == Op::Shutdown,
    ensures
        spec_step(open_session(spec_encode(v) + tail, errors)) == (
            SessionState { buffer: tail, errors, closed: true },
            StepView::Shutdown,
        ),
        spec_step(SessionState { buffer: tail, errors, closed: true }) == (
            SessionState { buffer: tail, errors, closed: true },
            StepView::Shutdown,
        ),
{
    theorem_step_whole(v, tail, errors);
}

/// Incremental equivalence for every input: a step that consumed a message, or
/// dropped a byte, does the same when more input stands behind what was there, and
/// leaves that input behind the rest of the buffer. Only the length that a resync
/// reports is that of the longer buffer. So the steps of a session do not depend
/// on where the input was cut into chunks.
pub proof fn theorem_step_stable(buffer: Seq<u8>, more: Seq<u8>, errors: usize)
    requires
        spec_step(open_session(buffer, errors)).1 != StepView::Read,
    ensures
        spec_step(open_session(buffer + more, errors)).0 == (SessionState {
            buffer: spec_step(open_session(buffer, errors)).0.buffer + more,
            ..spec_step(open_session(buffer, errors)).0
        }),
        spec_step(open_session(buffer, errors)).1 matches StepView::Resync(d) ==> spec_step(
            open_session(buffer + more, errors),
        ).1 == StepView::Resync(Diagnostic { buffer_len: (buffer + more).len() as usize, ..d }),
        !(spec_step(open_session(buffer, errors)).1 is Resync) ==> spec_step(
            open_session(buffer + more, errors),
        ).1 == spec_step(open_session(buffer, errors)).1,
{
    theorem_parse_stable(buffer, more);
    theorem_parse_within(buffer, 0);
    match spec_parse_at(buffer, 0) {
        Ok((_, used)) => {
            assert((buffer + more).skip(used) =~= buffer.skip(used) + more);
        },
        Err(_) => {
            assert(buffer.len() > 0);
            assert((buffer + more).skip(1) =~= buffer.skip(1) + more);
        },
    }
}

/// The session `s` after the bytes `chunk` have been fed to it.
pub open spec fn spec_feed(s: SessionState, chunk: Seq<u8>) -> SessionState {
    SessionState { buffer: s.buffer + chunk, ..s }
}

/// The session after all the steps that it makes on what it has buffered, until it
/// asks for input or stops, and the actions of these steps in their order.
///
/// Every step that does not end the run shortens the buffer; the test of that here
/// only makes the definition well founded.
pub open spec fn spec_drain(s: SessionState) -> (SessionState, Seq<ActionView>)
    decreases s.buffer.len(),
{
    let (after, step) = spec_step(s);
    match step {
        StepView::Read => (after, Seq::empty()),
        StepView::Shutdown => (after, Seq::empty()),
        StepView::Resync(_) => if after.buffer.len() < s.buffer.len() {
            spec_drain(after)
        } else {
            (after, Seq::empty())
        },
        StepView::Act(action) => if after.buffer.len() < s.buffer.len() {
            (spec_drain(after).0, seq![action] + spec_drain(after).1)
        } else {
            (after, seq![action])
        },
    }
}

/// A step that consumes a message or drops a byte shortens the buffer.
pub proof fn lemma_step_shortens(s: SessionState)
    requires
        spec_step(s).1 is Act || spec_step(s).1 is Resync,
    ensures
        spec_step(s).0.buffer.len() < s.buffer.len(),
        !s.closed,
        !spec_step(s).0.closed,
{
    theorem_parse_within(s.buffer, 0);
}

/// Chunking independence: a session that runs on one part of the input, is fed the
/// next part and runs again ends in the same state, and has done the same actions
/// in the same order, as a session that is fed both parts at once. By induction
/// over the parts, neither the responses of a session nor its parse errors depend
/// on where the input was cut into chunks.
pub proof fn theorem_drain_chunks(s: SessionState, more: Seq<u8>)
    ensures
        spec_drain(spec_feed(s, more)).0 == spec_drain(spec_feed(spec_drain(s).0, more)).0,
        spec_drain(spec_feed(s, more)).1 == spec_drain(s).1 + spec_drain(
            spec_feed(spec_drain(s).0, more),
        ).1,
    decreases s.buffer.len(),
{
    let fed = spec_feed(s, more);
    let (after, step) = spec_step(s);
    if s.closed {
        assert(spec_drain(s).0 == s);
        assert(spec_drain(s).1 + spec_drain(fed).1 =~= spec_drain(fed).1);
    } else {
        assert(s == open_session(s.buffer, s.errors));
        assert(fed == open_session(s.buffer + more, s.errors));
        match step {
            StepView::Read => {
                assert(spec_drain(s).0 == s);
                assert(spec_drain(s).1 + spec_drain(fed).1 =~= spec_drain(fed).1);
            },
            StepView::Shutdown => {
                theorem_step_stable(s.buffer, more, s.errors);
                let closed = spec_feed(after, more);
                assert(spec_step(fed).0 == closed);
                assert(spec_drain(fed).0 == closed);
                assert(spec_drain(s).0 == after);
                assert(spec_drain(closed).0 == closed);
                assert(spec_drain(s).1 + spec_drain(closed).1 =~= spec_drain(fed).1);
            },
            StepView::Resync(_) => {
                theorem_step_stable(s.buffer, more, s.errors);
                lemma_step_shortens(s);
                assert(spec_step(fed).0 == spec_feed(after, more));
                theorem_drain_chunks(after, more);
            },
            StepView::Act(action) => {
                theorem_step_stable(s.buffer, more, s.errors);
                lemma_step_shortens(s);
                assert(spec_step(fed).0 == spec_feed(after, more));
                theorem_drain_chunks(after, more);
                let rest = spec_drain(after).1;
                let next = spec_drain(spec_feed(spec_drain(after).0, more)).1;
                assert(seq![action] + (rest + next) =~= (seq![action] + rest) + next);
            },
        }
    }
}

} // verus!

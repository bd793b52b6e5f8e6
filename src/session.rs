//! One connection: the bytes received so far, and the replies they call for.
use vstd::prelude::*;
use crate::command::{after, Command, execute, interpret_command, interpretation, rejection_message, reply_of};
use crate::laws::round_trip;
use crate::text::{lemma_single_line_bytes, single_line};
use crate::parser::{lemma_parse_bounds, parse_error_message, parse_error_text, parse_frame, parse_resp, ParseError};
use crate::store::Store;
use crate::value::{encode_frame, well_formed, Frame, Value};

verus! {

/// What the peer is sent, and what the keyspace becomes, for the frame `f`
/// at `now`.
pub open spec fn answer(f: Frame, store: Map<Seq<char>, crate::store::Stored>, now: u64) -> (
    Seq<u8>,
    Map<Seq<char>, crate::store::Stored>,
) {
    match interpretation(f) {
        Ok(request) => (encode_frame(reply_of(request, store, now as int)), after(request, store, now)),
        Err(rejection) => (encode_frame(Frame::Error(rejection_message(rejection))), store),
    }
}

/// What a connection asks of its caller next.
pub enum Step {
    /// No complete frame is pending: read more bytes from the peer.
    Wait,
    /// Send these bytes to the peer.
    Reply(Vec<u8>),
    /// Run this command against the keyspace and send the encoded reply.
    Run(Command),
}

/// Every error reply is one well-formed frame: its text fits on one line, and
/// the peer decodes the reply back to that same text, taking all of it.
pub proof fn error_reply_is_one_frame(text: Seq<char>)
    ensures
        well_formed(Frame::Error(single_line(text))),
        parse_frame(encode_frame(Frame::Error(single_line(text))), 0) == Ok::<(Frame, int), ParseError>(
            (
                Frame::Error(single_line(text)),
                encode_frame(Frame::Error(single_line(text))).len() as int,
            ),
        ),
{
    lemma_single_line_bytes(text);
    round_trip(Frame::Error(single_line(text)));
}

/// The error frame that `next_reply` sends for a malformed buffer is read
/// back whole by the peer, as the same error.
pub proof fn malformed_input(e: ParseError)
    requires
        e != ParseError::UnexpectedEOF,
    ensures
        parse_frame(encode_frame(Frame::Error(parse_error_message(e))), 0) == Ok::<(Frame, int), ParseError>(
            (
                Frame::Error(parse_error_message(e)),
                encode_frame(Frame::Error(parse_error_message(e))).len() as int,
            ),
        ),
{
    error_reply_is_one_frame(parse_error_text(e));
}

/// The state of one connection: bytes received and not yet consumed.
pub struct Connection {
    buffer: Vec<u8>,
}

impl Connection {
    /// The bytes received and not yet consumed.
    pub closed spec fn pending(&self) -> Seq<u8> {
        self.buffer@
    }

    /// A connection with nothing received.
    pub fn new() -> (r: Self)
        ensures
            r.pending() == Seq::<u8>::empty(),
    {
        Connection { buffer: Vec::new() }
    }

    /// Appends bytes read from the peer.
    pub fn receive(&mut self, data: &[u8])
        ensures
            final(self).pending() == old(self).pending() + data@,
    {
        self.buffer.extend_from_slice(data);
    }

    /// The number of bytes received and not yet consumed.
    pub fn pending_len(&self) -> (r: usize)
        ensures
            r == self.pending().len(),
    {
        self.buffer.len()
    }

    /// Takes the frame at the front of the pending bytes, if one is complete.
    /// A command is handed out to be run; a frame that makes no command gets
    /// its error reply; a frame that is not complete yet leaves everything as
    /// it is; a malformed one gets an error reply and drops every pending byte.
    pub fn next_step(&mut self) -> (r: Step)
        ensures
            match parse_frame(old(self).pending(), 0) {
                Ok((f, n)) => final(self).pending() == old(self).pending().skip(n) && match interpretation(f) {
                    Ok(request) => r matches Step::Run(c) && c@ == request,
                    Err(rejection) => r matches Step::Reply(bytes) && bytes@ == encode_frame(
                        Frame::Error(rejection_message(rejection)),
                    ),
                },
                Err(ParseError::UnexpectedEOF) => r is Wait && final(self).pending() == old(self).pending(),
                Err(e) => r matches Step::Reply(bytes) && bytes@ == encode_frame(
                    Frame::Error(parse_error_message(e)),
                ) && final(self).pending() == Seq::<u8>::empty(),
            },
    {
        proof {
            lemma_parse_bounds(self.buffer@, 0);
        }
        match parse_resp(self.buffer.as_slice()) {
            Ok((value, consumed)) => {
                let rest = self.buffer.split_off(consumed);
                self.buffer = rest;
                match interpret_command(value) {
                    Ok(command) => Step::Run(command),
                    Err(e) => Step::Reply(Value::SimpleError(e.message()).encode()),
                }
            },
            Err(e) => {
                if e.is_incomplete() {
                    Step::Wait
                } else {
                    self.buffer.clear();
                    Step::Reply(Value::SimpleError(e.message()).encode())
                }
            },
        }
    }

    /// Handles the frame at the front of the pending bytes, if one is complete,
    /// and gives the bytes to send back. A frame that is not complete yet
    /// leaves everything as it is and gives nothing; a malformed one gives an
    /// error reply and drops every pending byte.
    pub fn next_reply(&mut self, store: &mut Store, now: u64) -> (r: Option<Vec<u8>>)
        requires
            old(store).wf(),
        ensures
            final(store).wf(),
            match parse_frame(old(self).pending(), 0) {
                Ok((f, n)) => r matches Some(bytes) && bytes@ == answer(f, old(store)@, now).0
                    && final(store)@ == answer(f, old(store)@, now).1
                    && final(self).pending() == old(self).pending().skip(n),
                Err(ParseError::UnexpectedEOF) => r is None && final(store)@ == old(store)@
                    && final(self).pending() == old(self).pending(),
                Err(e) => r matches Some(bytes) && bytes@ == encode_frame(
                    Frame::Error(parse_error_message(e)),
                ) && final(store)@ == old(store)@ && final(self).pending() == Seq::<u8>::empty(),
            },
    {
        match self.next_step() {
            Step::Wait => None,
            Step::Reply(bytes) => Some(bytes),
            Step::Run(command) => Some(execute(command, store, now).encode()),
        }
    }
}

} // verus!

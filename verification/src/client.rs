//! The client protocol engine.
//!
//! A session is a cursor through `Idle -> ReceivingData -> ResponseEnded ->
//! Idle`. Every transition consumes the old state value and returns the next
//! one, so issuing a second request before the current response has been
//! drained, or using a connection after closing it, does not typecheck.
//!
//! The engine is pure: a transition that sends returns the frame bytes to
//! write, and a transition that receives takes the bytes that arrived.

use vstd::prelude::*;

use crate::wire::{
    close_frame, contains_byte, decoded, encode_close, encode_request, find_byte, lemma_find_byte,
    request_frame, sentinel_free, NL, SENTINEL,
};

verus! {

/// Client state: ready to issue a request or to close the connection.
pub struct Idle;

/// Client state: mid-response, buffering the content bytes received so far.
pub struct ReceivingData {
    pub file_bytes: Vec<u8>,
}

/// Client state: the response has ended; the accumulated content is ready
/// to be taken.
pub struct ResponseEnded {
    pub result: Vec<u8>,
}

/// The client protocol engine, indexed by its current state. Exactly one
/// state value exists per session, and each transition consumes it.
pub struct FileClient<State> {
    pub state: State,
}

/// Where a client stands while a response is in flight: either another
/// content byte is expected, or the sentinel has ended the response.
pub enum AwaitingResponse {
    ReceivingData(FileClient<ReceivingData>),
    ResponseEnded(FileClient<ResponseEnded>),
}

/// Outcome of consuming available input while receiving a response.
pub enum ReceiveOutcome {
    /// The input ran out before the sentinel appeared: every byte was
    /// buffered and the client still awaits more.
    Incomplete(FileClient<ReceivingData>),
    /// The sentinel arrived: the response is over after the given count of
    /// consumed input bytes.
    Done(FileClient<ResponseEnded>, usize),
}

impl FileClient<Idle> {
    /// A fresh engine for a newly established connection.
    pub fn new() -> (c: FileClient<Idle>) {
        FileClient { state: Idle }
    }

    /// Begin a request for `filename`: the engine moves to receiving with an
    /// empty buffer, and the returned frame is what must be sent.
    pub fn start_request(self, filename: &Vec<u8>) -> (r: (FileClient<ReceivingData>, Vec<u8>))
        ensures
            r.0.state.file_bytes@ == Seq::<u8>::empty(),
            r.1@ == request_frame(filename@),
    {
        let frame = encode_request(filename);
        (FileClient { state: ReceivingData { file_bytes: Vec::new() } }, frame)
    }

    /// End the session: terminal, the connection is not reused afterward.
    /// The returned frame is what must be sent.
    pub fn close_connection(self) -> (frame: Vec<u8>)
        ensures
            frame@ == close_frame(),
    {
        encode_close()
    }
}

impl FileClient<ReceivingData> {
    /// Consume one response byte: the sentinel ends the response and is
    /// discarded; any other byte is appended to the buffered content.
    pub fn receive_byte(self, byte: u8) -> (r: AwaitingResponse)
        ensures
            byte == SENTINEL ==> (r matches AwaitingResponse::ResponseEnded(c)
                && c.state.result@ == self.state.file_bytes@),
            byte != SENTINEL ==> (r matches AwaitingResponse::ReceivingData(c)
                && c.state.file_bytes@ == self.state.file_bytes@.push(byte)),
    {
        let mut file_bytes = self.state.file_bytes;
        if byte == SENTINEL {
            AwaitingResponse::ResponseEnded(FileClient { state: ResponseEnded { result: file_bytes } })
        } else {
            file_bytes.push(byte);
            AwaitingResponse::ReceivingData(FileClient { state: ReceivingData { file_bytes } })
        }
    }

    /// Consume bytes of `input` from `start` on, buffering content, until
    /// the sentinel ends the response or the input runs out. The loop stops
    /// exactly on the sentinel: never before, never after.
    pub fn receive_response(self, input: &Vec<u8>, start: usize) -> (r: ReceiveOutcome)
        requires
            start <= input.len(),
        ensures
            ({
                let rest = input@.skip(start as int);
                match r {
                    ReceiveOutcome::Incomplete(c) => {
                        &&& !contains_byte(rest, SENTINEL)
                        &&& c.state.file_bytes@ == self.state.file_bytes@ + rest
                    },
                    ReceiveOutcome::Done(c, consumed) => {
                        &&& contains_byte(rest, SENTINEL)
                        &&& consumed == find_byte(rest, SENTINEL) + 1
                        &&& start + consumed <= input.len()
                        &&& c.state.result@ == self.state.file_bytes@ + decoded(rest)
                    },
                }
            }),
    {
        let ghost init = self.state.file_bytes@;
        let ghost rest = input@.skip(start as int);
        proof {
            assert(forall|j: int| 0 <= j < rest.len() ==> rest[j] == input@[start + j]);
        }
        let mut cur = self;
        let mut i: usize = start;
        while i < input.len()
            invariant
                start <= i <= input.len(),
                rest == input@.skip(start as int),
                init == self.state.file_bytes@,
                cur.state.file_bytes@ == init + rest.take(i - start),
                forall|j: int| 0 <= j < i - start ==> rest[j] != SENTINEL,
            decreases input.len() - i,
        {
            let byte = input[i];
            match cur.receive_byte(byte) {
                AwaitingResponse::ResponseEnded(c) => {
                    proof {
                        lemma_find_byte(rest, SENTINEL);
                        assert(forall|j: int| 0 <= j < rest.len() ==> rest[j] == input@[start + j]);
                        assert(rest[i - start] == SENTINEL);
                        let f = find_byte(rest, SENTINEL);
                        if f < i - start {
                            assert(rest[f] != SENTINEL);
                            assert(false);
                        }
                        if f > i - start {
                            assert(rest[i - start] != SENTINEL);
                            assert(false);
                        }
                    }
                    return ReceiveOutcome::Done(c, i - start + 1);
                },
                AwaitingResponse::ReceivingData(c) => {
                    proof {
                        assert(rest[i - start] == input@[i as int]);
                        assert(init + rest.take(i - start).push(byte) =~= init + rest.take(
                            i + 1 - start,
                        ));
                    }
                    cur = c;
                    i = i + 1;
                },
            }
        }
        proof {
            if contains_byte(rest, SENTINEL) {
                let j = choose|j: int| 0 <= j < rest.len() && rest[j] == SENTINEL;
                assert(rest[j] != SENTINEL);
                assert(false);
            }
            assert(rest.take(rest.len() as int) =~= rest);
        }
        ReceiveOutcome::Incomplete(cur)
    }
}

/// Outcome of receiving one line of a response.
pub enum LineOutcome {
    /// A whole line arrived, terminator included, and was buffered; the
    /// count of consumed input bytes is given. More content may follow.
    Line(FileClient<ReceivingData>, usize),
    /// The sentinel ended the response before the line was finished; it is
    /// discarded, and the count of consumed input bytes is given.
    Ended(FileClient<ResponseEnded>, usize),
    /// The input ran out with the line unfinished: every byte was buffered
    /// and the client still awaits more.
    Incomplete(FileClient<ReceivingData>),
}

impl FileClient<ReceivingData> {
    /// Consume bytes of `input` from `start` on, buffering content, until a
    /// line terminator is buffered, the sentinel ends the response, or the
    /// input runs out.
    pub fn receive_line(self, input: &Vec<u8>, start: usize) -> (r: LineOutcome)
        requires
            start <= input.len(),
        ensures
            ({
                let rest = input@.skip(start as int);
                let nl = find_byte(rest, NL);
                let sz = find_byte(rest, SENTINEL);
                match r {
                    LineOutcome::Line(c, consumed) => {
                        &&& contains_byte(rest, NL)
                        &&& nl < sz
                        &&& consumed == nl + 1
                        &&& start + consumed <= input.len()
                        &&& c.state.file_bytes@ == self.state.file_bytes@ + rest.take(nl + 1)
                    },
                    LineOutcome::Ended(c, consumed) => {
                        &&& contains_byte(rest, SENTINEL)
                        &&& sz < nl
                        &&& consumed == sz + 1
                        &&& start + consumed <= input.len()
                        &&& c.state.result@ == self.state.file_bytes@ + rest.take(sz)
                    },
                    LineOutcome::Incomplete(c) => {
                        &&& !contains_byte(rest, NL)
                        &&& !contains_byte(rest, SENTINEL)
                        &&& c.state.file_bytes@ == self.state.file_bytes@ + rest
                    },
                }
            }),
    {
        let ghost init = self.state.file_bytes@;
        let ghost rest = input@.skip(start as int);
        proof {
            assert(forall|j: int| 0 <= j < rest.len() ==> rest[j] == input@[start + j]);
        }
        let mut cur = self;
        let mut i: usize = start;
        while i < input.len()
            invariant
                start <= i <= input.len(),
                rest == input@.skip(start as int),
                init == self.state.file_bytes@,
                cur.state.file_bytes@ == init + rest.take(i - start),
                forall|j: int| 0 <= j < i - start ==> rest[j] != SENTINEL && rest[j] != NL,
            decreases input.len() - i,
        {
            let byte = input[i];
            proof {
                lemma_find_byte(rest, SENTINEL);
                lemma_find_byte(rest, NL);
                assert(forall|j: int| 0 <= j < rest.len() ==> rest[j] == input@[start + j]);
            }
            match cur.receive_byte(byte) {
                AwaitingResponse::ResponseEnded(c) => {
                    proof {
                        assert(rest[i - start] == SENTINEL);
                        let f = find_byte(rest, SENTINEL);
                        if f < i - start {
                            assert(rest[f] != SENTINEL);
                        }
                        if f > i - start {
                            assert(rest[i - start] != SENTINEL);
                        }
                        assert(f == i - start);
                        if find_byte(rest, NL) <= f {
                            assert(rest[find_byte(rest, NL)] == NL);
                        }
                    }
                    return LineOutcome::Ended(c, i - start + 1);
                },
                AwaitingResponse::ReceivingData(c) => {
                    proof {
                        assert(rest[i - start] == input@[i as int]);
                        assert(init + rest.take(i - start).push(byte) =~= init + rest.take(
                            i + 1 - start,
                        ));
                    }
                    cur = c;
                    if byte == NL {
                        proof {
                            let f = find_byte(rest, NL);
                            if f < i - start {
                                assert(rest[f] != NL);
                            }
                            if f > i - start {
                                assert(rest[i - start] != NL);
                            }
                            assert(f == i - start);
                            if find_byte(rest, SENTINEL) <= f {
                                assert(rest[find_byte(rest, SENTINEL)] == SENTINEL);
                            }
                        }
                        return LineOutcome::Line(cur, i - start + 1);
                    }
                    i = i + 1;
                },
            }
        }
        proof {
            lemma_find_byte(rest, SENTINEL);
            lemma_find_byte(rest, NL);
            if contains_byte(rest, SENTINEL) {
                assert(rest[find_byte(rest, SENTINEL)] == SENTINEL);
            }
            if contains_byte(rest, NL) {
                assert(rest[find_byte(rest, NL)] == NL);
            }
            assert(rest.take(rest.len() as int) =~= rest);
        }
        LineOutcome::Incomplete(cur)
    }
}

impl FileClient<ResponseEnded> {
    /// Finalize the request: yield the accumulated content bytes and return
    /// to `Idle`, ready for the next command.
    pub fn end_request(self) -> (r: (FileClient<Idle>, Vec<u8>))
        ensures
            r.1@ == self.state.result@,
    {
        (FileClient { state: Idle }, self.state.result)
    }
}

impl FileClient<Idle> {
    /// Drive one whole request: emit the frame for `filename`, consume
    /// `response` bytes from `start` through the sentinel, and return to
    /// `Idle` with the received content.
    ///
    /// The response bytes at hand must already contain the sentinel; over a
    /// blocking transport this mirrors reading until it arrives. The result
    /// is `(engine, frame to send, content received, bytes consumed)`.
    pub fn request_file(self, filename: &Vec<u8>, response: &Vec<u8>, start: usize) -> (r: (
        FileClient<Idle>,
        Vec<u8>,
        Vec<u8>,
        usize,
    ))
        requires
            start <= response.len(),
            contains_byte(response@.skip(start as int), SENTINEL),
        ensures
            ({
                let rest = response@.skip(start as int);
                &&& r.1@ == request_frame(filename@)
                &&& r.2@ == decoded(rest)
                &&& r.3 == find_byte(rest, SENTINEL) + 1
                &&& start + r.3 <= response.len()
                &&& sentinel_free(r.2@)
            }),
    {
        let (receiving, frame) = self.start_request(filename);
        match receiving.receive_response(response, start) {
            ReceiveOutcome::Done(ended, consumed) => {
                proof {
                    let rest = response@.skip(start as int);
                    lemma_find_byte(rest, SENTINEL);
                    assert(Seq::<u8>::empty() + decoded(rest) =~= decoded(rest));
                }
                let (idle, result) = ended.end_request();
                (idle, frame, result, consumed)
            },
            ReceiveOutcome::Incomplete(_) => {
                proof {
                    assert(false);
                }
                vstd::pervasive::unreached()
            },
        }
    }

    /// Drive one whole request reading the response line by line instead of
    /// byte by byte. The outcome is the same as `request_file`'s: the
    /// content through the sentinel, terminators included, byte for byte.
    pub fn request_file_by_lines(self, filename: &Vec<u8>, response: &Vec<u8>, start: usize) -> (r:
        (FileClient<Idle>, Vec<u8>, Vec<u8>, usize))
        requires
            start <= response.len(),
            contains_byte(response@.skip(start as int), SENTINEL),
        ensures
            ({
                let rest = response@.skip(start as int);
                &&& r.1@ == request_frame(filename@)
                &&& r.2@ == decoded(rest)
                &&& r.3 == find_byte(rest, SENTINEL) + 1
                &&& start + r.3 <= response.len()
                &&& sentinel_free(r.2@)
            }),
    {
        let ghost rest = response@.skip(start as int);
        proof {
            lemma_find_byte(rest, SENTINEL);
            assert(forall|j: int| 0 <= j < rest.len() ==> rest[j] == response@[start + j]);
            assert(rest.take(0) =~= Seq::<u8>::empty());
        }
        let (receiving, frame) = self.start_request(filename);
        let mut cur = receiving;
        let mut i: usize = start;
        loop
            invariant
                start <= i <= response.len(),
                rest == response@.skip(start as int),
                contains_byte(rest, SENTINEL),
                frame@ == request_frame(filename@),
                cur.state.file_bytes@ == rest.take(i - start),
                forall|j: int| 0 <= j < i - start ==> rest[j] != SENTINEL,
            decreases response.len() - i,
        {
            let ghost prefix = i - start;
            let ghost tail = response@.skip(i as int);
            proof {
                lemma_find_byte(rest, SENTINEL);
                assert(tail =~= rest.skip(prefix));
                assert(forall|j: int| 0 <= j < tail.len() ==> tail[j] == rest[prefix + j]);
            }
            match cur.receive_line(response, i) {
                LineOutcome::Ended(c, consumed) => {
                    proof {
                        lemma_find_byte(tail, SENTINEL);
                        let sz = find_byte(tail, SENTINEL);
                        let f = find_byte(rest, SENTINEL);
                        assert(rest[prefix + sz] == SENTINEL);
                        if f < prefix + sz {
                            if f < prefix {
                                assert(rest[f] != SENTINEL);
                            } else {
                                assert(tail[f - prefix] != SENTINEL);
                                assert(rest[f] != SENTINEL);
                            }
                        }
                        if f > prefix + sz {
                            assert(rest[prefix + sz] != SENTINEL);
                        }
                        assert(f == prefix + sz);
                        assert(rest.take(prefix) + tail.take(sz) =~= rest.take(f));
                    }
                    let (idle, result) = c.end_request();
                    return (idle, frame, result, i - start + consumed);
                },
                LineOutcome::Line(c, consumed) => {
                    proof {
                        lemma_find_byte(tail, SENTINEL);
                        lemma_find_byte(tail, NL);
                        let nl = find_byte(tail, NL);
                        assert(forall|j: int| 0 <= j < nl + 1 ==> tail[j] != SENTINEL);
                        assert(rest.take(prefix) + tail.take(nl + 1) =~= rest.take(
                            prefix + nl + 1,
                        ));
                        assert(forall|j: int|
                            prefix <= j < prefix + nl + 1 ==> rest[j] == tail[j - prefix]);
                    }
                    cur = c;
                    i = i + consumed;
                },
                LineOutcome::Incomplete(c) => {
                    proof {
                        let f = find_byte(rest, SENTINEL);
                        assert(rest[f] == SENTINEL);
                        assert(f >= prefix);
                        assert(tail[f - prefix] == SENTINEL);
                        assert(contains_byte(tail, SENTINEL));
                        assert(false);
                    }
                    cur = c;
                },
            }
        }
    }
}

} // verus!

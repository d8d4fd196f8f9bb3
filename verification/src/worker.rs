//! The server worker protocol engine: one instance per accepted connection.
//!
//! A worker is a cursor through `Idle -> Command -> Respond -> Idle`, bound
//! for its whole life to one connection and to a read-only handle on the
//! file store. Every transition consumes the old state value and returns
//! the next one, so an illegal call order does not typecheck, and a
//! protocol violation or a `CLOSE` command ends the worker for good.
//!
//! The engine is pure: it parses the bytes that arrived and returns the
//! bytes to send, so the drive loop around a real transport only moves
//! bytes and performs the transitions in the one order the types allow.

use vstd::prelude::*;

use crate::store::ServerFiles;
use crate::wire::{
    close_frame, contains_byte, copy_line, copy_range, decoded, find_byte, find_byte_from,
    is_close_line, is_request_line, lemma_close_frame_parses, lemma_parse_command_consumed,
    lemma_request_frame_parses, lemma_response_round_trip, lemma_response_round_trip_through,
    parse_command, request_frame, response_frame, sentinel_free, CommandParse, CR, NL, SENTINEL,
};

verus! {

/// The full wire response a worker produces for a request of `name`: the
/// stored content followed by the sentinel when `name` is present, a bare
/// sentinel (the degenerate empty response) when it is not. A missing file
/// is thus observably identical to an empty one: a documented protocol
/// ambiguity, not an error on the wire.
pub open spec fn response_for(files: Map<Seq<u8>, Seq<u8>>, name: Seq<u8>) -> Seq<u8> {
    if files.contains_key(name) {
        response_frame(files[name])
    } else {
        response_frame(Seq::empty())
    }
}

/// Round-trip: a file present in the store with sentinel-free content is
/// returned by a request exactly, byte for byte — no byte lost, duplicated
/// or reordered. Whether or not later traffic follows the response on the
/// wire, the receiver stops on the response's own sentinel and extracts
/// precisely the stored content.
pub proof fn lemma_round_trip(files: Map<Seq<u8>, Seq<u8>>, name: Seq<u8>, trailing: Seq<u8>)
    requires
        files.contains_key(name),
        sentinel_free(files[name]),
    ensures
        decoded(response_for(files, name)) == files[name],
        decoded(response_for(files, name) + trailing) == files[name],
        find_byte(response_for(files, name) + trailing, SENTINEL) + 1 == response_for(
            files,
            name,
        ).len(),
{
    lemma_response_round_trip(files[name]);
    lemma_response_round_trip_through(files[name], trailing);
}

/// Missing-file behavior: a filename absent from the store produces the
/// degenerate response of a bare sentinel, from which the receiver
/// extracts an empty byte sequence — observably identical on the wire to a
/// file whose content is empty.
pub proof fn lemma_missing_file(files: Map<Seq<u8>, Seq<u8>>, name: Seq<u8>)
    requires
        !files.contains_key(name),
    ensures
        response_for(files, name) == seq![SENTINEL],
        decoded(response_for(files, name)) == Seq::<u8>::empty(),
{
    assert(response_frame(Seq::<u8>::empty()) =~= seq![SENTINEL]);
    lemma_response_round_trip(Seq::<u8>::empty());
}

/// A whole well-formed session round-trips: on the input a client engine
/// produces for one request followed by a close, the worker sends exactly
/// the response for the requested file, consumes the whole input, and ends
/// the session in order — and the client decodes that response to exactly
/// the stored content.
pub proof fn lemma_session_round_trip(files: Map<Seq<u8>, Seq<u8>>, name: Seq<u8>)
    requires
        files.contains_key(name),
        sentinel_free(files[name]),
        !contains_byte(name, NL),
        name.len() > 0 ==> name.last() != CR,
    ensures
        ({
            let input = request_frame(name) + close_frame();
            let s = session_result(files, input);
            &&& s.end == SessionEnd::Closed
            &&& s.output == response_for(files, name)
            &&& s.consumed == input.len()
            &&& decoded(s.output) == files[name]
        }),
{
    let frame = request_frame(name);
    let input = frame + close_frame();
    lemma_request_frame_parses(name, close_frame());
    let c = frame.len() as int;
    assert(input.skip(c) =~= close_frame() + Seq::<u8>::empty());
    lemma_close_frame_parses(Seq::empty());
    let tail = session_result(files, input.skip(c));
    assert(tail.output =~= Seq::<u8>::empty());
    assert(response_for(files, name) + tail.output =~= response_for(files, name));
    lemma_round_trip(files, name, Seq::empty());
}

/// Worker state: ready to read the next command from the connection.
pub struct Idle;

/// Worker state: a `REQUEST` for `filename` has been read and is about to
/// be answered.
pub struct AnsweringRequest {
    pub filename: Vec<u8>,
}

/// Worker state: streaming content bytes. The bytes of `content` from
/// `next` on are the ordered queue of what remains to be sent.
pub struct SendingData {
    pub content: Vec<u8>,
    pub next: usize,
}

/// Worker state: the content is out; only the sentinel remains to be sent.
pub struct EndOfResponse;

/// Worker state: a `CLOSE` command has been read; the connection is over.
pub struct CloseConnection;

/// The server worker protocol engine, indexed by its current state.
/// Exactly one state value exists per connection, and each transition
/// consumes it.
pub struct FileServerWorker<'a, State> {
    pub files: &'a ServerFiles,
    pub state: State,
}

/// The command a worker read, paired with the worker ready to act on it.
pub enum Command<'a> {
    AnsweringRequest(FileServerWorker<'a, AnsweringRequest>),
    CloseConnection(FileServerWorker<'a, CloseConnection>),
}

/// Where a worker stands while answering a request: either content bytes
/// remain to be sent, or the response is ready to be ended.
pub enum Respond<'a> {
    Send(FileServerWorker<'a, SendingData>),
    EndResponse(FileServerWorker<'a, EndOfResponse>),
}

/// Outcome of trying to read one command from the bytes that have arrived.
pub enum ReadOutcome<'a> {
    /// Too few bytes for a whole frame; the worker waits, unchanged.
    Incomplete(FileServerWorker<'a, Idle>),
    /// The first line is not a recognized command: fatal, the worker is
    /// finished and no further operation on this connection typechecks.
    Violation,
    /// A parsed command, with the count of input bytes the frame consumed.
    Parsed(Command<'a>, usize),
}

impl<'a> FileServerWorker<'a, Idle> {
    /// Bind a fresh worker to one connection's read-only file table.
    pub fn start(files: &'a ServerFiles) -> (w: FileServerWorker<'a, Idle>)
        ensures
            w.files == files,
    {
        FileServerWorker { files, state: Idle }
    }

    /// Read one command from the bytes of `input` that begin at `start`:
    /// a `CLOSE` line, or a `REQUEST` line followed by a filename line.
    pub fn read_command(self, input: &Vec<u8>, start: usize) -> (r: ReadOutcome<'a>)
        requires
            start <= input.len(),
        ensures
            ({
                let p = parse_command(input@.skip(start as int));
                match r {
                    ReadOutcome::Incomplete(w) => p is Incomplete && w == self,
                    ReadOutcome::Violation => p is Violation,
                    ReadOutcome::Parsed(cmd, consumed) => match cmd {
                        Command::AnsweringRequest(w) => {
                            &&& p matches CommandParse::Request { filename, consumed: c }
                            &&& w.state.filename@ == filename
                            &&& consumed == c
                            &&& w.files == self.files
                        },
                        Command::CloseConnection(w) => {
                            &&& p matches CommandParse::Close { consumed: c }
                            &&& consumed == c
                            &&& w.files == self.files
                        },
                    },
                }
            }),
    {
        let ghost rest = input@.skip(start as int);
        proof {
            assert(forall|j: int| 0 <= j < rest.len() ==> rest[j] == input@[start + j]);
        }
        match find_byte_from(input, start, NL) {
            None => ReadOutcome::Incomplete(self),
            Some(n1) => {
                proof {
                    assert(rest.take(n1 - start) =~= input@.subrange(start as int, n1 as int));
                }
                let line1 = copy_line(input, start, n1);
                if is_close_line(&line1) {
                    ReadOutcome::Parsed(
                        Command::CloseConnection(
                            FileServerWorker { files: self.files, state: CloseConnection },
                        ),
                        n1 - start + 1,
                    )
                } else if is_request_line(&line1) {
                    proof {
                        assert(rest.skip(n1 - start + 1) =~= input@.skip(n1 as int + 1));
                    }
                    match find_byte_from(input, n1 + 1, NL) {
                        None => ReadOutcome::Incomplete(self),
                        Some(n2) => {
                            proof {
                                assert(input@.skip(n1 as int + 1).take(n2 - (n1 + 1))
                                    =~= input@.subrange(n1 as int + 1, n2 as int));
                            }
                            let filename = copy_line(input, n1 + 1, n2);
                            ReadOutcome::Parsed(
                                Command::AnsweringRequest(
                                    FileServerWorker {
                                        files: self.files,
                                        state: AnsweringRequest { filename },
                                    },
                                ),
                                n2 + 1 - start,
                            )
                        },
                    }
                } else {
                    ReadOutcome::Violation
                }
            },
        }
    }
}

impl<'a> FileServerWorker<'a, AnsweringRequest> {
    /// Look the requested filename up in the store. Found: queue the
    /// content for transmission in its original order. Not found: go
    /// straight to the end of the (degenerate, empty) response.
    pub fn respond(self) -> (r: Respond<'a>)
        ensures
            self.files@.contains_key(self.state.filename@) ==> (r matches Respond::Send(w)
                && w.wf() && w.files == self.files && w.remaining()
                == self.files@[self.state.filename@]),
            !self.files@.contains_key(self.state.filename@) ==> (r matches Respond::EndResponse(w)
                && w.files == self.files),
    {
        match self.files.lookup(&self.state.filename) {
            Some(content) => {
                let queued = copy_range(content, 0, content.len());
                proof {
                    assert(queued@ =~= content@);
                    assert(queued@.skip(0) =~= queued@);
                }
                Respond::Send(
                    FileServerWorker {
                        files: self.files,
                        state: SendingData { content: queued, next: 0 },
                    },
                )
            },
            None => Respond::EndResponse(
                FileServerWorker { files: self.files, state: EndOfResponse },
            ),
        }
    }

    /// Answer the whole request in one stroke: drive `respond`, `send_byte`
    /// and `end_response` to completion and return to `Idle`, together with
    /// every byte sent on the way, sentinel included.
    pub fn handle_request(self) -> (r: (FileServerWorker<'a, Idle>, Vec<u8>))
        ensures
            r.0.files == self.files,
            r.1@ == response_for(self.files@, self.state.filename@),
    {
        let files_ref = self.files;
        let ghost expected = if self.files@.contains_key(self.state.filename@) {
            self.files@[self.state.filename@]
        } else {
            Seq::<u8>::empty()
        };
        let mut output: Vec<u8> = Vec::new();
        let mut resp = self.respond();
        loop
            invariant
                files_ref == self.files,
                expected == (if self.files@.contains_key(self.state.filename@) {
                    self.files@[self.state.filename@]
                } else {
                    Seq::<u8>::empty()
                }),
                resp matches Respond::Send(w) ==> w.wf() && w.files == files_ref && output@
                    + w.remaining() == expected,
                resp matches Respond::EndResponse(w) ==> w.files == files_ref && output@
                    == expected,
            decreases (match resp {
                Respond::Send(w) => w.remaining().len() + 1,
                Respond::EndResponse(_) => 0,
            }),
        {
            match resp {
                Respond::Send(w) => {
                    let ghost rem = w.remaining();
                    let (next, sent) = w.send_byte();
                    if let Some(byte) = sent {
                        output.push(byte);
                        proof {
                            assert(rem.len() > 0);
                            assert(output@ + rem.drop_first() =~= expected);
                        }
                    }
                    resp = next;
                },
                Respond::EndResponse(w) => {
                    let (idle, sentinel) = w.end_response();
                    output.push(sentinel);
                    proof {
                        assert(output@ =~= expected.push(SENTINEL));
                    }
                    return (idle, output);
                },
            }
        }
    }
}

impl<'a> FileServerWorker<'a, SendingData> {
    /// The queue index never points past the end of the queued content.
    pub open spec fn wf(&self) -> bool {
        self.state.next <= self.state.content.len()
    }

    /// The ordered queue of content bytes not yet sent.
    pub open spec fn remaining(&self) -> Seq<u8> {
        self.state.content@.skip(self.state.next as int)
    }

    /// Pop one byte off the queue to be written to the transport. On an
    /// empty queue nothing is written and the extra transition moves to the
    /// end of the response instead.
    pub fn send_byte(self) -> (r: (Respond<'a>, Option<u8>))
        requires
            self.wf(),
        ensures
            self.remaining().len() > 0 ==> (r.0 matches Respond::Send(w) && w.wf() && w.files
                == self.files && w.remaining() == self.remaining().drop_first() && r.1 == Some(
                self.remaining()[0],
            )),
            self.remaining().len() == 0 ==> (r.0 matches Respond::EndResponse(w) && w.files
                == self.files && r.1 is None),
    {
        if self.state.next < self.state.content.len() {
            let byte = self.state.content[self.state.next];
            proof {
                assert(self.state.content@.skip(self.state.next as int + 1) =~= self.remaining()
                    .drop_first());
            }
            (
                Respond::Send(
                    FileServerWorker {
                        files: self.files,
                        state: SendingData {
                            content: self.state.content,
                            next: self.state.next + 1,
                        },
                    },
                ),
                Some(byte),
            )
        } else {
            (
                Respond::EndResponse(FileServerWorker { files: self.files, state: EndOfResponse }),
                None,
            )
        }
    }
}

impl<'a> FileServerWorker<'a, EndOfResponse> {
    /// Emit the sentinel that ends the response and return to `Idle`,
    /// ready for the next command.
    pub fn end_response(self) -> (r: (FileServerWorker<'a, Idle>, u8))
        ensures
            r.0.files == self.files,
            r.1 == SENTINEL,
    {
        (FileServerWorker { files: self.files, state: Idle }, SENTINEL)
    }
}

impl<'a> FileServerWorker<'a, CloseConnection> {
    /// Terminal: the worker is consumed and no further operation on this
    /// connection typechecks.
    pub fn close_connection(self) {
    }
}

/// How a worker's session over one connection ended, or paused.
#[derive(Clone, Copy, Debug, PartialEq, Eq, Structural)]
pub enum SessionEnd {
    /// A `CLOSE` command ended the session in order.
    Closed,
    /// The input ran out in the middle of a frame; with more bytes the
    /// session could continue.
    Incomplete,
    /// An unrecognized command line: fatal to this connection.
    Violation,
}

/// Everything a worker does with the input of one connection: the bytes it
/// sends back, how the session ended, and how many input bytes it
/// consumed.
pub struct SessionResult {
    pub output: Seq<u8>,
    pub end: SessionEnd,
    pub consumed: int,
}

/// The canonical drive loop as a function of the whole input: commands are
/// answered strictly in order — each response runs through its sentinel
/// before the next command is read, there is no pipelining — until the
/// input runs out mid-frame, a violation kills the connection, or `CLOSE`
/// ends it.
pub open spec fn session_result(files: Map<Seq<u8>, Seq<u8>>, input: Seq<u8>) -> SessionResult
    decreases input.len(),
{
    match parse_command(input) {
        CommandParse::Incomplete => SessionResult {
            output: Seq::empty(),
            end: SessionEnd::Incomplete,
            consumed: 0,
        },
        CommandParse::Violation => SessionResult {
            output: Seq::empty(),
            end: SessionEnd::Violation,
            consumed: 0,
        },
        CommandParse::Close { consumed } => SessionResult {
            output: Seq::empty(),
            end: SessionEnd::Closed,
            consumed,
        },
        CommandParse::Request { filename, consumed } => if 0 < consumed <= input.len() {
            let tail = session_result(files, input.skip(consumed));
            SessionResult {
                output: response_for(files, filename) + tail.output,
                end: tail.end,
                consumed: consumed + tail.consumed,
            }
        } else {
            // a parsed frame always consumes within bounds, so this arm is
            // unreachable; it only discharges the termination check
            SessionResult { output: Seq::empty(), end: SessionEnd::Violation, consumed: 0 }
        },
    }
}

/// Drive one worker over the bytes that arrived on one connection,
/// collecting everything it sends back: the output bytes, how the session
/// ended, and how many input bytes were consumed.
pub fn run_worker(files: &ServerFiles, input: &Vec<u8>) -> (r: (Vec<u8>, SessionEnd, usize))
    ensures
        ({
            let s = session_result(files@, input@);
            &&& r.0@ == s.output
            &&& r.1 == s.end
            &&& r.2 == s.consumed
        }),
{
    let mut output: Vec<u8> = Vec::new();
    let mut offset: usize = 0;
    let mut worker = FileServerWorker::start(files);
    proof {
        assert(input@.skip(0) =~= input@);
    }
    loop
        invariant
            offset <= input.len(),
            worker.files == files,
            ({
                let s = session_result(files@, input@);
                let t = session_result(files@, input@.skip(offset as int));
                &&& s.output == output@ + t.output
                &&& s.end == t.end
                &&& s.consumed == offset + t.consumed
            }),
        decreases input.len() - offset,
    {
        let ghost rest = input@.skip(offset as int);
        match worker.read_command(input, offset) {
            ReadOutcome::Incomplete(_) => {
                proof {
                    assert(output@ + Seq::<u8>::empty() =~= output@);
                }
                return (output, SessionEnd::Incomplete, offset);
            },
            ReadOutcome::Violation => {
                proof {
                    assert(output@ + Seq::<u8>::empty() =~= output@);
                }
                return (output, SessionEnd::Violation, offset);
            },
            ReadOutcome::Parsed(cmd, consumed) => match cmd {
                Command::CloseConnection(w) => {
                    proof {
                        lemma_parse_command_consumed(rest);
                        assert(output@ + Seq::<u8>::empty() =~= output@);
                    }
                    w.close_connection();
                    return (output, SessionEnd::Closed, offset + consumed);
                },
                Command::AnsweringRequest(w) => {
                    let ghost name = w.state.filename@;
                    let ghost out0 = output@;
                    proof {
                        lemma_parse_command_consumed(rest);
                        assert(rest.skip(consumed as int) =~= input@.skip(
                            offset as int + consumed as int,
                        ));
                    }
                    let (idle, mut resp) = w.handle_request();
                    output.append(&mut resp);
                    proof {
                        let t_new = session_result(files@, input@.skip(
                            offset as int + consumed as int,
                        ));
                        assert(out0 + (response_for(files@, name) + t_new.output) =~= output@
                            + t_new.output);
                    }
                    worker = idle;
                    offset = offset + consumed;
                },
            },
        }
    }
}

} // verus!

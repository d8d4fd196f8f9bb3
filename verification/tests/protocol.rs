//! End-to-end protocol scenarios: a server worker and a client engine
//! composed over in-memory byte buffers standing in for the transport.

use file_transfer::client::{AwaitingResponse, FileClient, ReceiveOutcome};
use file_transfer::server::FileServer;
use file_transfer::store::ServerFiles;
use file_transfer::worker::{Command, FileServerWorker, ReadOutcome, SessionEnd};
use file_transfer::worker::run_worker;

fn bytes(s: &str) -> Vec<u8> {
    s.as_bytes().to_vec()
}

fn hello_store() -> ServerFiles {
    let mut files = ServerFiles::new();
    files.add_file(bytes("a.txt"), bytes("HELLO"));
    files
}

#[test]
fn scenario_hello() {
    // store = {"a.txt": "HELLO"}; request "a.txt" -> the five bytes H,E,L,L,O
    // with no trailing sentinel; request "missing.txt" -> empty; CLOSE ends
    // the session in order.
    let server = FileServer::new(hello_store());

    let client = FileClient::new();
    let (client, frame1) = client.start_request(&bytes("a.txt"));
    assert_eq!(frame1, bytes("REQUEST\na.txt\n"));

    // the server consumes the request frame and produces the response
    let (response, end, consumed) = server.run_worker(&frame1);
    assert_eq!(response, vec![b'H', b'E', b'L', b'L', b'O', 0u8]);
    assert_eq!(end, SessionEnd::Incomplete);
    assert_eq!(consumed, frame1.len());

    // the client drains the response through the sentinel
    let client = match client.receive_response(&response, 0) {
        ReceiveOutcome::Done(ended, used) => {
            assert_eq!(used, 6);
            let (idle, result) = ended.end_request();
            assert_eq!(result, bytes("HELLO"));
            assert_eq!(result.len(), 5);
            assert!(!result.contains(&0u8));
            idle
        }
        ReceiveOutcome::Incomplete(_) => panic!("response should have ended"),
    };

    // a missing file degenerates to an empty response
    let (idle, frame2, result, used) = {
        let frame = bytes("REQUEST\nmissing.txt\n");
        let (response, _, _) = server.run_worker(&frame);
        assert_eq!(response, vec![0u8]);
        let r = client.request_file(&bytes("missing.txt"), &response, 0);
        (r.0, r.1, r.2, r.3)
    };
    assert_eq!(frame2, bytes("REQUEST\nmissing.txt\n"));
    assert_eq!(result, Vec::<u8>::new());
    assert_eq!(used, 1);

    // CLOSE is terminal: the worker exits and consumes the whole frame
    let close_frame = idle.close_connection();
    assert_eq!(close_frame, bytes("CLOSE\n"));
    let (out, end, consumed) = server.run_worker(&close_frame);
    assert_eq!(out, Vec::<u8>::new());
    assert_eq!(end, SessionEnd::Closed);
    assert_eq!(consumed, 6);
}

#[test]
fn round_trip_exact_bytes() {
    // content with every nonzero byte value survives byte for byte
    let mut content: Vec<u8> = Vec::new();
    for b in 1..=255u8 {
        content.push(b);
    }
    let mut files = ServerFiles::new();
    files.add_file(bytes("blob.bin"), content.clone());

    let client = FileClient::new();
    let (receiving, frame) = client.start_request(&bytes("blob.bin"));
    let (response, _, _) = run_worker(&files, &frame);
    assert_eq!(response.len(), content.len() + 1);
    match receiving.receive_response(&response, 0) {
        ReceiveOutcome::Done(ended, used) => {
            assert_eq!(used, content.len() + 1);
            let (_, result) = ended.end_request();
            assert_eq!(result, content);
        }
        ReceiveOutcome::Incomplete(_) => panic!("response should have ended"),
    }
}

#[test]
fn sequential_requests_on_one_connection() {
    // two REQUESTs then CLOSE on one connection: responses come back whole
    // and in order, each drained through its own sentinel before the next
    let mut files = ServerFiles::new();
    files.add_file(bytes("one"), bytes("first"));
    files.add_file(bytes("two"), bytes("second"));

    let mut input = bytes("REQUEST\none\n");
    input.extend_from_slice(&bytes("REQUEST\ntwo\n"));
    input.extend_from_slice(&bytes("CLOSE\n"));

    let (output, end, consumed) = run_worker(&files, &input);
    assert_eq!(end, SessionEnd::Closed);
    assert_eq!(consumed, input.len());

    let client = FileClient::new();
    let (client, _frame, first, used1) = client.request_file(&bytes("one"), &output, 0);
    assert_eq!(first, bytes("first"));
    assert_eq!(used1, 6);
    let (_client, _frame, second, used2) = client.request_file(&bytes("two"), &output, used1);
    assert_eq!(second, bytes("second"));
    assert_eq!(used1 + used2, output.len());
}

#[test]
fn empty_file_same_as_missing_on_the_wire() {
    // a present-but-empty file and an absent file produce identical wire
    // responses: the documented protocol ambiguity
    let mut files = ServerFiles::new();
    files.add_file(bytes("empty"), Vec::new());

    let (out_empty, _, _) = run_worker(&files, &bytes("REQUEST\nempty\n"));
    let (out_missing, _, _) = run_worker(&files, &bytes("REQUEST\nabsent\n"));
    assert_eq!(out_empty, vec![0u8]);
    assert_eq!(out_empty, out_missing);
}

#[test]
fn multi_connection_isolation() {
    // two workers over the same store, driven in alternation, each produce
    // exactly their own connection's correct, uninterleaved content
    let mut files = ServerFiles::new();
    files.add_file(bytes("left.txt"), bytes("LEFT CONTENTS"));
    files.add_file(bytes("right.txt"), bytes("RIGHT CONTENTS"));

    let input_a = bytes("REQUEST\nleft.txt\nCLOSE\n");
    let input_b = bytes("REQUEST\nright.txt\nCLOSE\n");

    let worker_a = FileServerWorker::start(&files);
    let worker_b = FileServerWorker::start(&files);

    // interleave: read A's command, then B's, answer B, then answer A
    let (cmd_a, used_a) = match worker_a.read_command(&input_a, 0) {
        ReadOutcome::Parsed(cmd, used) => (cmd, used),
        _ => panic!("worker A should parse a command"),
    };
    let (cmd_b, used_b) = match worker_b.read_command(&input_b, 0) {
        ReadOutcome::Parsed(cmd, used) => (cmd, used),
        _ => panic!("worker B should parse a command"),
    };
    let out_b = match cmd_b {
        Command::AnsweringRequest(w) => w.handle_request().1,
        Command::CloseConnection(_) => panic!("worker B should answer a request"),
    };
    let out_a = match cmd_a {
        Command::AnsweringRequest(w) => w.handle_request().1,
        Command::CloseConnection(_) => panic!("worker A should answer a request"),
    };
    assert_eq!(out_a, bytes("LEFT CONTENTS\0"));
    assert_eq!(out_b, bytes("RIGHT CONTENTS\0"));

    // each client sees only its own connection's bytes
    let client_a = FileClient::new();
    let (_, _, got_a, _) = client_a.request_file(&bytes("left.txt"), &out_a, 0);
    let client_b = FileClient::new();
    let (_, _, got_b, _) = client_b.request_file(&bytes("right.txt"), &out_b, 0);
    assert_eq!(got_a, bytes("LEFT CONTENTS"));
    assert_eq!(got_b, bytes("RIGHT CONTENTS"));

    // and the rest of each session is unaffected by the other
    let (_, end_a, _) = run_worker(&files, &input_a);
    let (_, end_b, _) = run_worker(&files, &input_b);
    assert_eq!(end_a, SessionEnd::Closed);
    assert_eq!(end_b, SessionEnd::Closed);
}

#[test]
fn unrecognized_command_is_fatal() {
    let files = hello_store();
    let (output, end, consumed) = run_worker(&files, &bytes("DELETE\na.txt\n"));
    assert_eq!(output, Vec::<u8>::new());
    assert_eq!(end, SessionEnd::Violation);
    assert_eq!(consumed, 0);
}

#[test]
fn violation_after_a_request_keeps_earlier_output() {
    // the first command is answered in full; the unrecognized second
    // command then kills the connection
    let files = hello_store();
    let input = bytes("REQUEST\na.txt\nDELETE\n");
    let (output, end, consumed) = run_worker(&files, &input);
    assert_eq!(output, bytes("HELLO\0"));
    assert_eq!(end, SessionEnd::Violation);
    assert_eq!(consumed, 14);
}

#[test]
fn partial_frames_wait_for_more_input() {
    let files = hello_store();

    // nothing at all yet
    let (out, end, consumed) = run_worker(&files, &Vec::new());
    assert_eq!(out, Vec::<u8>::new());
    assert_eq!(end, SessionEnd::Incomplete);
    assert_eq!(consumed, 0);

    // no terminator yet
    let (_, end, consumed) = run_worker(&files, &bytes("REQU"));
    assert_eq!(end, SessionEnd::Incomplete);
    assert_eq!(consumed, 0);

    // command line complete, filename line still missing
    let (_, end, _) = run_worker(&files, &bytes("REQUEST\n"));
    assert_eq!(end, SessionEnd::Incomplete);

    // a lone worker reports the same and stays reusable
    let worker = FileServerWorker::start(&files);
    match worker.read_command(&bytes("REQUEST\na.t"), 0) {
        ReadOutcome::Incomplete(w) => {
            match w.read_command(&bytes("REQUEST\na.txt\n"), 0) {
                ReadOutcome::Parsed(Command::AnsweringRequest(w), used) => {
                    assert_eq!(used, 14);
                    let (_, out) = w.handle_request();
                    assert_eq!(out, bytes("HELLO\0"));
                }
                _ => panic!("completed frame should parse"),
            }
        }
        _ => panic!("partial frame should be incomplete"),
    }
}

#[test]
fn carriage_returns_before_terminators_are_stripped() {
    let files = hello_store();
    let (output, end, consumed) = run_worker(&files, &bytes("REQUEST\r\na.txt\r\nCLOSE\r\n"));
    assert_eq!(output, bytes("HELLO\0"));
    assert_eq!(end, SessionEnd::Closed);
    assert_eq!(consumed, 23);
}

#[test]
fn internal_whitespace_in_filenames_is_kept() {
    let mut files = ServerFiles::new();
    files.add_file(bytes("with space.txt"), bytes("ok"));
    let (output, _, _) = run_worker(&files, &bytes("REQUEST\nwith space.txt\n"));
    assert_eq!(output, bytes("ok\0"));
}

#[test]
fn sentinel_is_stripped_even_with_trailing_bytes() {
    // the receiver stops exactly on the sentinel: bytes after it are left
    // unconsumed, and the result never contains the sentinel
    let client = FileClient::new();
    let (receiving, _) = client.start_request(&bytes("x"));
    let wire = vec![b'H', b'I', 0u8, b'J', b'U', b'N', b'K'];
    match receiving.receive_response(&wire, 0) {
        ReceiveOutcome::Done(ended, used) => {
            assert_eq!(used, 3);
            let (_, result) = ended.end_request();
            assert_eq!(result, bytes("HI"));
            assert!(!result.contains(&0u8));
        }
        ReceiveOutcome::Incomplete(_) => panic!("sentinel should end the response"),
    }
}

#[test]
fn receive_byte_buffers_and_ends() {
    let client = FileClient::new();
    let (receiving, _) = client.start_request(&bytes("x"));
    let receiving = match receiving.receive_byte(b'A') {
        AwaitingResponse::ReceivingData(c) => c,
        AwaitingResponse::ResponseEnded(_) => panic!("a content byte must not end the response"),
    };
    let receiving = match receiving.receive_byte(b'B') {
        AwaitingResponse::ReceivingData(c) => c,
        AwaitingResponse::ResponseEnded(_) => panic!("a content byte must not end the response"),
    };
    match receiving.receive_byte(0u8) {
        AwaitingResponse::ResponseEnded(c) => {
            let (_, result) = c.end_request();
            assert_eq!(result, bytes("AB"));
        }
        AwaitingResponse::ReceivingData(_) => panic!("the sentinel must end the response"),
    }
}

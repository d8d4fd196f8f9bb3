//! The server: the shared read-only file table and the per-connection
//! drive loop.
//!
//! Binding the listening endpoint and accepting connections are transport
//! concerns and live outside the library. For every accepted connection
//! the dispatcher runs one independent worker over that connection's
//! bytes; workers share nothing but this table, which never changes while
//! the server runs.

use vstd::prelude::*;

use crate::store::ServerFiles;
use crate::worker::{run_worker, session_result, SessionEnd};

verus! {

/// A file server: the table every connection is answered from.
pub struct FileServer {
    pub files: ServerFiles,
}

impl FileServer {
    /// A server answering from `files`.
    pub fn new(files: ServerFiles) -> (s: FileServer)
        ensures
            s.files == files,
    {
        FileServer { files }
    }

    /// Serve one connection: drive a fresh worker over the bytes that
    /// arrived on it, collecting the bytes it sends back, how the session
    /// ended, and how many input bytes were consumed. Sessions on other
    /// connections are unaffected: the result depends on nothing but this
    /// table and this connection's own input.
    pub fn run_worker(&self, input: &Vec<u8>) -> (r: (Vec<u8>, SessionEnd, usize))
        ensures
            ({
                let s = session_result(self.files@, input@);
                &&& r.0@ == s.output
                &&& r.1 == s.end
                &&& r.2 == s.consumed
            }),
    {
        run_worker(&self.files, input)
    }
}

} // verus!

//! A minimal line-and-byte oriented file-transfer protocol.
//!
//! Two symmetric engines drive a session over a duplex byte stream: a client
//! engine that issues `REQUEST`/`CLOSE` frames and consumes response bytes,
//! and a per-connection server worker engine that parses commands and streams
//! file content back, terminated by the reserved `0x00` sentinel byte.
//!
//! Every legal interaction sequence is enforced structurally: each engine is
//! a family of single-state values, and a transition consumes the old state
//! and returns the next one, so an out-of-order call does not typecheck.
//! The engines themselves are pure: they take the bytes that arrived and
//! return the bytes to send, so all protocol logic is verified here, while
//! the transport (sockets, threads) stays outside the library.

pub mod client;
pub mod server;
pub mod store;
pub mod wire;
pub mod worker;

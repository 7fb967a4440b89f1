//! A small remote file service: the wire protocol, the per-connection
//! session rules and the admission control of the server, all free of I/O.
//!
//! Every function here works on plain values. A host program moves the bytes
//! between these functions and its sockets and files.
//!
//! - `types`: the commands and the status codes, and how they are written.
//! - `common`: numbers, files, lines and listings on the wire; paths.
//! - `client`: the requests of a client, and how it reads the answers.
//! - `server`: the users, the session of one connection, and the count of
//!   the sessions that run.
//! - `sync`: the text of the cache that tells how old files are.
//! - `text` and `order`: tokens, and the order of texts.

use vstd::prelude::*;

pub mod client;
pub mod common;
pub mod error;
pub mod order;
pub mod server;
pub mod sync;
pub mod text;
pub mod types;

verus! {

/// The TCP port a server listens on unless told otherwise.
pub const DEFAULT_PORT: u16 = 9045;

} // verus!

//! A single-node coordination service speaking the ZooKeeper protocol: a
//! tree of nodes with sessions, ephemeral and sequential nodes, watches and
//! atomic batches, kept durable by a checksummed write-ahead log.
//!
//! `protocol` reads and writes the wire format, `storage` holds the tree and
//! the sessions, `watch_state` the watches, and `keeper_server` decides what
//! each request does. `changelog` is the log's record and segment format,
//! `auth` the digest authentication and `connection_handler` the per-frame
//! decisions of a connection.

use vstd::prelude::*;

pub mod assoc;
pub mod auth;
pub mod changelog;
pub mod codec;
pub mod config;
pub mod connection_handler;
pub mod keeper_server;
pub mod protocol;
pub mod session_expiry_queue;
pub mod storage;
pub mod text;
pub mod wal;
pub mod watch_state;
pub mod znode;

verus! {

} // verus!

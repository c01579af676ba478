//! The core of a small in-memory key-value server that speaks a RESP subset
//! and replicates writes from a master to its replicas.

pub mod bytes;
pub mod command;
pub mod db;
pub mod master;
pub mod parse;
pub mod registry;
pub mod replica;
pub mod server;
pub mod snapshot;

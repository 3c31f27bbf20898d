//! A listen-server entity-state synchronization library.
//!
//! One authoritative server keeps any number of clients consistent with its
//! entity store over ordered, reliable byte streams. The library owns the
//! message protocol (a self-delimiting, length-prefixed binary encoding),
//! the per-connection framing of inbound byte streams into complete
//! messages, the server's connection bookkeeping, and the synchronization
//! engine, including its delta-compression variant. Socket I/O itself is
//! left to the host application, which hands raw bytes in and takes queued
//! bytes out of each connection.

pub mod client;
pub mod codec;
pub mod connection;
pub mod framing;
pub mod msg;
pub mod server;

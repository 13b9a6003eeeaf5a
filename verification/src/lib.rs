//! The core of an in-memory key/value server that speaks a line-oriented
//! request-response protocol, loads a snapshot of its data at startup, and
//! takes part in single-primary replication.
//!
//! The crate holds what the server decides and computes, on plain values:
//! sockets, files and tasks are left to the program around it. Time is a
//! reading of a clock in milliseconds, which the caller hands in.
//!
//! - [`resp`]: frames, their encoding, and the decoder; [`framing`]: what
//!   holds of the two.
//! - [`command`]: requests, and what the server owes after each;
//!   [`semantics`]: what holds of reads after writes.
//! - [`database`]: the store; [`config`]: the configuration.
//! - [`session`]: a connection, read by read.
//! - [`replication`]: the handshake of a secondary; [`snapshot`]: the
//!   snapshot that a primary sends.
//! - [`rdb`]: the snapshot file and its loader.
//! - [`bytes`], [`decimal`], [`clock`]: byte strings, decimal numbers, clocks.

pub mod bytes;
pub mod clock;
pub mod command;
pub mod config;
pub mod database;
pub mod decimal;
pub mod framing;
pub mod rdb;
pub mod replication;
pub mod resp;
pub mod semantics;
pub mod session;
pub mod snapshot;

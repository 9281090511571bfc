//! A single-node, log-structured key-value store with a request/response
//! protocol on top of it.
//!
//! A store keeps one append-only segment of records and an index from each
//! live key to the offset of its most recent record. Every function is
//! specified against a mathematical model: a segment is a sequence of bytes,
//! the records in it are a sequence obtained by splitting it into lines, and
//! the store itself is the map from keys to values that replaying those
//! records produces.
//!
//! - [`record`], [`segment`], [`index`], [`generation`], [`compaction`] and
//!   [`store`] make up the segment store; [`laws`] states what holds of it.
//! - [`protocol`], [`wire`] and [`framing`] are the messages and their bytes.
//! - [`engine`] is the contract between a store and the connection handler
//!   in [`server`]; [`client`] is the other end of a connection.
//! - [`sstable`] is a file format for sorted entries, and [`utils`] the
//!   marker of a data directory.
//!
//! The library touches no file and no socket: a segment is handed in and out
//! as bytes, and so is a message.
pub mod bytes;
pub mod client;
pub mod compaction;
pub mod engine;
pub mod error;
pub mod framing;
pub mod generation;
pub mod index;
pub mod laws;
pub mod protocol;
pub mod record;
pub mod segment;
pub mod server;
pub mod sstable;
pub mod store;
pub mod utils;
pub mod wire;

pub use engine::CaveyEngine;
pub use error::CaveyError;
pub use record::LogRecord;
pub use store::CaveyStore;

//! An embeddable, single-node key/value store built on a log-structured
//! merge-tree: a write-ahead log in 32 KiB blocks, a pair of in-memory
//! tables with a mutable/immutable role swap, and tiered on-disk level
//! files fed by minor compaction.
//!
//! The store itself never touches the file system: every operation works
//! on in-memory byte images of the log and level files and reports the
//! disk writes and deletions the caller must perform to make the state
//! durable.

pub mod client;
pub mod common;
pub mod config;
pub mod engines;
pub mod server;

pub use common::checksum;
pub use common::WiscError;
pub use engines::{KvsEngine, LsmLogEngine};
pub use server::Server;

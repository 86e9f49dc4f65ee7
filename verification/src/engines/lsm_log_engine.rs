//! The log-structured merge-tree engine: WAL record model and framing,
//! the in-memory table pair, the level directory and the engine proper.

pub mod level;
pub mod lsm_engine;
pub mod mem;
pub mod wal_log;

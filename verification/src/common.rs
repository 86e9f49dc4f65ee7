//! Shared pieces: the error type and small utility functions.

pub mod error_enum;
pub mod fn_util;

pub use error_enum::WiscError;
pub use fn_util::checksum;

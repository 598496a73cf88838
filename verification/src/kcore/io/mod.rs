//! In-memory byte streams.
pub mod cursor;

//! Wrappers around values read and written in place.
pub mod volatile;

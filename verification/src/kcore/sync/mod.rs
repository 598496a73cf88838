//! Values shared over time.
pub mod lazy;

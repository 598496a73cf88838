//! The kernel's own logic: its in-kernel test runner and its memory layout.
pub mod infra;
pub mod mem;

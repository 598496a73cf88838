//! Memory of the running kernel.
pub mod context;
pub mod mmo;
pub mod pagealloc;
pub mod pmm;

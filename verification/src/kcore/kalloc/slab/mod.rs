//! Slab allocators of the core library.
pub mod dynamic;

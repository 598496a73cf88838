//! Allocators that keep their bookkeeping in caller-provided bin records.
pub mod btree;
pub mod buddy;
pub mod slab;

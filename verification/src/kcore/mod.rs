//! Core library: allocators, pointers, synchronisation and tables.
pub mod io;
pub mod kalloc;
pub mod ptr;
pub mod resource;
pub mod sync;
pub mod tables;

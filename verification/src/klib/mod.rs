//! Second generation of the kernel libraries.
pub mod kalloc;
pub mod kio;

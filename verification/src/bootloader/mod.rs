//! The bootloader: the memory map and the frame allocators it builds, and
//! the plans by which it loads the kernel.
pub mod binary;
pub mod bios;
pub mod boot_info;

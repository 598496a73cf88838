//! Kernel support library: allocators, memory maps and small drivers,
//! with their behaviour stated and proved.
#![allow(unused_imports)]

use vstd::prelude::*;

pub mod addr;
pub mod bits;
pub mod bootloader;
pub mod drivers;
pub mod kalloc;
pub mod kcore;
pub mod kernel;
pub mod konsole;
pub mod klib;


[package]
name = "kos"
version = "0.1.0"
edition = "2021"
publish = false

[dependencies]
noto-sans-mono-bitmap = "=0.1.6"
crossbeam-queue = { version = "=0.3.14", default-features = false, features = ["alloc"] }
futures-util = { version = "=0.3.34", default-features = false, features = ["alloc"] }
xmas-elf = "=0.8.0"
rsdp = "=2.0.1"

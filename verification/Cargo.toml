[package]
name = "stablemod"
version = "0.1.0"
edition = "2021"
publish = false

[dependencies]
x86_64 = { version = "=0.15.5", default-features = false, features = ["instructions"] }
uefi = { version = "=0.41.0", features = ["alloc"] }
elf = { version = "=0.8.0", default-features = false }
serde = { version = "=1.0.229", default-features = false, features = ["derive", "alloc"] }
toml = "=1.1.8"
log = "=0.4.35"
syscalls = "=0.8.1"
libc = "=0.2.191"

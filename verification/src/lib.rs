//! Verified core of the Stablemod meta-operating system: the hardware
//! abstraction layer's frame allocators and paging rules, the kernel's
//! capability arenas and their AA tree, the capability syscall decisions,
//! and the bootloader's executable loading plan.
pub mod bitmap;
pub mod capability;
pub mod config;
pub mod devices;
pub mod loader;
pub mod logger;
pub mod memory;
pub mod paging;
pub mod syscall;
pub mod tree;

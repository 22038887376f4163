//! The bootloader's configuration file contents.
use vstd::prelude::*;

verus! {

/// The bootloader configuration: a version and the boot entries.
#[derive(Debug)]
pub struct StrapConfig {
    pub version: String,
    pub boot_entry: Option<Vec<StrapBootEntry>>,
}

/// One boot entry: the kernel and object manager files to load.
#[derive(Debug)]
pub struct StrapBootEntry {
    pub default: Option<bool>,
    pub kernel: String,
    pub objman: String,
}

} // verus!

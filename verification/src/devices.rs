//! Platform devices: the device tree, the random number source and the
//! hypervisor.
use vstd::prelude::*;

verus! {

/// The platform's device tree.
pub struct HalDeviceTree {}

impl HalDeviceTree {
    /// Reads the device tree from the ACPI root pointer at `rsdp`; the
    /// platform layer does not read any table yet.
    pub fn from_rsdp(rsdp: u64) {
    }
}

/// A bus of the device tree.
pub struct HalBus {}

/// A device of the device tree.
pub struct HalDevice {}

/// An interface of a device.
pub struct HalInterface {}

/// The hardware random number generator.
pub struct HalRngGenerator;

impl HalRngGenerator {
    /// The generator.
    pub fn new() -> (g: Self) {
        Self {  }
    }
}

/// The interface of a hypervisor backend.
pub trait HalHypervisorTrait {

}

/// The KVM hypervisor backend, reached through its device file.
pub struct HalKVMHypervisor {
    kvm_fd: i32,
}

} // verus!

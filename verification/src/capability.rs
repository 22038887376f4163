//! Capability handles, capabilities and capability arenas.
use vstd::prelude::*;

verus! {

/// Permission bit allowing a capability's memory to be read.
pub const CAPABILITY_READ: u64 = 0x1;

/// Permission bit allowing a capability's memory to be written.
pub const CAPABILITY_WRITE: u64 = 0x2;

/// Number of the debug-print system call.
pub const SYS_DEBUG: usize = 0;

/// Number of the capability read system call.
pub const SYS_CAP_READ: usize = 9;

/// Names a capability: the arena that holds it and its generation.
#[derive(Clone, Copy, PartialEq, Eq, Structural, Debug)]
pub struct CapabilityHandle {
    pub generation_id: u64,
    pub arena_id: u64,
}

impl CapabilityHandle {
    /// A handle with the given generation and arena.
    pub fn new(generation_id: u64, arena_id: u64) -> (h: Self)
        ensures
            h.generation_id == generation_id,
            h.arena_id == arena_id,
    {
        Self { generation_id, arena_id }
    }
}

/// A capability over a range of physical memory.
#[derive(Clone, Copy, PartialEq, Eq, Structural, Debug)]
pub struct ResourceCapability {
    pub permissions: u64,
    pub resource: u64,
    pub size: u64,
    pub genid: u64,
    pub derived_refs: u64,
    pub virtual_refs: u64,
}

impl ResourceCapability {
    /// A capability with the given fields.
    pub fn new(
        permissions: u64,
        resource: u64,
        size: u64,
        genid: u64,
        derived_refs: u64,
        virtual_refs: u64,
    ) -> (c: Self)
        ensures
            c.permissions == permissions,
            c.resource == resource,
            c.size == size,
            c.genid == genid,
            c.derived_refs == derived_refs,
            c.virtual_refs == virtual_refs,
    {
        Self { permissions, resource, size, genid, derived_refs, virtual_refs }
    }

    /// The all-zero capability.
    pub open spec fn zeroed() -> Self {
        Self {
            permissions: 0,
            resource: 0,
            size: 0,
            genid: 0,
            derived_refs: 0,
            virtual_refs: 0,
        }
    }
}

impl Default for ResourceCapability {
    fn default() -> (c: Self)
        ensures
            c == Self::zeroed(),
    {
        Self::new(0, 0, 0, 0, 0, 0)
    }
}

/// A capability over a range of virtual memory, backed by a resource capability.
#[derive(Clone, Copy, PartialEq, Eq, Structural, Debug)]
pub struct VirtualCapability {
    pub permissions: u64,
    pub resource: u64,
    pub size: u64,
    pub genid: u64,
    pub rescap: CapabilityHandle,
}

impl VirtualCapability {
    /// A virtual capability with the given fields.
    pub fn new(
        permissions: u64,
        resource: u64,
        size: u64,
        genid: u64,
        rescap: CapabilityHandle,
    ) -> (c: Self)
        ensures
            c.permissions == permissions,
            c.resource == resource,
            c.size == size,
            c.genid == genid,
            c.rescap == rescap,
    {
        Self { permissions, resource, size, genid, rescap }
    }
}

/// What an arena holds besides its identity and its place in the arena tree:
/// its slot counts, its own capability and its slots.
pub type ArenaContents = (u32, u32, ResourceCapability, Seq<ResourceCapability>);

/// An arena of resource capabilities. Arenas are also the nodes of the
/// kernel's AA tree of arenas, keyed by `arenaid`.
#[derive(Debug)]
pub struct ResourceCapabilityArena {
    pub arenaid: u64,
    pub slots: u32,
    pub slots_free: u32,
    pub arena_cap: ResourceCapability,
    pub left: Option<Box<ResourceCapabilityArena>>,
    pub right: Option<Box<ResourceCapabilityArena>>,
    pub level: u64,
    pub res_cap: Vec<ResourceCapability>,
}

impl ResourceCapabilityArena {
    /// An arena outside any tree, with no slot storage.
    pub fn new(arenaid: u64, slots: u32, slots_free: u32, arena_cap: ResourceCapability) -> (a: Self)
        ensures
            a.arenaid == arenaid,
            a.slots == slots,
            a.slots_free == slots_free,
            a.arena_cap == arena_cap,
            a.left is None,
            a.right is None,
            a.level == 0,
            a.res_cap@ == Seq::<ResourceCapability>::empty(),
    {
        Self {
            arenaid,
            slots,
            slots_free,
            arena_cap,
            left: None,
            right: None,
            level: 0,
            res_cap: Vec::new(),
        }
    }

    /// The arena's contents, as the arena tree's map view records them.
    pub open spec fn contents(&self) -> ArenaContents {
        (self.slots, self.slots_free, self.arena_cap, self.res_cap@)
    }

    /// The first `slots` capabilities of the arena.
    pub fn get_slots(&self) -> (s: &[ResourceCapability])
        requires
            self.slots <= self.res_cap@.len(),
        ensures
            s@ == self.res_cap@.subrange(0, self.slots as int),
    {
        let n: usize = self.slots as usize;
        let all: &[ResourceCapability] = self.res_cap.as_slice();
        &all[0..n]
    }

    /// The arena's slot storage, for writing slots in place.
    pub fn get_slots_ptr(&mut self) -> (s: &mut Vec<ResourceCapability>)
        ensures
            *s == old(self).res_cap,
            final(self).res_cap == *final(s),
            final(self).arenaid == old(self).arenaid,
            final(self).slots == old(self).slots,
            final(self).slots_free == old(self).slots_free,
            final(self).arena_cap == old(self).arena_cap,
            final(self).left == old(self).left,
            final(self).right == old(self).right,
            final(self).level == old(self).level,
    {
        &mut self.res_cap
    }
}

/// An arena of virtual capabilities.
#[derive(Debug)]
pub struct VirtualCapabilityArena {
    pub arenaid: u64,
    pub slots: u32,
    pub slots_free: u32,
    pub arena_cap: ResourceCapability,
    pub virt_cap: Vec<VirtualCapability>,
}

impl VirtualCapabilityArena {
    /// An arena with no slot storage.
    pub fn new(arenaid: u64, slots: u32, slots_free: u32, arena_cap: ResourceCapability) -> (a: Self)
        ensures
            a.arenaid == arenaid,
            a.slots == slots,
            a.slots_free == slots_free,
            a.arena_cap == arena_cap,
            a.virt_cap@ == Seq::<VirtualCapability>::empty(),
    {
        Self { arenaid, slots, slots_free, arena_cap, virt_cap: Vec::new() }
    }

    /// The first `slots` virtual capabilities of the arena.
    pub fn get_slots(&self) -> (s: &[VirtualCapability])
        requires
            self.slots <= self.virt_cap@.len(),
        ensures
            s@ == self.virt_cap@.subrange(0, self.slots as int),
    {
        let n: usize = self.slots as usize;
        let all: &[VirtualCapability] = self.virt_cap.as_slice();
        &all[0..n]
    }
}

} // verus!

//! The kernel's decisions on capability read and write system calls.
use vstd::prelude::*;
use crate::capability::{
    CapabilityHandle, ResourceCapability, CAPABILITY_READ, CAPABILITY_WRITE,
};
use crate::tree::{find_arena, lemma_search_path, search_path, slots_fit, tree_bst, tree_map, ArenaLink};

verus! {

/// What a capability read or write request comes to.
#[derive(Clone, Copy, PartialEq, Eq, Structural, Debug)]
pub enum CapAccess {
    /// The request fails; the system call returns 1.
    Refused,
    /// The capability exists but lacks the permission: nothing is copied and
    /// the system call returns 0.
    Skipped,
    /// `length` bytes are copied at physical `address`; the system call
    /// returns 0.
    Copy { address: u64, length: u64 },
    /// The offset arithmetic of the request does not fit in 64 bits; the
    /// kernel stops on it.
    Overflow,
}

/// `i` is the first of `slots` whose generation is `genid`.
pub open spec fn is_first_slot(slots: Seq<ResourceCapability>, genid: u64, i: int) -> bool {
    &&& 0 <= i < slots.len()
    &&& slots[i].genid == genid
    &&& forall|j: int| 0 <= j < i ==> slots[j].genid != genid
}

/// Some slot has generation `genid`.
pub open spec fn has_slot(slots: Seq<ResourceCapability>, genid: u64) -> bool {
    exists|i: int| 0 <= i < slots.len() && slots[i].genid == genid
}

/// The first slot whose generation is `genid`.
pub open spec fn first_slot(slots: Seq<ResourceCapability>, genid: u64) -> int {
    choose|i: int| is_first_slot(slots, genid, i)
}

/// The live slots (the first `slots` of them) of the arena that the search
/// for `id` finds.
pub open spec fn arena_slots(root: ArenaLink, id: u64) -> Seq<ResourceCapability> {
    let a = search_path(root, id).unwrap();
    a.res_cap@.subrange(0, a.slots as int)
}

/// The capability a request names: the first live slot with the handle's
/// generation in the arena that the search for the named arena finds, when
/// the two handles name the same arena.
pub open spec fn requested_slot(
    root: ArenaLink,
    arena_handle: CapabilityHandle,
    cap_handle: CapabilityHandle,
) -> Option<ResourceCapability> {
    let id = arena_handle.arena_id;
    if arena_handle.arena_id != cap_handle.arena_id || search_path(root, id) is None
        || !has_slot(arena_slots(root, id), cap_handle.generation_id) {
        None
    } else {
        let s = arena_slots(root, id);
        Some(s[first_slot(s, cap_handle.generation_id)])
    }
}

/// The answer to a request for `len` bytes at offset `off` of the named
/// capability, which needs the permission bits `permission`.
pub open spec fn cap_access_spec(
    root: ArenaLink,
    arena_handle: CapabilityHandle,
    cap_handle: CapabilityHandle,
    off: u64,
    len: u64,
    permission: u64,
) -> CapAccess {
    match requested_slot(root, arena_handle, cap_handle) {
        None => CapAccess::Refused,
        Some(slot) => if slot.permissions & permission == 0 {
            CapAccess::Skipped
        } else if off + len > u64::MAX {
            CapAccess::Overflow
        } else if off + len > slot.size {
            CapAccess::Refused
        } else if slot.resource + off > u64::MAX {
            CapAccess::Overflow
        } else {
            CapAccess::Copy { address: (slot.resource + off) as u64, length: len }
        },
    }
}

/// Decides a request for `len` bytes at offset `off` of the capability named
/// by `cap_handle` in the arena named by `arena_handle`, which needs the
/// permission bits `permission`.
pub fn cap_access(
    root: &ArenaLink,
    arena_handle: &CapabilityHandle,
    cap_handle: &CapabilityHandle,
    off: u64,
    len: u64,
    permission: u64,
) -> (r: CapAccess)
    requires
        slots_fit(*root),
    ensures
        r == cap_access_spec(*root, *arena_handle, *cap_handle, off, len, permission),
{
    if arena_handle.arena_id != cap_handle.arena_id {
        return CapAccess::Refused;
    }
    let arena = match find_arena(root, arena_handle.arena_id) {
        None => {
            return CapAccess::Refused;
        },
        Some(a) => a,
    };
    let ghost id = arena_handle.arena_id;
    let slots = arena.get_slots();
    let ghost s = slots@;
    let mut i: usize = 0;
    while i < slots.len()
        invariant
            slots@ == s,
            id == arena_handle.arena_id,
            arena_handle.arena_id == cap_handle.arena_id,
            search_path(*root, id) is Some,
            slots_fit(*root),
            slots@ == arena_slots(*root, id),
            0 <= i <= s.len(),
            forall|j: int| 0 <= j < i ==> s[j].genid != cap_handle.generation_id,
        decreases s.len() - i,
    {
        let slot = &slots[i];
        if slot.genid == cap_handle.generation_id {
            proof {
                assert(is_first_slot(s, cap_handle.generation_id, i as int));
                let c = first_slot(s, cap_handle.generation_id);
                assert(is_first_slot(s, cap_handle.generation_id, c));
                assert(c == i) by {
                    if c < i {
                        assert(s[c].genid != cap_handle.generation_id);
                    } else if c > i {
                        assert(s[i as int].genid != cap_handle.generation_id);
                    }
                }
            }
            if (slot.permissions & permission) != 0 {
                if off > u64::MAX - len {
                    return CapAccess::Overflow;
                }
                if off + len > slot.size {
                    return CapAccess::Refused;
                }
                if slot.resource > u64::MAX - off {
                    return CapAccess::Overflow;
                }
                return CapAccess::Copy { address: slot.resource + off, length: len };
            }
            return CapAccess::Skipped;
        }
        i = i + 1;
    }
    CapAccess::Refused
}

/// Decides a read of `len` bytes at offset `off` of a capability.
pub fn sys_cap_read(
    root: &ArenaLink,
    arena_handle: &CapabilityHandle,
    cap_handle: &CapabilityHandle,
    off: u64,
    len: u64,
) -> (r: CapAccess)
    requires
        slots_fit(*root),
    ensures
        r == cap_access_spec(*root, *arena_handle, *cap_handle, off, len, CAPABILITY_READ),
{
    cap_access(root, arena_handle, cap_handle, off, len, CAPABILITY_READ)
}

/// Decides a write of `len` bytes at offset `off` of a capability.
pub fn sys_cap_write(
    root: &ArenaLink,
    arena_handle: &CapabilityHandle,
    cap_handle: &CapabilityHandle,
    off: u64,
    len: u64,
) -> (r: CapAccess)
    requires
        slots_fit(*root),
    ensures
        r == cap_access_spec(*root, *arena_handle, *cap_handle, off, len, CAPABILITY_WRITE),
{
    cap_access(root, arena_handle, cap_handle, off, len, CAPABILITY_WRITE)
}

/// A granted copy stays inside the capability the request names, which
/// holds the needed permission: the copied bytes run from `off` to
/// `off + len` within the capability's `size` bytes at `resource`.
pub proof fn law_copy_within_capability(
    root: ArenaLink,
    arena_handle: CapabilityHandle,
    cap_handle: CapabilityHandle,
    off: u64,
    len: u64,
    permission: u64,
)
    ensures
        cap_access_spec(root, arena_handle, cap_handle, off, len, permission) matches CapAccess::Copy {
            address,
            length,
        } ==> requested_slot(root, arena_handle, cap_handle) matches Some(slot) && slot.permissions
            & permission != 0 && length == len && address == slot.resource + off && slot.resource
            <= address && address + length <= slot.resource + slot.size,
{
}

/// A request whose two handles name different arenas, or an arena that is
/// not in the tree, is refused.
pub proof fn law_unknown_arena_refused(
    root: ArenaLink,
    arena_handle: CapabilityHandle,
    cap_handle: CapabilityHandle,
    off: u64,
    len: u64,
    permission: u64,
)
    requires
        arena_handle.arena_id != cap_handle.arena_id || !tree_map(root).dom().contains(
            arena_handle.arena_id,
        ),
    ensures
        cap_access_spec(root, arena_handle, cap_handle, off, len, permission) == CapAccess::Refused,
{
    lemma_search_path(root, arena_handle.arena_id);
}

/// On a search tree whose arenas store their slots, the capability a request
/// names is a live slot of the arena that the tree's map holds under the
/// named id.
pub proof fn law_request_reads_tree(
    root: ArenaLink,
    arena_handle: CapabilityHandle,
    cap_handle: CapabilityHandle,
)
    requires
        tree_bst(root),
        slots_fit(root),
    ensures
        requested_slot(root, arena_handle, cap_handle) matches Some(slot) ==> {
            let c = tree_map(root)[arena_handle.arena_id];
            &&& tree_map(root).dom().contains(arena_handle.arena_id)
            &&& exists|i: int| 0 <= i < c.0 && i < c.3.len() && c.3[i] == slot && slot.genid
                == cap_handle.generation_id
        },
{
    let id = arena_handle.arena_id;
    lemma_search_path(root, id);
    if let Some(slot) = requested_slot(root, arena_handle, cap_handle) {
        let s = arena_slots(root, id);
        let i = first_slot(s, cap_handle.generation_id);
        let w = choose|j: int| 0 <= j < s.len() && s[j].genid == cap_handle.generation_id;
        assert(is_first_slot(s, cap_handle.generation_id, i)) by {
            lemma_first_slot_exists(s, cap_handle.generation_id, w);
        }
        let a = search_path(root, id).unwrap();
        assert(a.slots <= a.res_cap@.len());
        assert(s[i] == a.res_cap@[i]);
        let c = tree_map(root)[id];
        assert(c == a.contents());
        assert(0 <= i < c.0 && i < c.3.len() && c.3[i] == slot && slot.genid == cap_handle.generation_id);
    }
}

/// When some slot has generation `genid`, the first one does.
proof fn lemma_first_slot_exists(s: Seq<ResourceCapability>, genid: u64, w: int)
    requires
        0 <= w < s.len(),
        s[w].genid == genid,
    ensures
        is_first_slot(s, genid, first_slot(s, genid)),
    decreases w,
{
    if exists|j: int| 0 <= j < w && s[j].genid == genid {
        let j = choose|j: int| 0 <= j < w && s[j].genid == genid;
        lemma_first_slot_exists(s, genid, j);
    } else {
        assert(is_first_slot(s, genid, w));
    }
}

/// How a request for `len` bytes at `off` is answered, in terms of the slot
/// it names: no slot, refused; a slot without the permission, skipped; a
/// permitted request that stays within the slot's `size` bytes is copied
/// from `resource + off`, `len` bytes, and is never refused; one that runs
/// past the slot's end is refused; and one whose offset arithmetic does not
/// fit in 64 bits stops.
pub proof fn law_request_answer(
    root: ArenaLink,
    arena_handle: CapabilityHandle,
    cap_handle: CapabilityHandle,
    off: u64,
    len: u64,
    permission: u64,
)
    ensures
        ({
            let a = cap_access_spec(root, arena_handle, cap_handle, off, len, permission);
            match requested_slot(root, arena_handle, cap_handle) {
                None => a == CapAccess::Refused,
                Some(slot) => {
                    &&& slot.permissions & permission == 0 ==> a == CapAccess::Skipped
                    &&& slot.permissions & permission != 0 && off + len <= slot.size
                        && slot.resource + off <= u64::MAX ==> a == (CapAccess::Copy {
                        address: (slot.resource + off) as u64,
                        length: len,
                    })
                    &&& slot.permissions & permission != 0 && off + len <= u64::MAX && off + len
                        > slot.size ==> a == CapAccess::Refused
                    &&& slot.permissions & permission != 0 && (off + len > u64::MAX || (off + len
                        <= slot.size && slot.resource + off > u64::MAX)) ==> a == CapAccess::Overflow
                    &&& a == CapAccess::Refused ==> slot.permissions & permission != 0 && off + len
                        > slot.size
                },
            }
        }),
{
}

/// A request names the first live slot, in slot order, whose generation is
/// the handle's, in the arena that the search for the named arena finds;
/// it names none exactly when the handles name different arenas, the search
/// finds no arena, or no live slot has that generation.
pub proof fn law_request_names_first_slot(
    root: ArenaLink,
    arena_handle: CapabilityHandle,
    cap_handle: CapabilityHandle,
)
    requires
        slots_fit(root),
    ensures
        ({
            let id = arena_handle.arena_id;
            let g = cap_handle.generation_id;
            match requested_slot(root, arena_handle, cap_handle) {
                Some(slot) => {
                    &&& cap_handle.arena_id == id
                    &&& search_path(root, id) is Some
                    &&& exists|i: int|
                        #![trigger search_path(root, id)->Some_0.res_cap@[i]]
                        0 <= i < search_path(root, id)->Some_0.slots && search_path(root, id)->Some_0.res_cap@[i]
                            == slot && slot.genid == g && forall|j: int|
                            0 <= j < i ==> #[trigger] search_path(root, id)->Some_0.res_cap@[j].genid != g
                },
                None => cap_handle.arena_id != id || search_path(root, id) is None || forall|j: int|
                    0 <= j < search_path(root, id)->Some_0.slots ==> #[trigger] search_path(
                        root,
                        id,
                    )->Some_0.res_cap@[j].genid != g,
            }
        }),
{
    let id = arena_handle.arena_id;
    let g = cap_handle.generation_id;
    lemma_search_path(root, id);
    if cap_handle.arena_id == id && search_path(root, id) is Some {
        let a = search_path(root, id)->Some_0;
        let s = arena_slots(root, id);
        assert(a.slots <= a.res_cap@.len());
        if has_slot(s, g) {
            let w = choose|j: int| 0 <= j < s.len() && s[j].genid == g;
            lemma_first_slot_exists(s, g, w);
            let i = first_slot(s, g);
            assert(s[i] == a.res_cap@[i]);
            assert forall|j: int| 0 <= j < i implies #[trigger] a.res_cap@[j].genid != g by {
                assert(s[j] == a.res_cap@[j]);
            }
        } else {
            assert forall|j: int| 0 <= j < a.slots implies #[trigger] a.res_cap@[j].genid != g by {
                assert(s[j] == a.res_cap@[j]);
            }
        }
    }
}

} // verus!

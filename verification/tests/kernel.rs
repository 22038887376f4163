use stablemod::capability::{
    CapabilityHandle, ResourceCapability, ResourceCapabilityArena, VirtualCapability,
    VirtualCapabilityArena, CAPABILITY_READ, CAPABILITY_WRITE,
};
use stablemod::syscall::{cap_access, sys_cap_read, sys_cap_write, CapAccess};
use stablemod::tree::{delete_arena, find_arena, insert_arena, ArenaLink};

fn cap(genid: u64, permissions: u64, resource: u64, size: u64) -> ResourceCapability {
    ResourceCapability::new(permissions, resource, size, genid, 0, 0)
}

fn arena(id: u64) -> Box<ResourceCapabilityArena> {
    Box::new(ResourceCapabilityArena::new(id, 0, 0, cap(id, 0, 0, 0)))
}

fn build(ids: &[u64]) -> ArenaLink {
    let mut root: ArenaLink = None;
    for &id in ids {
        root = insert_arena(root, arena(id));
    }
    root
}

fn keys(t: &ArenaLink, out: &mut Vec<u64>) {
    if let Some(n) = t {
        keys(&n.left, out);
        out.push(n.arenaid);
        keys(&n.right, out);
    }
}

fn height(t: &ArenaLink) -> usize {
    match t {
        None => 0,
        Some(n) => 1 + height(&n.left).max(height(&n.right)),
    }
}

/// Checks the AA tree rules: a left child sits one level below its parent, a
/// right child on its parent's level or one below, a right grandchild below
/// its grandparent, leaves at level 1.
fn aa_valid(t: &ArenaLink) -> bool {
    match t {
        None => true,
        Some(n) => {
            let ll = n.left.as_ref().map_or(0, |l| l.level);
            let rl = n.right.as_ref().map_or(0, |r| r.level);
            let rrl = n.right.as_ref().and_then(|r| r.right.as_ref()).map_or(0, |rr| rr.level);
            (n.left.is_some() || n.right.is_some() || n.level == 1)
                && ll + 1 == n.level
                && (rl == n.level || rl + 1 == n.level)
                && rrl < n.level
                && aa_valid(&n.left)
                && aa_valid(&n.right)
        }
    }
}

#[test]
fn capability_handle_new() {
    let h = CapabilityHandle::new(7, 9);
    assert_eq!(h.generation_id, 7);
    assert_eq!(h.arena_id, 9);
}

#[test]
fn resource_capability_new_and_default() {
    let c = ResourceCapability::new(1, 2, 3, 4, 5, 6);
    assert_eq!((c.permissions, c.resource, c.size, c.genid, c.derived_refs, c.virtual_refs), (1, 2, 3, 4, 5, 6));
    assert_eq!(ResourceCapability::default(), ResourceCapability::new(0, 0, 0, 0, 0, 0));
}

#[test]
fn virtual_capability_new() {
    let v = VirtualCapability::new(1, 0x1000, 0x2000, 5, CapabilityHandle::new(5, 6));
    assert_eq!(v.rescap, CapabilityHandle::new(5, 6));
    assert_eq!(v.size, 0x2000);
}

#[test]
fn arena_new_and_slots() {
    let mut a = ResourceCapabilityArena::new(42, 2, 1, cap(1, 0, 0, 0));
    assert_eq!(a.arenaid, 42);
    assert_eq!(a.level, 0);
    assert!(a.left.is_none() && a.right.is_none());
    a.get_slots_ptr().push(cap(10, 1, 0, 4096));
    a.get_slots_ptr().push(cap(11, 1, 0, 4096));
    a.get_slots_ptr().push(cap(12, 1, 0, 4096));
    let slots = a.get_slots();
    assert_eq!(slots.len(), 2);
    assert_eq!(slots[1].genid, 11);
}

#[test]
fn virtual_arena_new_and_slots() {
    let mut a = VirtualCapabilityArena::new(3, 1, 0, cap(1, 0, 0, 0));
    a.virt_cap.push(VirtualCapability::new(1, 2, 3, 4, CapabilityHandle::new(4, 3)));
    assert_eq!(a.get_slots().len(), 1);
    assert_eq!(a.get_slots()[0].genid, 4);
}

#[test]
fn tree_insert_then_find() {
    let root = build(&[50, 20, 80, 10, 30, 70, 90, 60]);
    for id in [10, 20, 30, 50, 60, 70, 80, 90] {
        assert_eq!(find_arena(&root, id).map(|a| a.arenaid), Some(id));
    }
    assert!(find_arena(&root, 55).is_none());
    assert!(find_arena(&None, 1).is_none());
}

#[test]
fn tree_keeps_order_and_balance() {
    let ids: Vec<u64> = (1..=200).collect();
    let root = build(&ids);
    let mut ks = Vec::new();
    keys(&root, &mut ks);
    assert_eq!(ks, ids);
    assert!(aa_valid(&root));
    assert!(height(&root) <= 2 * 8 + 1);
}

#[test]
fn tree_duplicate_insert_keeps_first() {
    let root = insert_arena(None, Box::new(ResourceCapabilityArena::new(5, 1, 0, cap(1, 0, 0, 0))));
    let root = insert_arena(root, Box::new(ResourceCapabilityArena::new(5, 9, 9, cap(2, 0, 0, 0))));
    let a = find_arena(&root, 5).unwrap();
    assert_eq!(a.slots, 1);
    let mut ks = Vec::new();
    keys(&root, &mut ks);
    assert_eq!(ks, vec![5]);
}

#[test]
fn tree_delete_leaf_and_inner() {
    let mut root = build(&[4, 2, 6, 1, 3, 5, 7]);
    root = delete_arena(root, 1);
    assert!(find_arena(&root, 1).is_none());
    root = delete_arena(root, 4);
    assert!(find_arena(&root, 4).is_none());
    let mut ks = Vec::new();
    keys(&root, &mut ks);
    assert_eq!(ks, vec![2, 3, 5, 6, 7]);
    root = delete_arena(root, 100);
    let mut ks2 = Vec::new();
    keys(&root, &mut ks2);
    assert_eq!(ks2, vec![2, 3, 5, 6, 7]);
}

#[test]
fn tree_delete_everything() {
    let ids: Vec<u64> = (1..=64).map(|i| i * 3 % 67).collect();
    let mut root = build(&ids);
    for &id in &ids {
        root = delete_arena(root, id);
        assert!(find_arena(&root, id).is_none());
        assert!(aa_valid(&root));
    }
    assert!(root.is_none());
}

#[test]
fn tree_delete_two_children_moves_contents() {
    let root = insert_arena(None, Box::new(ResourceCapabilityArena::new(2, 7, 0, cap(1, 0, 0, 0))));
    let root = insert_arena(root, Box::new(ResourceCapabilityArena::new(1, 1, 0, cap(1, 0, 0, 0))));
    let root = insert_arena(root, Box::new(ResourceCapabilityArena::new(3, 3, 0, cap(1, 0, 0, 0))));
    // Arena 2 is the root with two children; deleting it gives its place,
    // and its contents, to its successor's id 3.
    let root = delete_arena(root, 2);
    assert!(find_arena(&root, 2).is_none());
    assert_eq!(find_arena(&root, 3).unwrap().slots, 7);
    assert_eq!(find_arena(&root, 1).unwrap().slots, 1);
}

fn kernel_tree() -> ArenaLink {
    let mut a = ResourceCapabilityArena::new(7, 2, 0, cap(1, 0, 0, 0));
    a.res_cap.push(cap(100, CAPABILITY_READ, 0x10_0000, 0x1000));
    a.res_cap.push(cap(200, CAPABILITY_READ | CAPABILITY_WRITE, 0x20_0000, 0x2000));
    a.res_cap.push(cap(300, CAPABILITY_READ, 0x30_0000, 0x1000));
    let root = insert_arena(None, Box::new(a));
    insert_arena(root, arena(3))
}

#[test]
fn cap_read_within_bounds_copies() {
    let root = kernel_tree();
    let h = CapabilityHandle::new(0, 7);
    let c = CapabilityHandle::new(100, 7);
    assert_eq!(sys_cap_read(&root, &h, &c, 0x10, 0x20), CapAccess::Copy { address: 0x10_0010, length: 0x20 });
    assert_eq!(sys_cap_read(&root, &h, &c, 0x0, 0x1000), CapAccess::Copy { address: 0x10_0000, length: 0x1000 });
}

#[test]
fn cap_read_out_of_bounds_refused() {
    let root = kernel_tree();
    let h = CapabilityHandle::new(0, 7);
    let c = CapabilityHandle::new(100, 7);
    assert_eq!(sys_cap_read(&root, &h, &c, 0xff0, 0x20), CapAccess::Refused);
}

#[test]
fn cap_write_without_permission_skipped() {
    let root = kernel_tree();
    let h = CapabilityHandle::new(0, 7);
    let c = CapabilityHandle::new(100, 7);
    assert_eq!(sys_cap_write(&root, &h, &c, 0, 8), CapAccess::Skipped);
    let w = CapabilityHandle::new(200, 7);
    assert_eq!(sys_cap_write(&root, &h, &w, 8, 8), CapAccess::Copy { address: 0x20_0008, length: 8 });
}

#[test]
fn cap_request_mismatched_or_unknown_refused() {
    let root = kernel_tree();
    assert_eq!(sys_cap_read(&root, &CapabilityHandle::new(0, 7), &CapabilityHandle::new(100, 3), 0, 1), CapAccess::Refused);
    assert_eq!(sys_cap_read(&root, &CapabilityHandle::new(0, 9), &CapabilityHandle::new(100, 9), 0, 1), CapAccess::Refused);
    assert_eq!(sys_cap_read(&root, &CapabilityHandle::new(0, 7), &CapabilityHandle::new(999, 7), 0, 1), CapAccess::Refused);
}

#[test]
fn cap_request_only_sees_live_slots() {
    let root = kernel_tree();
    // The arena has three stored slots but only its first two are live.
    let r = cap_access(&root, &CapabilityHandle::new(0, 7), &CapabilityHandle::new(300, 7), 0, 1, CAPABILITY_READ);
    assert_eq!(r, CapAccess::Refused);
}

#[test]
fn find_follows_the_search_path() {
    // A hand-built tree that breaks the search order: 9 sits left of 5, so
    // the search for 9 turns right at 5 and misses it.
    let mut root = arena(5);
    root.left = Some(arena(9));
    root.right = Some(arena(7));
    let t: ArenaLink = Some(root);
    assert!(find_arena(&t, 9).is_none());
    assert_eq!(find_arena(&t, 7).map(|a| a.arenaid), Some(7));
    let h = CapabilityHandle::new(1, 9);
    assert_eq!(sys_cap_read(&t, &h, &h, 0, 1), CapAccess::Refused);
}

#[test]
fn cap_request_offset_overflow_stops() {
    let root = kernel_tree();
    let h = CapabilityHandle::new(0, 7);
    let c = CapabilityHandle::new(100, 7);
    assert_eq!(sys_cap_read(&root, &h, &c, u64::MAX, 1), CapAccess::Overflow);
    // Without the permission nothing is added, so nothing overflows.
    assert_eq!(sys_cap_write(&root, &h, &c, u64::MAX, 1), CapAccess::Skipped);
}

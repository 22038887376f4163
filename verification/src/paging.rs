//! Page permissions and the page-by-page plan of a mapping.
use vstd::prelude::*;
use x86_64::structures::paging::{Page, PageTableFlags, PhysFrame, Size4KiB};
use x86_64::{PhysAddr, VirtAddr};

verus! {

/// Where the kernel maps all of physical memory.
pub const KERNEL_MEMORY_MAPPING_OFFSET: u64 = 0xFFFF800000000000;

/// Size in bytes of the pages that mappings are made of.
pub const PAGE_SIZE: u64 = 4096;

/// Access rights of a mapping: kernel-only (`K…`) or user-accessible, with
/// any of read (`R`), write (`W`) and execute (`E`); `N` grants nothing.
#[derive(Clone, Copy, PartialEq, Eq, Structural, Debug)]
pub enum HalPageFlags {
    KN,
    KR,
    KRE,
    KRW,
    KRWE,
    N,
    R,
    RE,
    RW,
    RWE,
}

impl HalPageFlags {
    /// Whether the flags let user code reach the mapping.
    pub open spec fn is_user(self) -> bool {
        match self {
            HalPageFlags::N | HalPageFlags::R | HalPageFlags::RE | HalPageFlags::RW
            | HalPageFlags::RWE => true,
            _ => false,
        }
    }

    /// Whether the mapping can be read.
    pub open spec fn can_read(self) -> bool {
        !(self == HalPageFlags::KN || self == HalPageFlags::N)
    }

    /// Whether the mapping can be written.
    pub open spec fn can_write(self) -> bool {
        match self {
            HalPageFlags::KRW | HalPageFlags::KRWE | HalPageFlags::RW | HalPageFlags::RWE => true,
            _ => false,
        }
    }

    /// Whether code in the mapping can run.
    pub open spec fn can_execute(self) -> bool {
        match self {
            HalPageFlags::KRE | HalPageFlags::KRWE | HalPageFlags::RE | HalPageFlags::RWE => true,
            _ => false,
        }
    }
}

/// Bit of an x86-64 page table entry: the page is present.
pub const X86_PRESENT: u64 = 0x1;

/// Bit of an x86-64 page table entry: the page is writable.
pub const X86_WRITABLE: u64 = 0x2;

/// Bit of an x86-64 page table entry: user code may access the page.
pub const X86_USER_ACCESSIBLE: u64 = 0x4;

/// Bit of an x86-64 page table entry: no instruction may be fetched.
pub const X86_NO_EXECUTE: u64 = 0x8000_0000_0000_0000;

/// The x86-64 page table entry flags of each permission.
pub open spec fn x86_flags_of(flags: HalPageFlags) -> u64 {
    match flags {
        HalPageFlags::KN => X86_NO_EXECUTE,
        HalPageFlags::KR => X86_PRESENT | X86_NO_EXECUTE,
        HalPageFlags::KRE => X86_PRESENT,
        HalPageFlags::KRW => X86_PRESENT | X86_WRITABLE | X86_NO_EXECUTE,
        HalPageFlags::KRWE => X86_PRESENT | X86_WRITABLE,
        HalPageFlags::N => X86_NO_EXECUTE | X86_USER_ACCESSIBLE,
        HalPageFlags::R => X86_PRESENT | X86_NO_EXECUTE | X86_USER_ACCESSIBLE,
        HalPageFlags::RE => X86_PRESENT | X86_USER_ACCESSIBLE,
        HalPageFlags::RW => X86_PRESENT | X86_WRITABLE | X86_NO_EXECUTE | X86_USER_ACCESSIBLE,
        HalPageFlags::RWE => X86_PRESENT | X86_WRITABLE | X86_USER_ACCESSIBLE,
    }
}

/// `PageTableFlags::PRESENT` of the x86_64 crate; its source defines it as bit 0.
#[verifier::external_body]
fn x86_present() -> (bits: u64)
    ensures
        bits == X86_PRESENT,
{
    PageTableFlags::PRESENT.bits()
}

/// `PageTableFlags::WRITABLE` of the x86_64 crate; its source defines it as bit 1.
#[verifier::external_body]
fn x86_writable() -> (bits: u64)
    ensures
        bits == X86_WRITABLE,
{
    PageTableFlags::WRITABLE.bits()
}

/// `PageTableFlags::USER_ACCESSIBLE` of the x86_64 crate; its source defines it
/// as bit 2.
#[verifier::external_body]
fn x86_user_accessible() -> (bits: u64)
    ensures
        bits == X86_USER_ACCESSIBLE,
{
    PageTableFlags::USER_ACCESSIBLE.bits()
}

/// `PageTableFlags::NO_EXECUTE` of the x86_64 crate; its source defines it as
/// bit 63.
#[verifier::external_body]
fn x86_no_execute() -> (bits: u64)
    ensures
        bits == X86_NO_EXECUTE,
{
    PageTableFlags::NO_EXECUTE.bits()
}

/// The x86-64 page table entry flags that grant `flags`.
pub fn x86_page_table_flags(flags: HalPageFlags) -> (bits: u64)
    ensures
        bits == x86_flags_of(flags),
{
    let p = x86_present();
    let w = x86_writable();
    let u = x86_user_accessible();
    let nx = x86_no_execute();
    match flags {
        HalPageFlags::KN => nx,
        HalPageFlags::KR => p | nx,
        HalPageFlags::KRE => p,
        HalPageFlags::KRW => p | w | nx,
        HalPageFlags::KRWE => p | w,
        HalPageFlags::N => nx | u,
        HalPageFlags::R => p | nx | u,
        HalPageFlags::RE => p | u,
        HalPageFlags::RW => p | w | nx | u,
        HalPageFlags::RWE => p | w | u,
    }
}

/// The x86-64 entry flags say what the permission grants: present when it
/// grants any access, writable when it grants writes, user-accessible for
/// user permissions, and non-executable unless it grants execution.
pub proof fn law_x86_flags_match_permissions(flags: HalPageFlags)
    ensures
        (x86_flags_of(flags) & X86_PRESENT != 0) == flags.can_read(),
        (x86_flags_of(flags) & X86_WRITABLE != 0) == flags.can_write(),
        (x86_flags_of(flags) & X86_USER_ACCESSIBLE != 0) == flags.is_user(),
        (x86_flags_of(flags) & X86_NO_EXECUTE != 0) == !flags.can_execute(),
{
    assert(0x8000_0000_0000_0000u64 & 1 == 0) by (bit_vector);
    assert(0x8000_0000_0000_0000u64 & 2 == 0) by (bit_vector);
    assert(0x8000_0000_0000_0000u64 & 4 == 0) by (bit_vector);
    assert((1u64 | 0x8000_0000_0000_0000u64) == 0x8000_0000_0000_0001u64) by (bit_vector);
    assert((1u64 | 2u64 | 0x8000_0000_0000_0000u64) == 0x8000_0000_0000_0003u64) by (bit_vector);
    assert((1u64 | 2u64) == 3u64) by (bit_vector);
    assert((0x8000_0000_0000_0000u64 | 4u64) == 0x8000_0000_0000_0004u64) by (bit_vector);
    assert((1u64 | 0x8000_0000_0000_0000u64 | 4u64) == 0x8000_0000_0000_0005u64) by (bit_vector);
    assert((1u64 | 4u64) == 5u64) by (bit_vector);
    assert((1u64 | 2u64 | 0x8000_0000_0000_0000u64 | 4u64) == 0x8000_0000_0000_0007u64)
        by (bit_vector);
    assert((1u64 | 2u64 | 4u64) == 7u64) by (bit_vector);
    assert(forall|x: u64| #![auto] x == 0x8000_0000_0000_0000u64 || x == 0x8000_0000_0000_0001u64
        || x == 0x8000_0000_0000_0003u64 || x == 0x8000_0000_0000_0004u64 || x
        == 0x8000_0000_0000_0005u64 || x == 0x8000_0000_0000_0007u64 || x == 1u64 || x == 3u64
        || x == 5u64 || x == 7u64 ==> ((x & 1 != 0) == (x % 2 == 1) && (x & 2 != 0) == ((x / 2)
        % 2 == 1) && (x & 4 != 0) == ((x / 4) % 2 == 1) && (x & 0x8000_0000_0000_0000u64 != 0)
        == (x >= 0x8000_0000_0000_0000u64))) by (bit_vector);
}

/// `mmap` protection: no access.
pub const PROT_NONE: i32 = 0;

/// `mmap` protection: pages may be read.
pub const PROT_READ: i32 = 0x1;

/// `mmap` protection: pages may be written.
pub const PROT_WRITE: i32 = 0x2;

/// `mmap` protection: pages may be executed.
pub const PROT_EXEC: i32 = 0x4;

/// The `mmap` protection of each user permission.
pub open spec fn mmap_prot_of(flags: HalPageFlags) -> i32 {
    match flags {
        HalPageFlags::R => PROT_READ,
        HalPageFlags::RE => PROT_READ | PROT_EXEC,
        HalPageFlags::RW => PROT_READ | PROT_WRITE,
        HalPageFlags::RWE => PROT_READ | PROT_WRITE | PROT_EXEC,
        _ => PROT_NONE,
    }
}

/// The `mmap` protection that grants the user permission `flags`; hosted
/// mappings have no kernel-only permissions.
pub fn linux_mmap_prot(flags: HalPageFlags) -> (prot: i32)
    requires
        flags.is_user(),
    ensures
        prot == mmap_prot_of(flags),
{
    match flags {
        HalPageFlags::N => PROT_NONE,
        HalPageFlags::R => PROT_READ,
        HalPageFlags::RE => PROT_READ | PROT_EXEC,
        HalPageFlags::RW => PROT_READ | PROT_WRITE,
        _ => PROT_READ | PROT_WRITE | PROT_EXEC,
    }
}

/// The `mmap` protection of a user permission says what it grants: the pages
/// are readable, writable and executable exactly when the permission grants
/// reads, writes and execution.
pub proof fn law_mmap_prot_matches_permissions(flags: HalPageFlags)
    requires
        flags.is_user(),
    ensures
        (mmap_prot_of(flags) & PROT_READ != 0) == flags.can_read(),
        (mmap_prot_of(flags) & PROT_WRITE != 0) == flags.can_write(),
        (mmap_prot_of(flags) & PROT_EXEC != 0) == flags.can_execute(),
{
    assert((1i32 | 4i32) == 5i32 && (1i32 | 2i32) == 3i32 && (1i32 | 2i32 | 4i32) == 7i32)
        by (bit_vector);
    assert(0i32 & 1 == 0 && 0i32 & 2 == 0 && 0i32 & 4 == 0 && 1i32 & 1 != 0 && 1i32 & 2 == 0
        && 1i32 & 4 == 0 && 5i32 & 1 != 0 && 5i32 & 2 == 0 && 5i32 & 4 != 0 && 3i32 & 1 != 0
        && 3i32 & 2 != 0 && 3i32 & 4 == 0 && 7i32 & 1 != 0 && 7i32 & 2 != 0 && 7i32 & 4 != 0)
        by (bit_vector);
}

/// `addr` is a canonical x86-64 virtual address: bits 48 to 63 copy bit 47.
pub open spec fn is_canonical(addr: u64) -> bool {
    addr < 0x0000_8000_0000_0000 || addr >= 0xffff_8000_0000_0000
}

/// `addr` is a valid x86-64 physical address: bits 52 to 63 are clear.
pub open spec fn is_physical(addr: u64) -> bool {
    addr < 0x0010_0000_0000_0000
}

/// `addr` rounded down to its page.
pub open spec fn page_floor(addr: u64) -> u64 {
    (addr - addr % PAGE_SIZE) as u64
}

/// A page floor is page aligned and is the start of the page that holds the
/// address: `addr` lies in the 4 KiB from it.
pub proof fn law_page_floor_holds_address(addr: u64)
    ensures
        page_floor(addr) % PAGE_SIZE == 0,
        page_floor(addr) <= addr < page_floor(addr) + PAGE_SIZE,
{
}

/// Start of the 4 KiB frame holding physical address `addr`:
/// `PhysFrame::<Size4KiB>::containing_address(PhysAddr::new(addr))` of the
/// x86_64 crate. `PhysAddr::new` panics when a bit from 52 up is set; the
/// frame starts at `addr` aligned down to 4 KiB.
#[verifier::external_body]
fn x86_frame_start(addr: u64) -> (start: u64)
    requires
        is_physical(addr),
    ensures
        start == page_floor(addr),
{
    PhysFrame::<Size4KiB>::containing_address(PhysAddr::new(addr)).start_address().as_u64()
}

/// Start of the 4 KiB page holding virtual address `addr`:
/// `Page::<Size4KiB>::containing_address(VirtAddr::new(addr))` of the x86_64
/// crate. `VirtAddr::new` panics on a non-canonical address; the page starts
/// at `addr` aligned down to 4 KiB.
#[verifier::external_body]
fn x86_page_start(addr: u64) -> (start: u64)
    requires
        is_canonical(addr),
    ensures
        start == page_floor(addr),
{
    Page::<Size4KiB>::containing_address(VirtAddr::new(addr)).start_address().as_u64()
}

/// Number of 4 KiB steps from 0 that stay below `length`.
pub open spec fn page_steps(length: usize) -> nat {
    ((length as int + PAGE_SIZE - 1) / (PAGE_SIZE as int)) as nat
}

/// Step `k` of a mapping from `phys_addr` to `virt_addr` lies at a valid
/// physical and a canonical virtual address.
pub open spec fn mapping_step_valid(phys_addr: u64, virt_addr: u64, k: int) -> bool {
    &&& phys_addr + k * PAGE_SIZE <= u64::MAX
    &&& is_physical((phys_addr + k * PAGE_SIZE) as u64)
    &&& virt_addr + k * PAGE_SIZE <= u64::MAX
    &&& is_canonical((virt_addr + k * PAGE_SIZE) as u64)
}

/// Every step of a mapping of `length` bytes from `phys_addr` to `virt_addr`
/// is a valid physical and a canonical virtual address.
pub open spec fn mapping_addresses_valid(phys_addr: u64, virt_addr: u64, length: usize) -> bool {
    forall|k: int|
        0 <= k < page_steps(length) ==> #[trigger] mapping_step_valid(phys_addr, virt_addr, k)
}

/// The frame and page of each 4 KiB step of a mapping of `length` bytes of
/// physical memory from `phys_addr` at virtual address `virt_addr`: one pair
/// (frame start, page start) per offset `0, 4096, …` below `length`.
pub fn mapping_pages(phys_addr: u64, virt_addr: u64, length: usize) -> (pages: Vec<(u64, u64)>)
    requires
        mapping_addresses_valid(phys_addr, virt_addr, length),
    ensures
        pages@.len() == page_steps(length),
        forall|k: int|
            0 <= k < pages@.len() ==> #[trigger] pages@[k] == (
                page_floor((phys_addr + k * PAGE_SIZE) as u64),
                page_floor((virt_addr + k * PAGE_SIZE) as u64),
            ),
{
    let steps: usize = length / 4096 + if length % 4096 != 0 {
        1
    } else {
        0
    };
    assert(steps == page_steps(length));
    let mut pages: Vec<(u64, u64)> = Vec::new();
    let mut k: usize = 0;
    while k < steps
        invariant
            steps == page_steps(length),
            k <= steps,
            mapping_addresses_valid(phys_addr, virt_addr, length),
            pages@.len() == k,
            forall|j: int|
                0 <= j < k ==> #[trigger] pages@[j] == (
                    page_floor((phys_addr + j * PAGE_SIZE) as u64),
                    page_floor((virt_addr + j * PAGE_SIZE) as u64),
                ),
        decreases steps - k,
    {
        proof {
            assert(mapping_step_valid(phys_addr, virt_addr, k as int));
        }
        let off = (k as u64) * 4096;
        let frame = x86_frame_start(phys_addr + off);
        let page = x86_page_start(virt_addr + off);
        pages.push((frame, page));
        k = k + 1;
    }
    pages
}

} // verus!

use stablemod::loader::{
    elf_check_header, elf_executable_info, elf_image_at, elf_image_layout, elf_load_range, elf_prepare_image, elf_prepare_image_hosted, elf_prepare_stack,
    elf_relocation_patches, elf_segment_flags, elf_segment_plan, elf_stack_layout, ElfFileHeader,
    ElfLoadError, ElfRelocation, ElfSegment, ElfSegmentMapping, EM_AARCH64, EM_X86_64, ET_DYN,
    ET_EXEC, PT_LOAD,
};
use stablemod::loader::{
    ELFOSABI_SYSV, PF_NONE, PF_R, PF_W, PF_X, R_X86_64_RELATIVE, SHT_RELA,
};
use stablemod::memory::{HalFrameAllocatorWrapper, HalMemfdFrameAllocator};
use stablemod::paging::HalPageFlags;

fn put16(b: &mut Vec<u8>, at: usize, v: u16) {
    b[at..at + 2].copy_from_slice(&v.to_le_bytes());
}
fn put32(b: &mut Vec<u8>, at: usize, v: u32) {
    b[at..at + 4].copy_from_slice(&v.to_le_bytes());
}
fn put64(b: &mut Vec<u8>, at: usize, v: u64) {
    b[at..at + 8].copy_from_slice(&v.to_le_bytes());
}

/// A little-endian ELF64 x86-64 shared object: a read-execute segment at 0
/// and a read-write segment at 0x2000 reaching 0x3800, and one relocation
/// section with a base-relative and an absolute relocation.
fn sample_elf(e_type: u16) -> Vec<u8> {
    let mut b = vec![0u8; 0x280];
    b[0..4].copy_from_slice(&[0x7f, b'E', b'L', b'F']);
    b[4] = 2;
    b[5] = 1;
    b[6] = 1;
    put16(&mut b, 16, e_type);
    put16(&mut b, 18, 62);
    put32(&mut b, 20, 1);
    put64(&mut b, 24, 0x1010);
    put64(&mut b, 32, 64);
    put64(&mut b, 40, 0x200);
    put16(&mut b, 52, 64);
    put16(&mut b, 54, 56);
    put16(&mut b, 56, 2);
    put16(&mut b, 58, 64);
    put16(&mut b, 60, 2);
    put16(&mut b, 62, 0);
    // program header 0: LOAD R+X
    let p = 64;
    put32(&mut b, p, 1);
    put32(&mut b, p + 4, 5);
    put64(&mut b, p + 8, 0);
    put64(&mut b, p + 16, 0);
    put64(&mut b, p + 32, 0x100);
    put64(&mut b, p + 40, 0x100);
    put64(&mut b, p + 48, 0x1000);
    // program header 1: LOAD R+W
    let p = 64 + 56;
    put32(&mut b, p, 1);
    put32(&mut b, p + 4, 6);
    put64(&mut b, p + 8, 0x100);
    put64(&mut b, p + 16, 0x2000);
    put64(&mut b, p + 32, 0x20);
    put64(&mut b, p + 40, 0x1800);
    put64(&mut b, p + 48, 0x1000);
    // relocations
    put64(&mut b, 0x180, 0x2000);
    put64(&mut b, 0x188, 8);
    put64(&mut b, 0x190, 0x1010);
    put64(&mut b, 0x198, 0x2008);
    put64(&mut b, 0x1a0, 1);
    put64(&mut b, 0x1a8, 0x40);
    // section header 1: RELA
    let s = 0x200 + 64;
    put32(&mut b, s + 4, 4);
    put64(&mut b, s + 24, 0x180);
    put64(&mut b, s + 32, 48);
    put64(&mut b, s + 48, 8);
    put64(&mut b, s + 56, 24);
    b
}

fn allocator() -> HalFrameAllocatorWrapper<HalMemfdFrameAllocator> {
    HalFrameAllocatorWrapper::new(HalMemfdFrameAllocator::new(0x1000_0000, 128 * 4096))
}

#[test]
fn segment_flags_table() {
    assert_eq!(elf_segment_flags(0), Some(HalPageFlags::N));
    assert_eq!(elf_segment_flags(4), Some(HalPageFlags::R));
    assert_eq!(elf_segment_flags(6), Some(HalPageFlags::RW));
    assert_eq!(elf_segment_flags(5), Some(HalPageFlags::RE));
    assert_eq!(elf_segment_flags(7), None);
    assert_eq!(elf_segment_flags(1), None);
}

#[test]
fn header_check() {
    let h = ElfFileHeader { class64: true, osabi: 0, e_type: ET_DYN, e_machine: EM_X86_64, e_entry: 0 };
    assert!(elf_check_header(&h, Some(EM_X86_64)));
    assert!(!elf_check_header(&h, Some(EM_AARCH64)));
    assert!(!elf_check_header(&h, None));
    assert!(!elf_check_header(&ElfFileHeader { class64: false, ..h }, Some(EM_X86_64)));
    assert!(!elf_check_header(&ElfFileHeader { osabi: 3, ..h }, Some(EM_X86_64)));
    assert!(elf_check_header(&ElfFileHeader { e_type: ET_EXEC, ..h }, Some(EM_X86_64)));
    assert!(!elf_check_header(&ElfFileHeader { e_type: 1, ..h }, Some(EM_X86_64)));
}

fn seg(p_type: u32, p_flags: u32, p_offset: u64, p_vaddr: u64, p_filesz: u64, p_memsz: u64) -> ElfSegment {
    ElfSegment { p_type, p_flags, p_offset, p_vaddr, p_filesz, p_memsz }
}

#[test]
fn load_range_rounds_to_pages() {
    let segs = vec![seg(PT_LOAD, 5, 0, 0x1234, 0, 0x10), seg(6, 0, 0, 0, 0, 0x99999), seg(PT_LOAD, 6, 0, 0x5000, 0, 0x801)];
    assert_eq!(elf_load_range(&segs), Ok((0x1000, 0x6000)));
    let aligned = vec![seg(PT_LOAD, 5, 0, 0x2000, 0, 0x1000)];
    assert_eq!(elf_load_range(&aligned), Ok((0x2000, 0x3000)));
}

#[test]
fn load_range_errors() {
    assert_eq!(elf_load_range(&vec![seg(2, 5, 0, 0, 0, 0x10)]), Err(ElfLoadError::NoLoadSegments));
    assert_eq!(elf_load_range(&vec![seg(PT_LOAD, 5, 0, u64::MAX - 4, 0, 0x10)]), Err(ElfLoadError::AddressOverflow));
    assert_eq!(elf_load_range(&vec![seg(PT_LOAD, 5, 0, u64::MAX - 0x20, 0, 0x10)]), Err(ElfLoadError::AddressOverflow));
}

#[test]
fn segment_plan_places_loadable_segments() {
    let segs = vec![seg(PT_LOAD, 5, 0, 0, 0x100, 0x100), seg(2, 0, 0, 0, 0, 0), seg(PT_LOAD, 6, 0x100, 0x2000, 0x20, 0x1800)];
    let plan = elf_segment_plan(0x40_0000, &segs, 0x200).unwrap();
    assert_eq!(
        plan,
        vec![
            ElfSegmentMapping { address: 0x40_0000, flags: HalPageFlags::RE, length: 0x100, file_offset: 0, file_size: 0x100 },
            ElfSegmentMapping { address: 0x40_2000, flags: HalPageFlags::RW, length: 0x1800, file_offset: 0x100, file_size: 0x20 },
        ]
    );
}

#[test]
fn segment_plan_errors() {
    assert_eq!(elf_segment_plan(0, &vec![seg(PT_LOAD, 7, 0, 0, 0, 0)], 10), Err(ElfLoadError::InvalidFlags(7)));
    assert_eq!(elf_segment_plan(u64::MAX, &vec![seg(PT_LOAD, 4, 0, 1, 0, 0)], 10), Err(ElfLoadError::AddressOverflow));
    assert_eq!(elf_segment_plan(0, &vec![seg(PT_LOAD, 4, 10, 0, 0, 0)], 10), Err(ElfLoadError::SegmentOutsideFile));
    assert_eq!(elf_segment_plan(0, &vec![seg(PT_LOAD, 4, 4, 0, 7, 7)], 10), Err(ElfLoadError::SegmentOutsideFile));
}

#[test]
fn relocation_patches() {
    let relas = vec![
        ElfRelocation { r_offset: 0x10, r_type: 8, r_addend: 0x20 },
        ElfRelocation { r_offset: 0x18, r_type: 1, r_addend: 0x99 },
        ElfRelocation { r_offset: 0x30, r_type: 8, r_addend: -0x10 },
    ];
    let mut patches = vec![(1, 2)];
    assert_eq!(elf_relocation_patches(0x1000, &relas, &mut patches), Ok(()));
    assert_eq!(patches, vec![(1, 2), (0x1010, 0x1020), (0x1030, 0xff0)]);
    let bad = vec![ElfRelocation { r_offset: 0, r_type: 8, r_addend: i64::MAX }];
    assert_eq!(elf_relocation_patches(0x1000, &bad, &mut Vec::new()), Err(ElfLoadError::AddressOverflow));
}

#[test]
fn stack_layout() {
    let s = elf_stack_layout(0x100_0000).unwrap();
    assert_eq!(s.kernel_stack_top, 0x100_0000 + 64 * 4096);
    assert_eq!(s.interrupt_stack_top, 0x100_0000 + 48 * 4096);
    assert_eq!(s.user_stack_top, 0x100_0000 + 32 * 4096);
    assert_eq!(elf_stack_layout(u64::MAX - 10), Err(ElfLoadError::AddressOverflow));
}

#[test]
fn prepare_image_of_shared_object() {
    let file = sample_elf(3);
    let mut alloc = allocator();
    let img = elf_prepare_image(&mut alloc, &file, Some(EM_X86_64)).unwrap().unwrap();
    let base = 0x1000_0000 + 4096;
    assert_eq!(img.base, base);
    assert_eq!(img.total_bytes, 0x4000);
    assert_eq!(img.entry_offset, 0x1010);
    assert_eq!(
        img.segments,
        vec![
            ElfSegmentMapping { address: base, flags: HalPageFlags::RE, length: 0x100, file_offset: 0, file_size: 0x100 },
            ElfSegmentMapping { address: base + 0x2000, flags: HalPageFlags::RW, length: 0x1800, file_offset: 0x100, file_size: 0x20 },
        ]
    );
    assert_eq!(img.patches, vec![(base + 0x2000, base + 0x1010)]);
    // The image took four frames; the stacks come after them.
    let stack = elf_prepare_stack(&mut alloc).unwrap();
    assert_eq!(stack.bottom, base + 4 * 4096);
    let info = elf_executable_info(&img, &stack, 0xabc000).unwrap();
    assert_eq!(info.entry, base + 0x1010);
    assert_eq!(info.physical_base, base);
    assert_eq!(info.virtual_space, 0xabc000);
    assert_eq!(info.kernel_stack_top, stack.bottom + 64 * 4096);
}

#[test]
fn prepare_image_skips_other_files() {
    let mut alloc = allocator();
    assert_eq!(elf_prepare_image(&mut alloc, &sample_elf(2), Some(EM_X86_64)).map(|o| o.is_none()), Ok(true));
    assert_eq!(elf_prepare_image(&mut alloc, &sample_elf(3), Some(EM_AARCH64)).map(|o| o.is_none()), Ok(true));
    assert_eq!(elf_prepare_image(&mut alloc, &sample_elf(3), None).map(|o| o.is_none()), Ok(true));
    // Nothing was allocated for them.
    assert_eq!(alloc.alloc_frame(), Some(0x1000_0000 + 4096));
}

#[test]
fn prepare_image_rejects_garbage() {
    let mut alloc = allocator();
    assert!(matches!(elf_prepare_image(&mut alloc, &[1, 2, 3, 4], Some(EM_X86_64)), Err(ElfLoadError::Parse)));
}

#[test]
fn prepare_image_out_of_frames() {
    let mut alloc = HalFrameAllocatorWrapper::new(HalMemfdFrameAllocator::new(0x1000_0000, 4 * 4096));
    assert!(matches!(elf_prepare_image(&mut alloc, &sample_elf(3), Some(EM_X86_64)), Err(ElfLoadError::OutOfFrames)));
}

#[test]
fn image_layout_before_allocation() {
    assert_eq!(elf_image_layout(&sample_elf(3), Some(EM_X86_64)), Ok(Some(0x4000)));
    assert_eq!(elf_image_layout(&sample_elf(2), Some(EM_X86_64)), Ok(None));
    assert_eq!(elf_image_layout(&sample_elf(3), Some(EM_AARCH64)), Ok(None));
    assert_eq!(elf_image_layout(&[0u8; 8], Some(EM_X86_64)), Err(ElfLoadError::Parse));
}

#[test]
fn image_at_chosen_base() {
    let file = sample_elf(3);
    let img = elf_image_at(&file, 0x50_0000, 0x4000).unwrap();
    assert_eq!(img.base, 0x50_0000);
    assert_eq!(img.total_bytes, 0x4000);
    assert_eq!(img.entry_offset, 0x1010);
    assert_eq!(img.segments[1].address, 0x50_2000);
    assert_eq!(img.patches, vec![(0x50_2000, 0x50_1010)]);
    assert!(matches!(elf_image_at(&[7u8; 3], 0x50_0000, 0x4000), Err(ElfLoadError::Parse)));
    // A base so high that the second segment's address overflows.
    assert!(matches!(elf_image_at(&file, u64::MAX - 0x1000, 0x4000), Err(ElfLoadError::AddressOverflow)));
}

#[test]
fn elf_constants_match_the_elf_crate() {
    assert_eq!(ELFOSABI_SYSV, elf::abi::ELFOSABI_SYSV);
    assert_eq!(ET_EXEC, elf::abi::ET_EXEC);
    assert_eq!(ET_DYN, elf::abi::ET_DYN);
    assert_eq!(EM_X86_64, elf::abi::EM_X86_64);
    assert_eq!(EM_AARCH64, elf::abi::EM_AARCH64);
    assert_eq!(PT_LOAD, elf::abi::PT_LOAD);
    assert_eq!(SHT_RELA, elf::abi::SHT_RELA);
    assert_eq!(R_X86_64_RELATIVE, elf::abi::R_X86_64_RELATIVE);
    assert_eq!(PF_NONE, elf::abi::PF_NONE);
    assert_eq!(PF_X, elf::abi::PF_X);
    assert_eq!(PF_W, elf::abi::PF_W);
    assert_eq!(PF_R, elf::abi::PF_R);
}

#[test]
fn prepare_image_on_the_hosted_allocator() {
    let mut alloc = allocator();
    let img = elf_prepare_image_hosted(&mut alloc, &sample_elf(3), Some(EM_X86_64)).unwrap().unwrap();
    assert_eq!(img.base, 0x1000_0000 + 4096);
    assert_eq!(img.total_bytes, 0x4000);
    assert!(matches!(elf_prepare_image_hosted(&mut alloc, &[0u8; 4], Some(EM_X86_64)), Err(ElfLoadError::Parse)));
}

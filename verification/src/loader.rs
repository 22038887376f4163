//! Loading an executable: what the bootloader reads from an ELF file, and
//! the plan of frames, mappings, copies and relocations it makes from it.
use vstd::prelude::*;
use elf::endian::AnyEndian;
use elf::file::Class;
use elf::ElfBytes;
use crate::memory::{
    lemma_memfd_region_fits, HalFrameAllocatorTrait, HalFrameAllocatorWrapper, HalMemfdFrameAllocator,
    FRAME_SIZE,
};
use crate::paging::HalPageFlags;

verus! {

/// `EI_OSABI` value of the System V ABI.
pub const ELFOSABI_SYSV: u8 = 0;

/// `e_type` of an executable file.
pub const ET_EXEC: u16 = 2;

/// `e_type` of a shared object (position-independent executable).
pub const ET_DYN: u16 = 3;

/// `e_machine` of x86-64.
pub const EM_X86_64: u16 = 62;

/// `e_machine` of AArch64.
pub const EM_AARCH64: u16 = 183;

/// `p_type` of a loadable segment.
pub const PT_LOAD: u32 = 1;

/// `sh_type` of a relocation section with addends.
pub const SHT_RELA: u32 = 4;

/// `r_type` of an x86-64 relocation by the load base.
pub const R_X86_64_RELATIVE: u32 = 8;

/// Segment permission: none.
pub const PF_NONE: u32 = 0;

/// Segment permission: execute.
pub const PF_X: u32 = 1;

/// Segment permission: write.
pub const PF_W: u32 = 2;

/// Segment permission: read.
pub const PF_R: u32 = 4;

/// Size of the frames an executable is loaded into.
pub const ELF_PAGE_SIZE: u64 = 0x1000;

/// Number of frames of the stacks given to a loaded executable.
pub const ELF_STACK_FRAMES: usize = 64;

/// The fields of an ELF file header that loading reads.
#[derive(Clone, Copy, PartialEq, Eq, Structural, Debug)]
pub struct ElfFileHeader {
    /// The file is a 64-bit ELF file.
    pub class64: bool,
    pub osabi: u8,
    pub e_type: u16,
    pub e_machine: u16,
    pub e_entry: u64,
}

/// The fields of an ELF program header that loading reads.
#[derive(Clone, Copy, PartialEq, Eq, Structural, Debug)]
pub struct ElfSegment {
    pub p_type: u32,
    pub p_flags: u32,
    pub p_offset: u64,
    pub p_vaddr: u64,
    pub p_filesz: u64,
    pub p_memsz: u64,
}

/// The fields of an ELF relocation with addend that loading reads.
#[derive(Clone, Copy, PartialEq, Eq, Structural, Debug)]
pub struct ElfRelocation {
    pub r_offset: u64,
    pub r_type: u32,
    pub r_addend: i64,
}

/// Why an executable cannot be loaded.
#[derive(Clone, Copy, PartialEq, Eq, Structural, Debug)]
pub enum ElfLoadError {
    /// The file header cannot be parsed.
    Parse,
    /// The file has no program header table.
    NoProgramHeaders,
    /// The file has no loadable segment.
    NoLoadSegments,
    /// An address computed from the file does not fit in 64 bits.
    AddressOverflow,
    /// The loadable segments span no memory.
    EmptyImage,
    /// No frames are left for the image.
    OutOfFrames,
    /// A loadable segment has a permission combination other than none,
    /// read, read-write and read-execute.
    InvalidFlags(u32),
    /// A segment's file contents lie outside the file.
    SegmentOutsideFile,
    /// The file has no section header table.
    NoSectionHeaders,
    /// A relocation section cannot be read.
    BadRelocationSection,
    /// No frames are left for the stacks.
    OutOfStackFrames,
}

/// What parsing `bytes` as an ELF file gives of its file header; `None` when
/// the header cannot be parsed.
pub uninterp spec fn elf_header_of(bytes: Seq<u8>) -> Option<ElfFileHeader>;

/// The program headers of the ELF file `bytes`; `None` when the file cannot
/// be parsed or has no program header table.
pub uninterp spec fn elf_segments_of(bytes: Seq<u8>) -> Option<Seq<ElfSegment>>;

/// The `sh_type` of each section of the ELF file `bytes`; `None` when the
/// file cannot be parsed or has no section header table.
pub uninterp spec fn elf_section_types_of(bytes: Seq<u8>) -> Option<Seq<u32>>;

/// The relocations with addend held by section `index` of the ELF file
/// `bytes`; `None` when they cannot be read.
pub uninterp spec fn elf_relas_of(bytes: Seq<u8>, index: usize) -> Option<Seq<ElfRelocation>>;

/// `ElfBytes::<AnyEndian>::minimal_parse` of the elf crate, keeping the file
/// header fields that loading reads. Its result is a function of the bytes
/// alone; what it is on given bytes is left to the elf crate.
#[verifier::external_body]
fn read_elf_header(file: &[u8]) -> (h: Option<ElfFileHeader>)
    ensures
        h == elf_header_of(file@),
{
    let parsed = ElfBytes::<AnyEndian>::minimal_parse(file).ok()?;
    let e = parsed.ehdr;
    let class64 = match e.class {
        Class::ELF32 => false,
        Class::ELF64 => true,
    };
    Some(ElfFileHeader {
        class64,
        osabi: e.osabi,
        e_type: e.e_type,
        e_machine: e.e_machine,
        e_entry: e.e_entry,
    })
}

/// `ElfBytes::segments` of the elf crate after `minimal_parse`: every program
/// header that parses, in table order. A function of the bytes alone; what
/// it is on given bytes is left to the elf crate.
#[verifier::external_body]
fn read_elf_segments(file: &[u8]) -> (s: Option<Vec<ElfSegment>>)
    ensures
        match s {
            Some(v) => elf_segments_of(file@) == Some(v@),
            None => elf_segments_of(file@) is None,
        },
{
    let parsed = ElfBytes::<AnyEndian>::minimal_parse(file).ok()?;
    let table = parsed.segments()?;
    Some(
        table.iter().map(
            |p| ElfSegment {
                p_type: p.p_type,
                p_flags: p.p_flags,
                p_offset: p.p_offset,
                p_vaddr: p.p_vaddr,
                p_filesz: p.p_filesz,
                p_memsz: p.p_memsz,
            },
        ).collect(),
    )
}

/// `ElfBytes::section_headers` of the elf crate after `minimal_parse`: the
/// `sh_type` of every section header that parses, in table order. A function
/// of the bytes alone; what it is on given bytes is left to the elf crate.
#[verifier::external_body]
fn read_elf_section_types(file: &[u8]) -> (t: Option<Vec<u32>>)
    ensures
        match t {
            Some(v) => elf_section_types_of(file@) == Some(v@),
            None => elf_section_types_of(file@) is None,
        },
{
    let parsed = ElfBytes::<AnyEndian>::minimal_parse(file).ok()?;
    let table = parsed.section_headers()?;
    Some(table.iter().map(|s| s.sh_type).collect())
}

/// `ElfBytes::section_data_as_relas` of the elf crate for section `index`:
/// every relocation of the section that parses, in order. A function of the
/// bytes and the index alone; what it is on given bytes is left to the elf
/// crate.
#[verifier::external_body]
fn read_elf_relas(file: &[u8], index: usize) -> (r: Option<Vec<ElfRelocation>>)
    ensures
        match r {
            Some(v) => elf_relas_of(file@, index) == Some(v@),
            None => elf_relas_of(file@, index) is None,
        },
{
    let parsed = ElfBytes::<AnyEndian>::minimal_parse(file).ok()?;
    let shdr = parsed.section_headers()?.get(index).ok()?;
    let relas = parsed.section_data_as_relas(&shdr).ok()?;
    Some(relas.map(|r| ElfRelocation { r_offset: r.r_offset, r_type: r.r_type, r_addend: r.r_addend }).collect())
}

/// The file is a 64-bit System V executable or shared object for `machine`
/// (`None`: a machine this system has no loader for).
pub open spec fn elf_header_supported(h: ElfFileHeader, machine: Option<u16>) -> bool {
    &&& h.class64
    &&& h.osabi == ELFOSABI_SYSV
    &&& machine matches Some(m) && h.e_machine == m
    &&& (h.e_type == ET_EXEC || h.e_type == ET_DYN)
}

/// Whether `h` is a file this system loads for `machine`.
pub fn elf_check_header(h: &ElfFileHeader, machine: Option<u16>) -> (ok: bool)
    ensures
        ok == elf_header_supported(*h, machine),
{
    let machine_ok = match machine {
        Some(m) => h.e_machine == m,
        None => false,
    };
    h.class64 && h.osabi == ELFOSABI_SYSV && machine_ok && (h.e_type == ET_EXEC || h.e_type
        == ET_DYN)
}

/// Lowest start and highest end address of the loadable segments among the
/// first `n` of `segs`.
pub open spec fn load_bounds(segs: Seq<ElfSegment>, n: int) -> Option<(int, int)>
    decreases n,
{
    if n <= 0 {
        None
    } else {
        let prev = load_bounds(segs, n - 1);
        let s = segs[n - 1];
        if s.p_type != PT_LOAD {
            prev
        } else {
            match prev {
                None => Some((s.p_vaddr as int, s.p_vaddr + s.p_memsz)),
                Some((lo, hi)) => Some(
                    (
                        vstd::math::min(lo, s.p_vaddr as int),
                        vstd::math::max(hi, s.p_vaddr + s.p_memsz),
                    ),
                ),
            }
        }
    }
}

/// Some loadable segment among the first `n` of `segs` ends past 64 bits.
pub open spec fn load_end_overflows(segs: Seq<ElfSegment>, n: int) -> bool {
    exists|i: int|
        0 <= i < n && segs[i].p_type == PT_LOAD && #[trigger] (segs[i].p_vaddr + segs[i].p_memsz)
            > u64::MAX
}

/// `a` rounded up to a multiple of 4 KiB.
pub open spec fn round_up_page(a: int) -> int {
    if a % (ELF_PAGE_SIZE as int) != 0 {
        a + (ELF_PAGE_SIZE - a % (ELF_PAGE_SIZE as int))
    } else {
        a
    }
}

/// The page-aligned address range that the loadable segments of `segs`
/// span.
pub open spec fn elf_range_spec(segs: Seq<ElfSegment>) -> Result<(u64, u64), ElfLoadError> {
    match load_bounds(segs, segs.len() as int) {
        None => Err(ElfLoadError::NoLoadSegments),
        Some((lo, hi)) => if load_end_overflows(segs, segs.len() as int) || round_up_page(hi)
            > u64::MAX {
            Err(ElfLoadError::AddressOverflow)
        } else {
            Ok(((lo - lo % (ELF_PAGE_SIZE as int)) as u64, round_up_page(hi) as u64))
        },
    }
}

/// The page-aligned address range that the loadable segments span: from the
/// lowest start rounded down to the highest end rounded up.
pub fn elf_load_range(segments: &Vec<ElfSegment>) -> (r: Result<(u64, u64), ElfLoadError>)
    ensures
        r == elf_range_spec(segments@),
{
    let ghost segs = segments@;
    let mut bounds: Option<(u64, u64)> = None;
    let mut i: usize = 0;
    while i < segments.len()
        invariant
            segs == segments@,
            i <= segs.len(),
            !load_end_overflows(segs, i as int),
            match bounds {
                None => load_bounds(segs, i as int) is None,
                Some((lo, hi)) => load_bounds(segs, i as int) == Some((lo as int, hi as int)),
            },
        decreases segs.len() - i,
    {
        let s = segments[i];
        if s.p_type == PT_LOAD {
            if s.p_vaddr > u64::MAX - s.p_memsz {
                proof {
                    assert(load_end_overflows(segs, segs.len() as int)) by {
                        assert(segs[i as int].p_vaddr + segs[i as int].p_memsz > u64::MAX);
                    }
                    lemma_load_bounds_some(segs, i as int + 1, segs.len() as int);
                }
                return Err(ElfLoadError::AddressOverflow);
            }
            let end = s.p_vaddr + s.p_memsz;
            bounds = match bounds {
                None => Some((s.p_vaddr, end)),
                Some((lo, hi)) => Some(
                    (if s.p_vaddr < lo {
                        s.p_vaddr
                    } else {
                        lo
                    }, if end > hi {
                        end
                    } else {
                        hi
                    }),
                ),
            };
        }
        proof {
            assert forall|k: int|
                0 <= k < i + 1 && segs[k].p_type == PT_LOAD implies !(#[trigger] (segs[k].p_vaddr
                + segs[k].p_memsz) > u64::MAX) by {
                if k < i {
                    assert(!load_end_overflows(segs, i as int));
                    assert(!(segs[k].p_vaddr + segs[k].p_memsz > u64::MAX));
                }
            }
        }
        i = i + 1;
    }
    match bounds {
        None => Err(ElfLoadError::NoLoadSegments),
        Some((lo, hi)) => {
            let lowest = lo - lo % 0x1000;
            if hi % 0x1000 != 0 {
                if hi > u64::MAX - (0x1000 - hi % 0x1000) {
                    return Err(ElfLoadError::AddressOverflow);
                }
                Ok((lowest, hi + (0x1000 - hi % 0x1000)))
            } else {
                Ok((lowest, hi))
            }
        },
    }
}

/// Once a loadable segment has been seen, the bounds are known.
proof fn lemma_load_bounds_some(segs: Seq<ElfSegment>, i: int, n: int)
    requires
        1 <= i <= n,
        segs[i - 1].p_type == PT_LOAD,
    ensures
        load_bounds(segs, n) is Some,
    decreases n - i,
{
    if n > i {
        lemma_load_bounds_some(segs, i, n - 1);
    }
}

/// How one loadable segment is placed: `length` bytes mapped with `flags` at
/// `address`, of which the first `file_size` are copied from `file_offset`
/// in the file.
#[derive(Clone, Copy, PartialEq, Eq, Structural, Debug)]
pub struct ElfSegmentMapping {
    pub address: u64,
    pub flags: HalPageFlags,
    pub length: u64,
    pub file_offset: u64,
    pub file_size: u64,
}

/// The page permissions of a segment's `p_flags`: none, read, read-write and
/// read-execute are the combinations a loadable segment may have.
pub open spec fn segment_flags_spec(p_flags: u32) -> Option<HalPageFlags> {
    if p_flags == PF_NONE {
        Some(HalPageFlags::N)
    } else if p_flags == PF_R {
        Some(HalPageFlags::R)
    } else if p_flags == (PF_R | PF_W) {
        Some(HalPageFlags::RW)
    } else if p_flags == (PF_R | PF_X) {
        Some(HalPageFlags::RE)
    } else {
        None
    }
}

/// The page permissions of a segment's `p_flags`.
pub fn elf_segment_flags(p_flags: u32) -> (f: Option<HalPageFlags>)
    ensures
        f == segment_flags_spec(p_flags),
{
    if p_flags == PF_NONE {
        Some(HalPageFlags::N)
    } else if p_flags == PF_R {
        Some(HalPageFlags::R)
    } else if p_flags == PF_R | PF_W {
        Some(HalPageFlags::RW)
    } else if p_flags == PF_R | PF_X {
        Some(HalPageFlags::RE)
    } else {
        None
    }
}

/// How segment `s` of a file of `file_len` bytes is placed in an image
/// loaded at `base`.
pub open spec fn segment_mapping_spec(base: u64, s: ElfSegment, file_len: int) -> Result<
    ElfSegmentMapping,
    ElfLoadError,
> {
    match segment_flags_spec(s.p_flags) {
        None => Err(ElfLoadError::InvalidFlags(s.p_flags)),
        Some(f) => if base + s.p_vaddr > u64::MAX {
            Err(ElfLoadError::AddressOverflow)
        } else if s.p_offset >= file_len || s.p_offset + s.p_filesz > file_len {
            Err(ElfLoadError::SegmentOutsideFile)
        } else {
            Ok(
                ElfSegmentMapping {
                    address: (base + s.p_vaddr) as u64,
                    flags: f,
                    length: s.p_memsz,
                    file_offset: s.p_offset,
                    file_size: s.p_filesz,
                },
            )
        },
    }
}

/// The placements of the loadable segments among the first `n` of `segs`, in
/// order, or the first reason one cannot be placed.
pub open spec fn segment_plan_spec(base: u64, segs: Seq<ElfSegment>, n: int, file_len: int) -> Result<
    Seq<ElfSegmentMapping>,
    ElfLoadError,
>
    decreases n,
{
    if n <= 0 {
        Ok(Seq::empty())
    } else {
        match segment_plan_spec(base, segs, n - 1, file_len) {
            Err(e) => Err(e),
            Ok(plan) => if segs[n - 1].p_type != PT_LOAD {
                Ok(plan)
            } else {
                match segment_mapping_spec(base, segs[n - 1], file_len) {
                    Err(e) => Err(e),
                    Ok(m) => Ok(plan.push(m)),
                }
            },
        }
    }
}

proof fn lemma_segment_plan_err(base: u64, segs: Seq<ElfSegment>, k: int, n: int, file_len: int)
    requires
        0 <= k <= n,
        segment_plan_spec(base, segs, k, file_len) is Err,
    ensures
        segment_plan_spec(base, segs, n, file_len) == segment_plan_spec(base, segs, k, file_len),
    decreases n - k,
{
    if n > k {
        lemma_segment_plan_err(base, segs, k, n - 1, file_len);
    }
}

/// Places every loadable segment of `segments` in an image loaded at `base`.
pub fn elf_segment_plan(base: u64, segments: &Vec<ElfSegment>, file_len: usize) -> (r: Result<
    Vec<ElfSegmentMapping>,
    ElfLoadError,
>)
    ensures
        match r {
            Ok(v) => segment_plan_spec(base, segments@, segments@.len() as int, file_len as int)
                == Ok::<Seq<ElfSegmentMapping>, ElfLoadError>(v@),
            Err(e) => segment_plan_spec(base, segments@, segments@.len() as int, file_len as int)
                == Err::<Seq<ElfSegmentMapping>, ElfLoadError>(e),
        },
{
    let ghost segs = segments@;
    let mut plan: Vec<ElfSegmentMapping> = Vec::new();
    let mut i: usize = 0;
    while i < segments.len()
        invariant
            segs == segments@,
            i <= segs.len(),
            segment_plan_spec(base, segs, i as int, file_len as int) == Ok::<
                Seq<ElfSegmentMapping>,
                ElfLoadError,
            >(plan@),
        decreases segs.len() - i,
    {
        let s = segments[i];
        if s.p_type == PT_LOAD {
            let flags = match elf_segment_flags(s.p_flags) {
                None => {
                    proof {
                        lemma_segment_plan_err(base, segs, i + 1, segs.len() as int, file_len as int);
                    }
                    return Err(ElfLoadError::InvalidFlags(s.p_flags));
                },
                Some(f) => f,
            };
            if base > u64::MAX - s.p_vaddr {
                proof {
                    lemma_segment_plan_err(base, segs, i + 1, segs.len() as int, file_len as int);
                }
                return Err(ElfLoadError::AddressOverflow);
            }
            if s.p_offset >= file_len as u64 || s.p_filesz > file_len as u64 - s.p_offset {
                proof {
                    lemma_segment_plan_err(base, segs, i + 1, segs.len() as int, file_len as int);
                }
                return Err(ElfLoadError::SegmentOutsideFile);
            }
            plan.push(
                ElfSegmentMapping {
                    address: base + s.p_vaddr,
                    flags,
                    length: s.p_memsz,
                    file_offset: s.p_offset,
                    file_size: s.p_filesz,
                },
            );
        }
        i = i + 1;
    }
    Ok(plan)
}

/// The memory patch of relocation `r` in an image loaded at `base`: the
/// address written and the value written there, or `None` for relocations
/// other than base-relative ones.
pub open spec fn relocation_patch_spec(base: u64, r: ElfRelocation) -> Option<
    Result<(u64, u64), ElfLoadError>,
> {
    if r.r_type != R_X86_64_RELATIVE {
        None
    } else if base + r.r_offset > u64::MAX || (base as i64) + r.r_addend > i64::MAX || (base as i64)
        + r.r_addend < i64::MIN {
        Some(Err(ElfLoadError::AddressOverflow))
    } else {
        Some(Ok(((base + r.r_offset) as u64, ((base as i64) + r.r_addend) as u64)))
    }
}

/// The patches of the first `n` relocations of `rs`, in order.
pub open spec fn rela_patches_spec(base: u64, rs: Seq<ElfRelocation>, n: int) -> Result<
    Seq<(u64, u64)>,
    ElfLoadError,
>
    decreases n,
{
    if n <= 0 {
        Ok(Seq::empty())
    } else {
        match rela_patches_spec(base, rs, n - 1) {
            Err(e) => Err(e),
            Ok(p) => match relocation_patch_spec(base, rs[n - 1]) {
                None => Ok(p),
                Some(Err(e)) => Err(e),
                Some(Ok(x)) => Ok(p.push(x)),
            },
        }
    }
}

/// The patches of the relocation sections among the first `n` sections of
/// the ELF file `bytes`, whose section types are `types`, in order.
pub open spec fn section_patches_spec(bytes: Seq<u8>, base: u64, types: Seq<u32>, n: int) -> Result<
    Seq<(u64, u64)>,
    ElfLoadError,
>
    decreases n,
{
    if n <= 0 {
        Ok(Seq::empty())
    } else {
        match section_patches_spec(bytes, base, types, n - 1) {
            Err(e) => Err(e),
            Ok(p) => if types[n - 1] != SHT_RELA {
                Ok(p)
            } else {
                match elf_relas_of(bytes, (n - 1) as usize) {
                    None => Err(ElfLoadError::BadRelocationSection),
                    Some(rs) => match rela_patches_spec(base, rs, rs.len() as int) {
                        Err(e) => Err(e),
                        Ok(q) => Ok(p + q),
                    },
                }
            },
        }
    }
}

proof fn lemma_rela_patches_err(base: u64, rs: Seq<ElfRelocation>, k: int, n: int)
    requires
        0 <= k <= n,
        rela_patches_spec(base, rs, k) is Err,
    ensures
        rela_patches_spec(base, rs, n) == rela_patches_spec(base, rs, k),
    decreases n - k,
{
    if n > k {
        lemma_rela_patches_err(base, rs, k, n - 1);
    }
}

proof fn lemma_section_patches_err(bytes: Seq<u8>, base: u64, types: Seq<u32>, k: int, n: int)
    requires
        0 <= k <= n,
        section_patches_spec(bytes, base, types, k) is Err,
    ensures
        section_patches_spec(bytes, base, types, n) == section_patches_spec(bytes, base, types, k),
    decreases n - k,
{
    if n > k {
        lemma_section_patches_err(bytes, base, types, k, n - 1);
    }
}

/// Appends the patches of the base-relative relocations of `relas`, for an
/// image loaded at `base`, to `patches`.
pub fn elf_relocation_patches(base: u64, relas: &Vec<ElfRelocation>, patches: &mut Vec<(u64, u64)>) -> (r: Result<(), ElfLoadError>)
    ensures
        match rela_patches_spec(base, relas@, relas@.len() as int) {
            Ok(q) => r is Ok && final(patches)@ == old(patches)@ + q,
            Err(e) => r == Err::<(), ElfLoadError>(e),
        },
{
    let ghost rs = relas@;
    let ghost p0 = patches@;
    let mut i: usize = 0;
    while i < relas.len()
        invariant
            rs == relas@,
            i <= rs.len(),
            match rela_patches_spec(base, rs, i as int) {
                Ok(q) => patches@ == p0 + q,
                Err(_) => false,
            },
        decreases rs.len() - i,
    {
        let rela = relas[i];
        if rela.r_type == R_X86_64_RELATIVE {
            let b = base as i64;
            if base > u64::MAX - rela.r_offset || (rela.r_addend > 0 && b > i64::MAX - rela.r_addend)
                || (rela.r_addend < 0 && b < i64::MIN - rela.r_addend) {
                proof {
                    lemma_rela_patches_err(base, rs, i + 1, rs.len() as int);
                }
                return Err(ElfLoadError::AddressOverflow);
            }
            let target = base + rela.r_offset;
            let value = (b + rela.r_addend) as u64;
            patches.push((target, value));
            proof {
                let q = rela_patches_spec(base, rs, i as int)->Ok_0;
                assert(patches@ =~= p0 + q.push((target, value)));
            }
        }
        i = i + 1;
    }
    Ok(())
}

/// The patches of all relocation sections of the ELF file `bytes` for an
/// image loaded at `base`, or why they cannot be had.
pub open spec fn elf_patches_spec(bytes: Seq<u8>, base: u64) -> Result<Seq<(u64, u64)>, ElfLoadError> {
    match elf_section_types_of(bytes) {
        None => Err(ElfLoadError::NoSectionHeaders),
        Some(types) => section_patches_spec(bytes, base, types, types.len() as int),
    }
}

/// Reads every relocation section of the ELF file `file` and computes the
/// patches of its base-relative relocations for an image loaded at `base`.
pub fn elf_image_patches(file: &[u8], base: u64) -> (r: Result<Vec<(u64, u64)>, ElfLoadError>)
    ensures
        match r {
            Ok(v) => elf_patches_spec(file@, base) == Ok::<Seq<(u64, u64)>, ElfLoadError>(v@),
            Err(e) => elf_patches_spec(file@, base) == Err::<Seq<(u64, u64)>, ElfLoadError>(e),
        },
{
    let types = match read_elf_section_types(file) {
        None => {
            return Err(ElfLoadError::NoSectionHeaders);
        },
        Some(t) => t,
    };
    let ghost ts = types@;
    let mut patches: Vec<(u64, u64)> = Vec::new();
    let mut i: usize = 0;
    while i < types.len()
        invariant
            ts == types@,
            elf_section_types_of(file@) == Some(ts),
            i <= ts.len(),
            section_patches_spec(file@, base, ts, i as int) == Ok::<
                Seq<(u64, u64)>,
                ElfLoadError,
            >(patches@),
        decreases ts.len() - i,
    {
        if types[i] == SHT_RELA {
            let relas = match read_elf_relas(file, i) {
                None => {
                    proof {
                        lemma_section_patches_err(file@, base, ts, i + 1, ts.len() as int);
                    }
                    return Err(ElfLoadError::BadRelocationSection);
                },
                Some(rs) => rs,
            };
            let ghost p0 = patches@;
            match elf_relocation_patches(base, &relas, &mut patches) {
                Err(e) => {
                    proof {
                        lemma_section_patches_err(file@, base, ts, i + 1, ts.len() as int);
                    }
                    return Err(e);
                },
                Ok(()) => {},
            }
        }
        i = i + 1;
    }
    Ok(patches)
}

/// What loading decides before it allocates frames: an error, nothing to
/// load (`None`: an unsupported file, an executable that is not
/// position-independent, or one not linked at address 0), or the number of
/// bytes of the image.
pub open spec fn elf_layout_spec(bytes: Seq<u8>, machine: Option<u16>) -> Result<Option<u64>, ElfLoadError> {
    match elf_header_of(bytes) {
        None => Err(ElfLoadError::Parse),
        Some(h) => if !elf_header_supported(h, machine) {
            Ok(None)
        } else {
            match elf_segments_of(bytes) {
                None => Err(ElfLoadError::NoProgramHeaders),
                Some(segs) => match elf_range_spec(segs) {
                    Err(e) => Err(e),
                    Ok((lo, hi)) => if h.e_type == ET_DYN && lo == 0 {
                        if (hi / ELF_PAGE_SIZE) as usize == 0 {
                            Err(ElfLoadError::EmptyImage)
                        } else {
                            Ok(Some(hi))
                        }
                    } else {
                        Ok(None)
                    },
                },
            }
        },
    }
}

/// An executable image placed in memory: its frames start at `base` and span
/// `total_bytes`; its segments are placed as `segments` say, and `patches`
/// are the (address, value) writes its relocations need. Its entry point is
/// `entry_offset` bytes from `base`.
pub struct ElfImage {
    pub base: u64,
    pub total_bytes: u64,
    pub segments: Vec<ElfSegmentMapping>,
    pub patches: Vec<(u64, u64)>,
    pub entry_offset: u64,
}

/// `img` is the image of the ELF file `bytes` loaded at `base`.
pub open spec fn image_of(img: ElfImage, bytes: Seq<u8>, base: u64, total: u64) -> bool {
    let segs = elf_segments_of(bytes).unwrap();
    &&& img.base == base
    &&& img.total_bytes == total
    &&& img.entry_offset == elf_header_of(bytes).unwrap().e_entry
    &&& segment_plan_spec(base, segs, segs.len() as int, bytes.len() as int) == Ok::<
        Seq<ElfSegmentMapping>,
        ElfLoadError,
    >(img.segments@)
    &&& elf_patches_spec(bytes, base) == Ok::<Seq<(u64, u64)>, ElfLoadError>(img.patches@)
}

/// The outcome of placing the image of `bytes`, `total` bytes long, at
/// `base`: the file is read again, so a file that no longer parses is
/// refused as it would be on the first reading.
pub open spec fn image_at_outcome(bytes: Seq<u8>, base: u64, total: u64, r: Result<ElfImage, ElfLoadError>) -> bool {
    match elf_header_of(bytes) {
        None => r == Err::<ElfImage, ElfLoadError>(ElfLoadError::Parse),
        Some(_) => match elf_segments_of(bytes) {
            None => r == Err::<ElfImage, ElfLoadError>(ElfLoadError::NoProgramHeaders),
            Some(segs) => match segment_plan_spec(base, segs, segs.len() as int, bytes.len() as int) {
                Err(e) => r == Err::<ElfImage, ElfLoadError>(e),
                Ok(_) => match elf_patches_spec(bytes, base) {
                    Err(e) => r == Err::<ElfImage, ElfLoadError>(e),
                    Ok(_) => r matches Ok(img) && image_of(img, bytes, base, total),
                },
            },
        },
    }
}

/// The outcome of loading the image of `bytes`, `total` bytes long, when the
/// frames for it came back as `frames`.
pub open spec fn image_outcome(
    bytes: Seq<u8>,
    total: u64,
    frames: Option<u64>,
    r: Result<Option<ElfImage>, ElfLoadError>,
) -> bool {
    match frames {
        None => r == Err::<Option<ElfImage>, ElfLoadError>(ElfLoadError::OutOfFrames),
        Some(base) => match r {
            Ok(Some(img)) => image_at_outcome(bytes, base, total, Ok(img)),
            Ok(None) => false,
            Err(e) => image_at_outcome(bytes, base, total, Err(e)),
        },
    }
}

/// Works out, before any frame is allocated, what loading the ELF file
/// `file` for a machine of type `machine` takes: an error, nothing to load,
/// or the number of bytes of the image.
pub fn elf_image_layout(file: &[u8], machine: Option<u16>) -> (r: Result<Option<u64>, ElfLoadError>)
    ensures
        r == elf_layout_spec(file@, machine),
{
    let header = match read_elf_header(file) {
        None => {
            return Err(ElfLoadError::Parse);
        },
        Some(h) => h,
    };
    if !elf_check_header(&header, machine) {
        return Ok(None);
    }
    let segments = match read_elf_segments(file) {
        None => {
            return Err(ElfLoadError::NoProgramHeaders);
        },
        Some(s) => s,
    };
    let (lowest, highest) = match elf_load_range(&segments) {
        Err(e) => {
            return Err(e);
        },
        Ok(range) => range,
    };
    if header.e_type != ET_DYN || lowest != 0 {
        return Ok(None);
    }
    let count = (highest / ELF_PAGE_SIZE) as usize;
    if count == 0 {
        return Err(ElfLoadError::EmptyImage);
    }
    Ok(Some(highest))
}

/// Places the image of the ELF file `file`, `total_bytes` long, on the
/// frames that start at `base`: where each segment goes, and which
/// relocation patches the image needs.
pub fn elf_image_at(file: &[u8], base: u64, total_bytes: u64) -> (r: Result<ElfImage, ElfLoadError>)
    ensures
        image_at_outcome(file@, base, total_bytes, r),
{
    let header = match read_elf_header(file) {
        None => {
            return Err(ElfLoadError::Parse);
        },
        Some(h) => h,
    };
    let segments = match read_elf_segments(file) {
        None => {
            return Err(ElfLoadError::NoProgramHeaders);
        },
        Some(s) => s,
    };
    let plan = match elf_segment_plan(base, &segments, file.len()) {
        Err(e) => {
            return Err(e);
        },
        Ok(plan) => plan,
    };
    let patches = match elf_image_patches(file, base) {
        Err(e) => {
            return Err(e);
        },
        Ok(patches) => patches,
    };
    Ok(ElfImage { base, total_bytes, segments: plan, patches, entry_offset: header.e_entry })
}

/// What preparing the image of `bytes` for `machine` gives and leaves of an
/// allocator that was `before` and ends as `after`: on an error or nothing to
/// load, the allocator is untouched; otherwise one allocation of the image's
/// frames was made, and the result is what placing the image on them gives.
pub open spec fn prepare_outcome<A: HalFrameAllocatorTrait>(
    before: A,
    after: A,
    bytes: Seq<u8>,
    machine: Option<u16>,
    r: Result<Option<ElfImage>, ElfLoadError>,
) -> bool {
    match elf_layout_spec(bytes, machine) {
        Err(e) => r == Err::<Option<ElfImage>, ElfLoadError>(e) && after == before,
        Ok(None) => r == Ok::<Option<ElfImage>, ElfLoadError>(None) && after == before,
        Ok(Some(total)) => exists|frames: Option<u64>|
            #[trigger] before.alloc_frames_post((total / ELF_PAGE_SIZE) as usize, after, frames)
                && image_outcome(bytes, total, frames, r),
    }
}

/// Reads the ELF file `file` for a machine of type `machine` and, for a
/// position-independent executable linked at address 0, allocates the frames
/// of its image and works out where each segment goes and which relocation
/// patches the image needs.
pub fn elf_prepare_image<A: HalFrameAllocatorTrait>(
    frame_allocator: &mut HalFrameAllocatorWrapper<A>,
    file: &[u8],
    machine: Option<u16>,
) -> (r: Result<Option<ElfImage>, ElfLoadError>)
    requires
        old(frame_allocator).inner().inv(),
        elf_layout_spec(file@, machine) matches Ok(Some(total)) ==> old(
            frame_allocator,
        ).inner().alloc_frames_pre((total / ELF_PAGE_SIZE) as usize),
    ensures
        final(frame_allocator).inner().inv(),
        prepare_outcome(old(frame_allocator).inner(), final(frame_allocator).inner(), file@, machine, r),
{
    let total_bytes = match elf_image_layout(file, machine) {
        Err(e) => {
            return Err(e);
        },
        Ok(None) => {
            return Ok(None);
        },
        Ok(Some(total)) => total,
    };
    let count = (total_bytes / ELF_PAGE_SIZE) as usize;
    let frames = frame_allocator.alloc_frames(count);
    let result = match frames {
        None => Err(ElfLoadError::OutOfFrames),
        Some(base) => match elf_image_at(file, base, total_bytes) {
            Err(e) => Err(e),
            Ok(img) => Ok(Some(img)),
        },
    };
    proof {
        assert(old(frame_allocator).inner().alloc_frames_post(
            count,
            frame_allocator.inner(),
            frames,
        ));
        assert(image_outcome(file@, total_bytes, frames, result));
    }
    result
}

/// `elf_prepare_image` on the hosted allocator, whose region ends within 64
/// bits: every allocation it can make is then admitted.
pub fn elf_prepare_image_hosted(
    frame_allocator: &mut HalFrameAllocatorWrapper<HalMemfdFrameAllocator>,
    file: &[u8],
    machine: Option<u16>,
) -> (r: Result<Option<ElfImage>, ElfLoadError>)
    requires
        old(frame_allocator).inner().wf(),
        old(frame_allocator).inner().offset() + FRAME_SIZE * old(frame_allocator).inner().frame_count()
            <= u64::MAX,
    ensures
        final(frame_allocator).inner().wf(),
        prepare_outcome(old(frame_allocator).inner(), final(frame_allocator).inner(), file@, machine, r),
{
    proof {
        let a = frame_allocator.inner();
        if let Ok(Some(total)) = elf_layout_spec(file@, machine) {
            lemma_memfd_region_fits(a, (total / ELF_PAGE_SIZE) as usize);
        }
    }
    elf_prepare_image(frame_allocator, file, machine)
}

/// The stacks of a loaded executable, carved from one run of frames starting
/// at `bottom`: the kernel stack at the top, the interrupt stack below it
/// and the user stack below that, 16 frames apart.
#[derive(Clone, Copy, PartialEq, Eq, Structural, Debug)]
pub struct ElfStack {
    pub bottom: u64,
    pub kernel_stack_top: u64,
    pub interrupt_stack_top: u64,
    pub user_stack_top: u64,
}

/// The stacks carved from the frames at `bottom`.
pub open spec fn stack_spec(bottom: u64) -> Result<ElfStack, ElfLoadError> {
    let top = bottom + ELF_STACK_FRAMES * ELF_PAGE_SIZE;
    if top > u64::MAX {
        Err(ElfLoadError::AddressOverflow)
    } else {
        Ok(
            ElfStack {
                bottom,
                kernel_stack_top: top as u64,
                interrupt_stack_top: (top - 16 * ELF_PAGE_SIZE) as u64,
                user_stack_top: (top - 32 * ELF_PAGE_SIZE) as u64,
            },
        )
    }
}

/// Carves the stacks of a loaded executable from the frames at `bottom`.
pub fn elf_stack_layout(bottom: u64) -> (r: Result<ElfStack, ElfLoadError>)
    ensures
        r == stack_spec(bottom),
{
    let size: u64 = 64 * 0x1000;
    if bottom > u64::MAX - size {
        return Err(ElfLoadError::AddressOverflow);
    }
    let stack_top = bottom + size;
    let kernel_stack_top = stack_top;
    let interrupt_stack_top = kernel_stack_top - 16 * 4096;
    let user_stack_top = interrupt_stack_top - 16 * 4096;
    Ok(ElfStack { bottom, kernel_stack_top, interrupt_stack_top, user_stack_top })
}

/// Allocates the frames of a loaded executable's stacks and carves them.
pub fn elf_prepare_stack<A: HalFrameAllocatorTrait>(
    frame_allocator: &mut HalFrameAllocatorWrapper<A>,
) -> (r: Result<ElfStack, ElfLoadError>)
    requires
        old(frame_allocator).inner().inv(),
        old(frame_allocator).inner().alloc_frames_pre(ELF_STACK_FRAMES),
    ensures
        final(frame_allocator).inner().inv(),
        exists|frames: Option<u64>|
            #[trigger] old(frame_allocator).inner().alloc_frames_post(
                ELF_STACK_FRAMES,
                final(frame_allocator).inner(),
                frames,
            ) && match frames {
                None => r == Err::<ElfStack, ElfLoadError>(ElfLoadError::OutOfStackFrames),
                Some(bottom) => r == stack_spec(bottom),
            },
{
    match frame_allocator.alloc_frames(ELF_STACK_FRAMES) {
        None => Err(ElfLoadError::OutOfStackFrames),
        Some(bottom) => elf_stack_layout(bottom),
    }
}

/// Page counts of an executable's sections, as the boot information records
/// them.
#[derive(Clone, Copy, PartialEq, Eq, Structural, Debug)]
pub struct BootExecutablePageCounts {
    pub text_pages: u64,
    pub rodata_pages: u64,
    pub data_pages: u64,
    pub null_pages: u64,
}

/// The capability arenas handed to an executable.
#[derive(Clone, Copy, PartialEq, Eq, Structural, Debug)]
pub struct BootExecutableArenas {
    pub root_resource_capability_arena: u64,
    pub root_virtual_capability_arena: u64,
}

/// What the bootloader tells the kernel about a loaded executable.
#[derive(Clone, Copy, PartialEq, Eq, Structural, Debug)]
pub struct BootExecutableInfo {
    pub physical_base: u64,
    pub virtual_base: u64,
    pub entry: u64,
    pub virtual_space: u64,
    pub kernel_stack_top: u64,
    pub interrupt_stack_top: u64,
    pub user_stack_top: u64,
    pub pages: BootExecutablePageCounts,
    pub crc32: u32,
    pub arenas: BootExecutableArenas,
}

/// The boot information of an image loaded at `base` with entry point
/// `entry_offset` bytes in, stacks `stack`, and page table root
/// `virtual_space`.
pub open spec fn executable_info_spec(base: u64, entry_offset: u64, stack: ElfStack, virtual_space: u64) -> Result<
    BootExecutableInfo,
    ElfLoadError,
> {
    if base + entry_offset > u64::MAX {
        Err(ElfLoadError::AddressOverflow)
    } else {
        Ok(
            BootExecutableInfo {
                physical_base: base,
                virtual_base: base,
                entry: (base + entry_offset) as u64,
                virtual_space,
                kernel_stack_top: stack.kernel_stack_top,
                interrupt_stack_top: stack.interrupt_stack_top,
                user_stack_top: stack.user_stack_top,
                pages: BootExecutablePageCounts {
                    text_pages: 0,
                    rodata_pages: 0,
                    data_pages: 0,
                    null_pages: 0,
                },
                crc32: 0,
                arenas: BootExecutableArenas {
                    root_resource_capability_arena: 0,
                    root_virtual_capability_arena: 0,
                },
            },
        )
    }
}

/// The boot information of a loaded image.
pub fn elf_executable_info(image: &ElfImage, stack: &ElfStack, virtual_space: u64) -> (r: Result<
    BootExecutableInfo,
    ElfLoadError,
>)
    ensures
        r == executable_info_spec(image.base, image.entry_offset, *stack, virtual_space),
{
    if image.base > u64::MAX - image.entry_offset {
        return Err(ElfLoadError::AddressOverflow);
    }
    let entry = image.base + image.entry_offset;
    Ok(
        BootExecutableInfo {
            physical_base: image.base,
            virtual_base: image.base,
            entry,
            virtual_space,
            kernel_stack_top: stack.kernel_stack_top,
            interrupt_stack_top: stack.interrupt_stack_top,
            user_stack_top: stack.user_stack_top,
            pages: BootExecutablePageCounts {
                text_pages: 0,
                rodata_pages: 0,
                data_pages: 0,
                null_pages: 0,
            },
            crc32: 0,
            arenas: BootExecutableArenas {
                root_resource_capability_arena: 0,
                root_virtual_capability_arena: 0,
            },
        },
    )
}

/// Every loadable segment among the first `n` ends at or below the highest
/// end that `load_bounds` records.
proof fn lemma_load_bounds_upper(segs: Seq<ElfSegment>, n: int)
    requires
        load_bounds(segs, n) is Some,
    ensures
        forall|i: int|
            0 <= i < n && segs[i].p_type == PT_LOAD ==> segs[i].p_vaddr + segs[i].p_memsz
                <= load_bounds(segs, n)->Some_0.1,
    decreases n,
{
    if n > 0 {
        if load_bounds(segs, n - 1) is Some {
            lemma_load_bounds_upper(segs, n - 1);
        }
        assert forall|i: int|
            0 <= i < n && segs[i].p_type == PT_LOAD implies segs[i].p_vaddr + segs[i].p_memsz
            <= load_bounds(segs, n)->Some_0.1 by {
            if i < n - 1 {
                lemma_load_bounds_some(segs, i + 1, n - 1);
            }
        }
    }
}

/// Every placement in the plan of the first `n` segments is the placement of
/// a loadable segment ending at or below `hi`, so it lies in
/// `[base, base + hi)`.
proof fn lemma_plan_within(base: u64, segs: Seq<ElfSegment>, n: int, file_len: int, hi: int)
    requires
        forall|i: int|
            0 <= i < n && segs[i].p_type == PT_LOAD ==> segs[i].p_vaddr + segs[i].p_memsz <= hi,
        segment_plan_spec(base, segs, n, file_len) is Ok,
    ensures
        ({
            let plan = segment_plan_spec(base, segs, n, file_len)->Ok_0;
            forall|k: int|
                0 <= k < plan.len() ==> base <= #[trigger] plan[k].address && plan[k].address
                    + plan[k].length <= base + hi
        }),
    decreases n,
{
    if n > 0 {
        lemma_plan_within(base, segs, n - 1, file_len, hi);
    }
}

/// Every segment of a loaded image is mapped inside the image's frames:
/// from `base` up to `base + total_bytes`.
pub proof fn law_segments_within_image(bytes: Seq<u8>, machine: Option<u16>, img: ElfImage)
    requires
        elf_layout_spec(bytes, machine) matches Ok(Some(total)) && image_of(
            img,
            bytes,
            img.base,
            total,
        ),
    ensures
        forall|k: int|
            0 <= k < img.segments@.len() ==> img.base <= #[trigger] img.segments@[k].address
                && img.segments@[k].address + img.segments@[k].length <= img.base
                + img.total_bytes,
{
    let segs = elf_segments_of(bytes).unwrap();
    let n = segs.len() as int;
    let (lo, hi) = load_bounds(segs, n).unwrap();
    lemma_load_bounds_upper(segs, n);
    assert(hi <= img.total_bytes);
    lemma_plan_within(img.base, segs, n, bytes.len() as int, img.total_bytes as int);
}

/// The stacks carved from a run of frames are ordered user below interrupt
/// below kernel, 16 frames apart, and lie inside the run.
pub proof fn law_stacks_inside_run(bottom: u64)
    ensures
        stack_spec(bottom) matches Ok(st) ==> st.bottom == bottom && bottom < st.user_stack_top
            && st.user_stack_top + 16 * ELF_PAGE_SIZE == st.interrupt_stack_top
            && st.interrupt_stack_top + 16 * ELF_PAGE_SIZE == st.kernel_stack_top
            && st.kernel_stack_top == bottom + ELF_STACK_FRAMES * ELF_PAGE_SIZE,
{
}

/// `m` places the segment `s` of an image loaded at `base`: its memory
/// starts at `base + p_vaddr` and runs `p_memsz` bytes, and its file bytes
/// are the `p_filesz` bytes at `p_offset`.
pub open spec fn places_segment(base: u64, m: ElfSegmentMapping, s: ElfSegment) -> bool {
    &&& m.address == base + s.p_vaddr
    &&& m.length == s.p_memsz
    &&& m.file_offset == s.p_offset
    &&& m.file_size == s.p_filesz
}

/// Every placement in `plan` places one of the first `n` segments of
/// `segs` that is loadable, whose file bytes lie within `file_len` bytes;
/// and every such loadable segment has a placement in `plan`.
pub open spec fn plan_places_segments(
    base: u64,
    segs: Seq<ElfSegment>,
    n: int,
    file_len: int,
    plan: Seq<ElfSegmentMapping>,
) -> bool {
    &&& forall|k: int|
        #![trigger plan[k]]
        0 <= k < plan.len() ==> exists|i: int|
            #![trigger segs[i]]
            0 <= i < n && segs[i].p_type == PT_LOAD && places_segment(base, plan[k], segs[i])
                && segs[i].p_offset + segs[i].p_filesz <= file_len
    &&& forall|i: int|
        #![trigger segs[i]]
        0 <= i < n && segs[i].p_type == PT_LOAD ==> exists|k: int|
            #![trigger plan[k]]
            0 <= k < plan.len() && places_segment(base, plan[k], segs[i])
}

proof fn lemma_plan_places(base: u64, segs: Seq<ElfSegment>, n: int, file_len: int)
    requires
        0 <= n <= segs.len(),
        segment_plan_spec(base, segs, n, file_len) is Ok,
    ensures
        plan_places_segments(base, segs, n, file_len, segment_plan_spec(base, segs, n, file_len)->Ok_0),
    decreases n,
{
    if n > 0 {
        lemma_plan_places(base, segs, n - 1, file_len);
        let prev = segment_plan_spec(base, segs, n - 1, file_len)->Ok_0;
        let plan = segment_plan_spec(base, segs, n, file_len)->Ok_0;
        if segs[n - 1].p_type == PT_LOAD {
            let m = segment_mapping_spec(base, segs[n - 1], file_len)->Ok_0;
            assert(plan == prev.push(m));
            assert(places_segment(base, plan[plan.len() - 1], segs[n - 1]));
            assert forall|k: int| #![trigger plan[k]] 0 <= k < plan.len() implies exists|i: int|
                #![trigger segs[i]]
                0 <= i < n && segs[i].p_type == PT_LOAD && places_segment(base, plan[k], segs[i])
                    && segs[i].p_offset + segs[i].p_filesz <= file_len by {
                if k < prev.len() {
                    let i = choose|i: int|
                        #![trigger segs[i]]
                        0 <= i < n - 1 && segs[i].p_type == PT_LOAD && places_segment(base, prev[k], segs[i])
                            && segs[i].p_offset + segs[i].p_filesz <= file_len;
                    assert(plan[k] == prev[k]);
                    assert(0 <= i < n && segs[i].p_type == PT_LOAD);
                } else {
                    assert(segs[n - 1].p_type == PT_LOAD);
                }
            }
            assert forall|i: int| #![trigger segs[i]] 0 <= i < n && segs[i].p_type == PT_LOAD implies exists|k: int|
                #![trigger plan[k]]
                0 <= k < plan.len() && places_segment(base, plan[k], segs[i]) by {
                if i < n - 1 {
                    let k = choose|k: int| #![trigger prev[k]] 0 <= k < prev.len() && places_segment(base, prev[k], segs[i]);
                    assert(plan[k] == prev[k]);
                } else {
                    assert(places_segment(base, plan[plan.len() - 1], segs[i]));
                }
            }
        } else {
            assert forall|k: int| #![trigger plan[k]] 0 <= k < plan.len() implies exists|i: int|
                #![trigger segs[i]]
                0 <= i < n && segs[i].p_type == PT_LOAD && places_segment(base, plan[k], segs[i])
                    && segs[i].p_offset + segs[i].p_filesz <= file_len by {
                let i = choose|i: int|
                    #![trigger segs[i]]
                    0 <= i < n - 1 && segs[i].p_type == PT_LOAD && places_segment(base, prev[k], segs[i])
                        && segs[i].p_offset + segs[i].p_filesz <= file_len;
                assert(0 <= i < n && segs[i].p_type == PT_LOAD);
            }
        }
    }
}

/// Each loadable segment of an image placed at `base` lands where the file
/// says: every placement maps a loadable segment at `base + p_vaddr`, for
/// `p_memsz` bytes, filled from the `p_filesz` bytes at `p_offset`, which lie
/// inside the file; and every loadable segment has such a placement.
pub proof fn law_segments_placed_at_their_address(base: u64, segs: Seq<ElfSegment>, file_len: int)
    ensures
        segment_plan_spec(base, segs, segs.len() as int, file_len) is Ok ==> plan_places_segments(
            base,
            segs,
            segs.len() as int,
            file_len,
            segment_plan_spec(base, segs, segs.len() as int, file_len)->Ok_0,
        ),
{
    if segment_plan_spec(base, segs, segs.len() as int, file_len) is Ok {
        lemma_plan_places(base, segs, segs.len() as int, file_len);
    }
}

/// The boot information hands over the image and its stacks as they are:
/// its bases are the image's base, its entry is `base + entry_offset`, its
/// address space is `virtual_space`, and its kernel, interrupt and user
/// stack tops are the stack's own, so that, for stacks carved at `bottom`,
/// the user stack top lies 16 pages below the interrupt stack top, which
/// lies 16 pages below the kernel stack top at `bottom + 64` pages. It fails
/// exactly when the entry address does not fit in 64 bits.
pub proof fn law_boot_info_hands_over_stacks(
    base: u64,
    entry_offset: u64,
    bottom: u64,
    virtual_space: u64,
)
    requires
        stack_spec(bottom) is Ok,
    ensures
        ({
            let stack = stack_spec(bottom)->Ok_0;
            let r = executable_info_spec(base, entry_offset, stack, virtual_space);
            &&& r is Ok <==> base + entry_offset <= u64::MAX
            &&& r matches Ok(info) ==> {
                &&& info.physical_base == base
                &&& info.virtual_base == base
                &&& info.entry == base + entry_offset
                &&& info.virtual_space == virtual_space
                &&& info.kernel_stack_top == stack.kernel_stack_top
                &&& info.interrupt_stack_top == stack.interrupt_stack_top
                &&& info.user_stack_top == stack.user_stack_top
                &&& info.kernel_stack_top == bottom + ELF_STACK_FRAMES * ELF_PAGE_SIZE
                &&& info.interrupt_stack_top + 16 * ELF_PAGE_SIZE == info.kernel_stack_top
                &&& info.user_stack_top + 16 * ELF_PAGE_SIZE == info.interrupt_stack_top
            }
        }),
{
}

/// Among the first `n` of `segs`, the loadable segments start at `lo` or
/// above and end at `hi` or below, one of them starts at `lo` and one ends
/// at `hi`.
pub open spec fn loads_span(segs: Seq<ElfSegment>, n: int, lo: int, hi: int) -> bool {
    &&& forall|i: int|
        #![trigger segs[i]]
        0 <= i < n && segs[i].p_type == PT_LOAD ==> lo <= segs[i].p_vaddr && segs[i].p_vaddr
            + segs[i].p_memsz <= hi
    &&& exists|i: int| #![trigger segs[i]] 0 <= i < n && segs[i].p_type == PT_LOAD && segs[i].p_vaddr == lo
    &&& exists|j: int|
        #![trigger segs[j]]
        0 <= j < n && segs[j].p_type == PT_LOAD && segs[j].p_vaddr + segs[j].p_memsz == hi
}

proof fn lemma_load_bounds_span(segs: Seq<ElfSegment>, n: int)
    requires
        0 <= n <= segs.len(),
    ensures
        load_bounds(segs, n) is None ==> forall|i: int| 0 <= i < n ==> #[trigger] segs[i].p_type != PT_LOAD,
        load_bounds(segs, n) matches Some((lo, hi)) ==> loads_span(segs, n, lo, hi),
    decreases n,
{
    if n > 0 {
        lemma_load_bounds_span(segs, n - 1);
        let s = segs[n - 1];
        if s.p_type == PT_LOAD {
            let (lo, hi) = load_bounds(segs, n)->Some_0;
            match load_bounds(segs, n - 1) {
                None => {
                    assert forall|i: int| #![trigger segs[i]] 0 <= i < n && segs[i].p_type == PT_LOAD implies lo
                        <= segs[i].p_vaddr && segs[i].p_vaddr + segs[i].p_memsz <= hi by {
                        if i < n - 1 {
                            assert(segs[i].p_type != PT_LOAD);
                        }
                    }
                    assert(segs[n - 1].p_vaddr == lo);
                    assert(segs[n - 1].p_vaddr + segs[n - 1].p_memsz == hi);
                },
                Some((lo0, hi0)) => {
                    let i0 = choose|i: int| #![trigger segs[i]] 0 <= i < n - 1 && segs[i].p_type == PT_LOAD && segs[i].p_vaddr == lo0;
                    let j0 = choose|j: int| #![trigger segs[j]] 0 <= j < n - 1 && segs[j].p_type == PT_LOAD && segs[j].p_vaddr + segs[j].p_memsz == hi0;
                    if s.p_vaddr < lo0 {
                        assert(segs[n - 1].p_vaddr == lo);
                    } else {
                        assert(segs[i0].p_vaddr == lo);
                    }
                    if s.p_vaddr + s.p_memsz > hi0 {
                        assert(segs[n - 1].p_vaddr + segs[n - 1].p_memsz == hi);
                    } else {
                        assert(segs[j0].p_vaddr + segs[j0].p_memsz == hi);
                    }
                },
            }
        }
    }
}

/// The load range covers exactly the loadable segments, widened to whole
/// pages: it starts at the lowest loadable address rounded down to a page
/// and ends at the highest loadable end rounded up to a page. A file with no
/// loadable segment has no range.
pub proof fn law_load_range_covers_segments(segs: Seq<ElfSegment>)
    ensures
        elf_range_spec(segs) == Err::<(u64, u64), ElfLoadError>(ElfLoadError::NoLoadSegments) <==> forall|
            i: int,
        | 0 <= i < segs.len() ==> #[trigger] segs[i].p_type != PT_LOAD,
        elf_range_spec(segs) matches Ok((lo, hi)) ==> lo % ELF_PAGE_SIZE == 0 && hi % ELF_PAGE_SIZE
            == 0 && exists|l: int, h: int|
            #![trigger loads_span(segs, segs.len() as int, l, h)]
            loads_span(segs, segs.len() as int, l, h) && lo <= l < lo + ELF_PAGE_SIZE && h <= hi < h
                + ELF_PAGE_SIZE,
{
    let n = segs.len() as int;
    lemma_load_bounds_span(segs, n);
    if load_bounds(segs, n) is None {
    } else {
        let (l, h) = load_bounds(segs, n)->Some_0;
        let i = choose|i: int| #![trigger segs[i]] 0 <= i < n && segs[i].p_type == PT_LOAD && segs[i].p_vaddr == l;
        assert(segs[i].p_type == PT_LOAD);
        if elf_range_spec(segs) is Ok {
            assert(loads_span(segs, n, l, h));
        }
    }
}

/// `x` is the patch of the relocation `r` in an image at `base`: it writes
/// at `base + r_offset` the value `base + r_addend`, as a signed sum.
pub open spec fn patches_relocation(base: u64, x: (u64, u64), r: ElfRelocation) -> bool {
    &&& r.r_type == R_X86_64_RELATIVE
    &&& x.0 == base + r.r_offset
    &&& x.1 == ((base as i64) + r.r_addend) as u64
}

/// Every patch in `p` is that of one of the first `n` relocations of `rs`,
/// and every base-relative one among them has its patch in `p`.
pub open spec fn patches_cover_relocations(
    base: u64,
    rs: Seq<ElfRelocation>,
    n: int,
    p: Seq<(u64, u64)>,
) -> bool {
    &&& forall|k: int|
        #![trigger p[k]]
        0 <= k < p.len() ==> exists|i: int|
            #![trigger rs[i]]
            0 <= i < n && patches_relocation(base, p[k], rs[i])
    &&& forall|i: int|
        #![trigger rs[i]]
        0 <= i < n && rs[i].r_type == R_X86_64_RELATIVE ==> exists|k: int|
            #![trigger p[k]]
            0 <= k < p.len() && patches_relocation(base, p[k], rs[i])
}

proof fn lemma_rela_patches_cover(base: u64, rs: Seq<ElfRelocation>, n: int)
    requires
        0 <= n <= rs.len(),
        rela_patches_spec(base, rs, n) is Ok,
    ensures
        patches_cover_relocations(base, rs, n, rela_patches_spec(base, rs, n)->Ok_0),
    decreases n,
{
    if n > 0 {
        lemma_rela_patches_cover(base, rs, n - 1);
        let prev = rela_patches_spec(base, rs, n - 1)->Ok_0;
        let p = rela_patches_spec(base, rs, n)->Ok_0;
        if rs[n - 1].r_type == R_X86_64_RELATIVE {
            let x = relocation_patch_spec(base, rs[n - 1])->Some_0->Ok_0;
            assert(p == prev.push(x));
            assert(patches_relocation(base, p[p.len() - 1], rs[n - 1]));
            assert forall|k: int| #![trigger p[k]] 0 <= k < p.len() implies exists|i: int|
                #![trigger rs[i]]
                0 <= i < n && patches_relocation(base, p[k], rs[i]) by {
                if k < prev.len() {
                    let i = choose|i: int| #![trigger rs[i]] 0 <= i < n - 1 && patches_relocation(base, prev[k], rs[i]);
                    assert(p[k] == prev[k]);
                    assert(0 <= i < n && patches_relocation(base, p[k], rs[i]));
                } else {
                    assert(patches_relocation(base, p[k], rs[n - 1]));
                }
            }
            assert forall|i: int| #![trigger rs[i]] 0 <= i < n && rs[i].r_type == R_X86_64_RELATIVE implies exists|k: int|
                #![trigger p[k]]
                0 <= k < p.len() && patches_relocation(base, p[k], rs[i]) by {
                if i < n - 1 {
                    let k = choose|k: int| #![trigger prev[k]] 0 <= k < prev.len() && patches_relocation(base, prev[k], rs[i]);
                    assert(p[k] == prev[k]);
                } else {
                    assert(patches_relocation(base, p[p.len() - 1], rs[i]));
                }
            }
        } else {
            assert forall|k: int| #![trigger p[k]] 0 <= k < p.len() implies exists|i: int|
                #![trigger rs[i]]
                0 <= i < n && patches_relocation(base, p[k], rs[i]) by {
                let i = choose|i: int| #![trigger rs[i]] 0 <= i < n - 1 && patches_relocation(base, prev[k], rs[i]);
                assert(0 <= i < n && patches_relocation(base, p[k], rs[i]));
            }
        }
    }
}

/// Relocation writes exactly what the relocations ask: each patch of a
/// relocation section writes, at `base + r_offset`, the value
/// `base + r_addend` of one base-relative relocation, and every base-relative
/// relocation of the section has its patch; other relocations write nothing.
pub proof fn law_relocations_patched(base: u64, rs: Seq<ElfRelocation>)
    ensures
        rela_patches_spec(base, rs, rs.len() as int) is Ok ==> patches_cover_relocations(
            base,
            rs,
            rs.len() as int,
            rela_patches_spec(base, rs, rs.len() as int)->Ok_0,
        ),
{
    if rela_patches_spec(base, rs, rs.len() as int) is Ok {
        lemma_rela_patches_cover(base, rs, rs.len() as int);
    }
}

} // verus!

//! Physical frame allocators.
use vstd::prelude::*;
use vstd::arithmetic::div_mod::{lemma_div_multiples_vanish, lemma_mod_multiples_vanish};
use crate::bitmap::{bit_of, lemma_full_byte, lemma_set_bit, lemma_unset_bit, BitmapUtils};

verus! {

/// Size in bytes of a frame handed out by the allocators.
pub const FRAME_SIZE: u64 = 4096;

/// `i` is the lowest index whose frame is free in `s`.
pub open spec fn is_first_free(s: Seq<bool>, lo: int, i: int) -> bool {
    &&& lo <= i < s.len()
    &&& !s[i]
    &&& forall|j: int| lo <= j < i ==> s[j]
}

/// Some frame at index `lo` or above is free in `s`.
pub open spec fn has_free(s: Seq<bool>, lo: int) -> bool {
    exists|i: int| lo <= i < s.len() && !s[i]
}

/// The lowest index at or above `lo` whose frame is free in `s`.
pub open spec fn first_free(s: Seq<bool>, lo: int) -> int {
    choose|i: int| is_first_free(s, lo, i)
}

proof fn lemma_first_free_unique(s: Seq<bool>, lo: int, i: int)
    requires
        is_first_free(s, lo, i),
    ensures
        first_free(s, lo) == i,
        has_free(s, lo),
{
    let c = first_free(s, lo);
    assert(is_first_free(s, lo, c));
    if c < i {
        assert(s[c]);
    } else if i < c {
        assert(s[i]);
    }
}

proof fn lemma_first_free_exists(s: Seq<bool>, lo: int)
    requires
        has_free(s, lo),
        0 <= lo,
    ensures
        is_first_free(s, lo, first_free(s, lo)),
    decreases s.len() - lo,
{
    if !s[lo] {
        lemma_first_free_unique(s, lo, lo);
    } else {
        let w = choose|i: int| lo <= i < s.len() && !s[i];
        assert(lo + 1 <= w < s.len() && !s[w]);
        lemma_first_free_exists(s, lo + 1);
        let i = first_free(s, lo + 1);
        lemma_first_free_unique(s, lo, i);
    }
}

/// The interface every frame allocator offers. Each allocator says through
/// the specification functions what its operations do.
pub trait HalFrameAllocatorTrait: Sized {
    /// The allocator's internal invariant.
    spec fn inv(&self) -> bool;

    /// The inputs on which `alloc_frame` can run.
    spec fn alloc_frame_pre(&self) -> bool;

    /// What `alloc_frame` returns and leaves behind.
    spec fn alloc_frame_post(&self, after: Self, r: Option<u64>) -> bool;

    /// The inputs on which `alloc_frames` can run.
    spec fn alloc_frames_pre(&self, count: usize) -> bool;

    /// What `alloc_frames` returns and leaves behind.
    spec fn alloc_frames_post(&self, count: usize, after: Self, r: Option<u64>) -> bool;

    /// The inputs on which `dealloc_frame` can run.
    spec fn dealloc_frame_pre(&self, frame: u64) -> bool;

    /// What `dealloc_frame` leaves behind.
    spec fn dealloc_frame_post(&self, frame: u64, after: Self) -> bool;

    /// Allocates one frame and returns its (non-zero) address.
    fn alloc_frame(&mut self) -> (r: Option<u64>)
        requires
            old(self).inv(),
            old(self).alloc_frame_pre(),
        ensures
            final(self).inv(),
            old(self).alloc_frame_post(*final(self), r),
    ;

    /// Allocates `count` consecutive frames and returns the address of the first.
    fn alloc_frames(&mut self, count: usize) -> (r: Option<u64>)
        requires
            old(self).inv(),
            count > 0,
            old(self).alloc_frames_pre(count),
        ensures
            final(self).inv(),
            old(self).alloc_frames_post(count, *final(self), r),
    ;

    /// Gives back the frame at address `frame`.
    fn dealloc_frame(&mut self, frame: u64)
        requires
            old(self).inv(),
            frame != 0,
            old(self).dealloc_frame_pre(frame),
        ensures
            final(self).inv(),
            old(self).dealloc_frame_post(frame, *final(self)),
    ;
}

/// Frame `i` of the bitmap `bytes`: bit `i % 8` of byte `i / 8`.
pub open spec fn bitmap_frames(bytes: Seq<u8>) -> Seq<bool> {
    Seq::new((bytes.len() * 8) as nat, |i: int| bit_of(bytes[i / 8], i % 8))
}

proof fn lemma_index_split(b: int, k: int)
    requires
        0 <= b,
        0 <= k < 8,
    ensures
        (b * 8 + k) / 8 == b,
        (b * 8 + k) % 8 == k,
{
}

/// Setting bit `k` of byte `b` sets frame `8 * b + k` and nothing else.
proof fn lemma_bitmap_update(bytes: Seq<u8>, b: int, k: u8, nb: u8, set: bool)
    requires
        0 <= b < bytes.len(),
        k < 8,
        set ==> nb == bytes[b] | (1u8 << k),
        !set ==> nb == bytes[b] & !(1u8 << k),
    ensures
        bitmap_frames(bytes.update(b, nb)) == bitmap_frames(bytes).update(b * 8 + k, set),
{
    let f0 = bitmap_frames(bytes);
    let f1 = bitmap_frames(bytes.update(b, nb));
    lemma_index_split(b, k as int);
    assert forall|i: int| 0 <= i < f1.len() implies f1[i] == f0.update(b * 8 + k, set)[i] by {
        if i / 8 == b {
            let j = (i % 8) as u8;
            if set {
                lemma_set_bit(bytes[b], k, j);
            } else {
                lemma_unset_bit(bytes[b], k, j);
            }
            assert(i == b * 8 + (i % 8));
        }
    }
    assert(f1 =~= f0.update(b * 8 + k, set));
}

/// A frame allocator over a bitmap with one bit per frame, set when the frame
/// is in use. Frame `i` lies at `memory_base + i * page_size`.
pub struct HalBareFrameAllocator {
    /// The `size` bytes of the bitmap.
    bitmap: Vec<u8>,
    size: usize,
    page_size: usize,
    memory_base: u64,
    memory_top: u64,
    last_free_page: u64,
}

impl HalBareFrameAllocator {
    /// In-use flags of the frames, one per bitmap bit.
    pub closed spec fn frames(&self) -> Seq<bool> {
        bitmap_frames(self.bitmap@)
    }

    /// Number of bytes in the bitmap.
    pub closed spec fn bitmap_size(&self) -> usize {
        self.size
    }

    /// Size of a frame in bytes (0 before `init`).
    pub closed spec fn frame_size(&self) -> usize {
        self.page_size
    }

    /// Address of frame 0.
    pub closed spec fn base(&self) -> u64 {
        self.memory_base
    }

    /// End of the memory whose frames can be given back.
    pub closed spec fn top(&self) -> u64 {
        self.memory_top
    }

    /// The allocation hint, kept at 0.
    pub closed spec fn hint(&self) -> u64 {
        self.last_free_page
    }

    /// The bitmap has one bit per frame, 8 per byte, and frame numbers fit in
    /// a `usize`; before frames have a size, no page lies in `[base, top)`.
    pub open spec fn wf(&self) -> bool {
        &&& self.frames().len() == 8 * self.bitmap_size()
        &&& self.bitmap_size() <= usize::MAX / 8
        &&& self.frame_size() == 0 ==> self.top() <= self.base()
    }

    /// `other` has the same geometry as `self`.
    pub open spec fn same_config(&self, other: Self) -> bool {
        &&& other.bitmap_size() == self.bitmap_size()
        &&& other.frame_size() == self.frame_size()
        &&& other.base() == self.base()
        &&& other.top() == self.top()
        &&& other.hint() == self.hint()
    }

    /// Byte and bit of the bitmap that track `page`, or `None` when `page` is
    /// outside `[base, top)` or not frame aligned.
    pub open spec fn page_offset(&self, page: u64) -> Option<(usize, usize)> {
        if page < self.base() || page >= self.top() || page % (self.frame_size() as u64) != 0 {
            None
        } else {
            let o = ((page - self.base()) / (self.frame_size() as int)) as u64;
            Some(((o / 8) as usize, (o % 8) as usize))
        }
    }

    /// Index of the frame that holds `page`.
    pub open spec fn frame_index(&self, page: u64) -> int {
        (page - self.base()) / (self.frame_size() as int)
    }

    /// An allocator with an empty bitmap, before `init`.
    pub fn new() -> (a: Self)
        ensures
            a.wf(),
            a.bitmap_size() == 0,
            a.frame_size() == 0,
            a.base() == 0,
            a.top() == 0,
            a.hint() == 0,
            a.frames() == Seq::<bool>::empty(),
    {
        let a = Self {
            bitmap: Vec::new(),
            size: 0,
            page_size: 0,
            memory_base: 0,
            memory_top: 0,
            last_free_page: 0,
        };
        proof {
            assert(a.frames() =~= Seq::<bool>::empty());
        }
        a
    }

    /// Sets up a bitmap of `size` bytes for 4 KiB frames from `memory_base`,
    /// with every frame marked in use.
    pub fn init(&mut self, size: usize, memory_base: u64, memory_top: u64)
        requires
            size <= usize::MAX / 8,
        ensures
            final(self).wf(),
            final(self).bitmap_size() == size,
            final(self).frame_size() == 0x1000,
            final(self).base() == memory_base,
            final(self).top() == memory_top,
            final(self).hint() == 0,
            final(self).frames() == Seq::new((size * 8) as nat, |i: int| true),
    {
        self.bitmap = vec![0u8; size];
        self.size = size;
        self.page_size = 0x1000;
        self.memory_base = memory_base;
        self.memory_top = memory_top;
        self.last_free_page = 0;
        self.set_all_full();
    }

    /// Marks every frame in use.
    fn set_all_full(&mut self)
        requires
            old(self).bitmap@.len() == old(self).size,
            old(self).size <= usize::MAX / 8,
            old(self).page_size == 0 ==> old(self).memory_top <= old(self).memory_base,
        ensures
            final(self).wf(),
            final(self).size == old(self).size,
            final(self).page_size == old(self).page_size,
            final(self).memory_base == old(self).memory_base,
            final(self).memory_top == old(self).memory_top,
            final(self).last_free_page == old(self).last_free_page,
            final(self).frames() == Seq::new((old(self).size * 8) as nat, |i: int| true),
    {
        let n = self.size;
        for i in 0..n
            invariant
                n == self.size,
                self.bitmap@.len() == n,
                n <= usize::MAX / 8,
                self.page_size == old(self).page_size,
                self.memory_base == old(self).memory_base,
                self.memory_top == old(self).memory_top,
                self.last_free_page == old(self).last_free_page,
                forall|j: int| 0 <= j < i ==> self.bitmap@[j] == 0xffu8,
        {
            self.bitmap.set(i, 0xff);
        }
        proof {
            let f = self.frames();
            assert forall|i: int| 0 <= i < f.len() implies f[i] by {
                lemma_full_byte(self.bitmap@[i / 8]);
            }
            assert(f =~= Seq::new((n * 8) as nat, |i: int| true));
        }
    }

    /// Byte and bit of the bitmap that track `page`.
    pub fn calculate_page_offset(&self, page: u64) -> (r: Option<(usize, usize)>)
        requires
            self.wf(),
        ensures
            r == self.page_offset(page),
    {
        if page < self.memory_base || page >= self.memory_top || page % self.page_size as u64 != 0 {
            None
        } else {
            let offset = (page - self.memory_base) / self.page_size as u64;
            let byte_offset = offset / 8;
            let bit_offset = offset % 8;
            Some((byte_offset as usize, bit_offset as usize))
        }
    }
}

impl HalFrameAllocatorTrait for HalBareFrameAllocator {
    open spec fn inv(&self) -> bool {
        self.wf()
    }

    /// The address of the frame to be allocated is non-zero and fits in 64 bits.
    open spec fn alloc_frame_pre(&self) -> bool {
        has_free(self.frames(), 0) ==> {
            let i = first_free(self.frames(), 0);
            0 < self.base() + i * self.frame_size() <= u64::MAX
        }
    }

    /// The lowest free frame is marked in use and its address returned; with
    /// no free frame, nothing changes and the result is `None`.
    open spec fn alloc_frame_post(&self, after: Self, r: Option<u64>) -> bool {
        &&& self.same_config(after)
        &&& if has_free(self.frames(), 0) {
            let i = first_free(self.frames(), 0);
            &&& r == Some((self.base() + i * self.frame_size()) as u64)
            &&& after.frames() == self.frames().update(i, true)
        } else {
            &&& r is None
            &&& after.frames() == self.frames()
        }
    }

    /// The bitmap allocator has no multi-frame allocation: a request for
    /// several frames stops the system, so no input is admitted.
    open spec fn alloc_frames_pre(&self, count: usize) -> bool {
        false
    }

    open spec fn alloc_frames_post(&self, count: usize, after: Self, r: Option<u64>) -> bool {
        true
    }

    /// The allocator is set up, and `frame` is a frame address in
    /// `[base, top)` whose bit lies in the bitmap.
    open spec fn dealloc_frame_pre(&self, frame: u64) -> bool {
        &&& self.frame_size() != 0
        &&& self.page_offset(frame) is Some
        &&& self.frame_index(frame) < self.frames().len()
    }

    /// The frame's bit is cleared.
    open spec fn dealloc_frame_post(&self, frame: u64, after: Self) -> bool {
        &&& self.same_config(after)
        &&& after.frames() == self.frames().update(self.frame_index(frame), false)
    }

    fn alloc_frame(&mut self) -> (r: Option<u64>) {
        let n = self.size;
        let ghost f0 = self.frames();
        let mut byte_offset: usize = 0;
        while byte_offset < n
            invariant
                self.wf(),
                n == self.size,
                byte_offset <= n,
                self.frames() == f0,
                f0 == old(self).frames(),
                old(self).same_config(*self),
                old(self).alloc_frame_pre(),
                forall|j: int| 0 <= j < byte_offset * 8 ==> f0[j],
            decreases n - byte_offset,
        {
            let byte = self.bitmap[byte_offset];
            if byte != 0xff {
                let mut bit_offset: usize = 0;
                while bit_offset < 8
                    invariant
                        self.wf(),
                        n == self.size,
                        byte_offset < n,
                        bit_offset <= 8,
                        byte == self.bitmap@[byte_offset as int],
                        self.frames() == f0,
                        f0 == old(self).frames(),
                        old(self).same_config(*self),
                        old(self).alloc_frame_pre(),
                        forall|j: int| 0 <= j < byte_offset * 8 + bit_offset ==> f0[j],
                    decreases 8 - bit_offset,
                {
                    let mask = BitmapUtils::calculate_mask(bit_offset);
                    proof {
                        lemma_index_split(byte_offset as int, bit_offset as int);
                        assert(bit_offset % 8 == bit_offset);
                        assert(f0[byte_offset * 8 + bit_offset] == bit_of(byte, bit_offset as int));
                    }
                    if !BitmapUtils::is_bit_set(byte, mask) {
                        let nb = BitmapUtils::set_bit(byte, mask);
                        let ghost i = byte_offset * 8 + bit_offset;
                        proof {
                            lemma_first_free_unique(f0, 0, i);
                            lemma_bitmap_update(self.bitmap@, byte_offset as int, bit_offset as u8, nb, true);
                        }
                        self.bitmap.set(byte_offset, nb);
                        let index: usize = byte_offset * 8 + bit_offset;
                        let page = (index as u64) * (self.page_size as u64) + self.memory_base;
                        return Some(page);
                    }
                    bit_offset = bit_offset + 1;
                }
            } else {
                proof {
                    lemma_full_byte(byte);
                    assert forall|j: int| 0 <= j < (byte_offset + 1) * 8 implies f0[j] by {
                        if j >= byte_offset * 8 {
                            lemma_index_split(byte_offset as int, j - byte_offset * 8);
                            assert(bit_of(byte, j - byte_offset * 8));
                        }
                    }
                }
            }
            byte_offset = byte_offset + 1;
        }
        proof {
            assert(!has_free(f0, 0));
        }
        None
    }

    fn alloc_frames(&mut self, count: usize) -> (r: Option<u64>) {
        None
    }

    fn dealloc_frame(&mut self, frame: u64) {
        let page = frame;
        let (byte_offset, bit_offset) = self.calculate_page_offset(page).unwrap();
        let mask = BitmapUtils::calculate_mask(bit_offset);
        let byte = self.bitmap[byte_offset];
        let nb = BitmapUtils::unset_bit(byte, mask);
        proof {
            let o = self.frame_index(frame);
            assert(byte_offset == o / 8 && bit_offset == o % 8);
            lemma_index_split(byte_offset as int, bit_offset as int);
            assert(byte_offset < self.size);
            lemma_bitmap_update(self.bitmap@, byte_offset as int, bit_offset as u8, nb, false);
        }
        self.bitmap.set(byte_offset, nb);
    }
}

/// The `count` frames from `start` are all free in `s`.
pub open spec fn run_free(s: Seq<bool>, start: int, count: int) -> bool {
    forall|j: int| start <= j < start + count ==> !s[j]
}

/// `start` is the lowest index from 1 at which `count` free frames begin.
pub open spec fn is_first_fit(s: Seq<bool>, count: int, start: int) -> bool {
    &&& 1 <= start
    &&& start + count <= s.len()
    &&& run_free(s, start, count)
    &&& forall|st: int| 1 <= st < start ==> !run_free(s, st, count)
}

/// Some run of `count` free frames begins at an index from 1.
pub open spec fn has_fit(s: Seq<bool>, count: int) -> bool {
    exists|start: int| 1 <= start && start + count <= s.len() && run_free(s, start, count)
}

/// The lowest index from 1 at which `count` free frames begin.
pub open spec fn first_fit(s: Seq<bool>, count: int) -> int {
    choose|start: int| is_first_fit(s, count, start)
}

/// `s` with the `count` frames from `start` set to `v`.
pub open spec fn mark_run(s: Seq<bool>, start: int, count: int, v: bool) -> Seq<bool> {
    Seq::new(s.len(), |j: int| if start <= j < start + count { v } else { s[j] })
}

proof fn lemma_first_fit_unique(s: Seq<bool>, count: int, start: int)
    requires
        is_first_fit(s, count, start),
    ensures
        first_fit(s, count) == start,
        has_fit(s, count),
{
    let c = first_fit(s, count);
    assert(is_first_fit(s, count, c));
    if c < start {
        assert(!run_free(s, c, count));
    } else if start < c {
        assert(!run_free(s, start, count));
    }
}

/// A frame allocator over a table of in-use flags, one per 4 KiB frame of a
/// memory region mapped at `physical_memory_offset`. Frame 0 is never handed
/// out.
pub struct HalMemfdFrameAllocator {
    physical_memory_offset: u64,
    frames: Vec<bool>,
    max_frames: usize,
}

impl HalMemfdFrameAllocator {
    /// In-use flags of the frames.
    pub closed spec fn frame_table(&self) -> Seq<bool> {
        self.frames@
    }

    /// Address at which the region, and so frame 0, starts.
    pub closed spec fn offset(&self) -> u64 {
        self.physical_memory_offset
    }

    /// Number of frames in the region.
    pub closed spec fn frame_count(&self) -> usize {
        self.max_frames
    }

    /// The table has one flag per frame.
    pub open spec fn wf(&self) -> bool {
        self.frame_table().len() == self.frame_count()
    }

    /// Address of frame `i`.
    pub open spec fn frame_address(&self, i: int) -> int {
        self.offset() + i * (FRAME_SIZE as int)
    }

    /// Index of the frame that holds address `frame`.
    pub open spec fn frame_index(&self, frame: u64) -> int {
        (frame - self.offset()) / (FRAME_SIZE as int)
    }

    /// The table entry that `dealloc_frame` looks up for `frame`: the frame
    /// index cut to a `usize`.
    pub open spec fn table_slot(&self, frame: u64) -> int {
        (self.frame_index(frame) as usize) as int
    }

    /// An allocator for the `ram_size_bytes / 4096` frames of a region at
    /// `physical_memory_offset`, all free.
    pub fn new(physical_memory_offset: u64, ram_size_bytes: u64) -> (a: Self)
        requires
            ram_size_bytes / FRAME_SIZE <= usize::MAX,
        ensures
            a.wf(),
            a.offset() == physical_memory_offset,
            a.frame_count() == ram_size_bytes / FRAME_SIZE,
            a.frame_table() == Seq::new(a.frame_count() as nat, |i: int| false),
            used_below(a.frame_table(), 1),
    {
        let max_frames = (ram_size_bytes / FRAME_SIZE) as usize;
        let tracking = vec![false; max_frames];
        let a = Self { physical_memory_offset, frames: tracking, max_frames };
        proof {
            assert(a.frame_table() =~= Seq::new(a.frame_count() as nat, |i: int| false));
        }
        a
    }
}

impl HalFrameAllocatorTrait for HalMemfdFrameAllocator {
    open spec fn inv(&self) -> bool {
        self.wf()
    }

    /// The address of the frame to be allocated fits in 64 bits.
    open spec fn alloc_frame_pre(&self) -> bool {
        has_free(self.frame_table(), 1) ==> self.frame_address(first_free(self.frame_table(), 1))
            <= u64::MAX
    }

    /// The lowest free frame other than frame 0 is marked in use and its
    /// address returned; with none, nothing changes and the result is `None`.
    open spec fn alloc_frame_post(&self, after: Self, r: Option<u64>) -> bool {
        &&& after.offset() == self.offset()
        &&& after.frame_count() == self.frame_count()
        &&& if has_free(self.frame_table(), 1) {
            let i = first_free(self.frame_table(), 1);
            &&& r == Some(self.frame_address(i) as u64)
            &&& after.frame_table() == self.frame_table().update(i, true)
        } else {
            &&& r is None
            &&& after.frame_table() == self.frame_table()
        }
    }

    /// The address of the run to be allocated fits in 64 bits.
    open spec fn alloc_frames_pre(&self, count: usize) -> bool {
        has_fit(self.frame_table(), count as int) ==> self.frame_address(
            first_fit(self.frame_table(), count as int),
        ) <= u64::MAX
    }

    /// The lowest run of `count` free frames that does not include frame 0 is
    /// marked in use and the address of its first frame returned; with none,
    /// nothing changes and the result is `None`.
    open spec fn alloc_frames_post(&self, count: usize, after: Self, r: Option<u64>) -> bool {
        &&& after.offset() == self.offset()
        &&& after.frame_count() == self.frame_count()
        &&& if has_fit(self.frame_table(), count as int) {
            let st = first_fit(self.frame_table(), count as int);
            &&& r == Some(self.frame_address(st) as u64)
            &&& after.frame_table() == mark_run(self.frame_table(), st, count as int, true)
        } else {
            &&& r is None
            &&& after.frame_table() == self.frame_table()
        }
    }

    /// `frame` is not below the region.
    open spec fn dealloc_frame_pre(&self, frame: u64) -> bool {
        frame >= self.offset()
    }

    /// The table entry of `frame` (its index cut to a `usize`) is marked free
    /// when it lies in the table; otherwise nothing changes.
    open spec fn dealloc_frame_post(&self, frame: u64, after: Self) -> bool {
        &&& after.offset() == self.offset()
        &&& after.frame_count() == self.frame_count()
        &&& after.frame_table() == if self.table_slot(frame) < self.frame_count() {
            self.frame_table().update(self.table_slot(frame), false)
        } else {
            self.frame_table()
        }
    }

    fn alloc_frame(&mut self) -> (r: Option<u64>) {
        let ghost f0 = self.frames@;
        let max = self.max_frames;
        let mut index: usize = 1;
        while index < max
            invariant
                self.wf(),
                max == self.max_frames,
                1 <= index,
                self.frames@ == f0,
                f0 == old(self).frame_table(),
                self.physical_memory_offset == old(self).offset(),
                self.max_frames == old(self).frame_count(),
                old(self).alloc_frame_pre(),
                forall|j: int| 1 <= j < index ==> f0[j],
            decreases max - index,
        {
            if !self.frames[index] {
                proof {
                    lemma_first_free_unique(f0, 1, index as int);
                }
                self.frames.set(index, true);
                let phys_offset = (index as u64) * 4096;
                return Some(phys_offset + self.physical_memory_offset);
            }
            index = index + 1;
        }
        None
    }

    fn alloc_frames(&mut self, count: usize) -> (r: Option<u64>) {
        let ghost f0 = self.frames@;
        let count_val = count;
        if count_val > self.max_frames {
            return None;
        }
        let upper_bound = self.max_frames - count_val;
        let mut start_index: usize = 1;
        while start_index <= upper_bound
            invariant
                self.wf(),
                upper_bound == self.max_frames - count_val,
                count_val == count,
                count > 0,
                1 <= start_index <= upper_bound + 1,
                self.frames@ == f0,
                f0 == old(self).frame_table(),
                self.physical_memory_offset == old(self).offset(),
                self.max_frames == old(self).frame_count(),
                old(self).alloc_frames_pre(count),
                forall|st: int| 1 <= st < start_index ==> !run_free(f0, st, count as int),
            decreases upper_bound + 1 - start_index,
        {
            let end_index = start_index + count_val;
            let mut k = start_index;
            while k < end_index && !self.frames[k]
                invariant
                    self.wf(),
                    start_index <= k <= end_index,
                    end_index == start_index + count,
                    end_index <= self.max_frames,
                    self.frames@ == f0,
                    forall|j: int| start_index <= j < k ==> !f0[j],
                decreases end_index - k,
            {
                k = k + 1;
            }
            let is_chunk_free = k == end_index;
            if is_chunk_free {
                proof {
                    lemma_first_fit_unique(f0, count as int, start_index as int);
                }
                let mut m = start_index;
                while m < end_index
                    invariant
                        self.wf(),
                        start_index <= m <= end_index,
                        end_index == start_index + count,
                        end_index <= self.max_frames,
                        self.max_frames == old(self).frame_count(),
                        self.physical_memory_offset == old(self).offset(),
                        self.frames@ == mark_run(f0, start_index as int, m - start_index, true),
                    decreases end_index - m,
                {
                    self.frames.set(m, true);
                    proof {
                        assert(self.frames@ =~= mark_run(
                            f0,
                            start_index as int,
                            m + 1 - start_index,
                            true,
                        ));
                    }
                    m = m + 1;
                }
                let phys_offset = (start_index as u64) * 4096;
                return Some(phys_offset + self.physical_memory_offset);
            }
            proof {
                assert(!run_free(f0, start_index as int, count as int)) by {
                    assert(f0[k as int]);
                }
            }
            start_index = start_index + 1;
        }
        proof {
            if has_fit(f0, count as int) {
                let st = choose|st: int| 1 <= st && st + count <= f0.len() && run_free(
                    f0,
                    st,
                    count as int,
                );
                assert(!run_free(f0, st, count as int));
            }
        }
        None
    }

    fn dealloc_frame(&mut self, frame: u64) {
        let phys_offset = frame - self.physical_memory_offset;
        let index = (phys_offset / 4096) as usize;
        if index < self.max_frames {
            self.frames.set(index, false);
        }
    }
}

/// The frame allocator that runs on UEFI firmware: frames come from the
/// firmware's page allocator.
pub struct HalUefiFrameAllocator {}

impl HalUefiFrameAllocator {
    /// The firmware-backed allocator.
    pub fn new() -> (a: Self) {
        Self {  }
    }
}

/// A frame allocator handed to the parts of the system that need frames.
pub struct HalFrameAllocatorWrapper<A: HalFrameAllocatorTrait> {
    inner_allocator: A,
}

impl<A: HalFrameAllocatorTrait> HalFrameAllocatorWrapper<A> {
    /// The wrapped allocator.
    pub closed spec fn inner(&self) -> A {
        self.inner_allocator
    }

    /// Wraps `allocator`.
    pub fn new(allocator: A) -> (w: Self)
        ensures
            w.inner() == allocator,
    {
        Self { inner_allocator: allocator }
    }

    /// Allocates one frame from the wrapped allocator.
    pub fn alloc_frame(&mut self) -> (r: Option<u64>)
        requires
            old(self).inner().inv(),
            old(self).inner().alloc_frame_pre(),
        ensures
            final(self).inner().inv(),
            old(self).inner().alloc_frame_post(final(self).inner(), r),
    {
        self.inner_allocator.alloc_frame()
    }

    /// Allocates `count` consecutive frames from the wrapped allocator.
    pub fn alloc_frames(&mut self, count: usize) -> (r: Option<u64>)
        requires
            old(self).inner().inv(),
            count > 0,
            old(self).inner().alloc_frames_pre(count),
        ensures
            final(self).inner().inv(),
            old(self).inner().alloc_frames_post(count, final(self).inner(), r),
    {
        self.inner_allocator.alloc_frames(count)
    }

    /// Gives a frame back to the wrapped allocator.
    pub fn dealloc_frame(&mut self, frame: u64)
        requires
            old(self).inner().inv(),
            frame != 0,
            old(self).inner().dealloc_frame_pre(frame),
        ensures
            final(self).inner().inv(),
            old(self).inner().dealloc_frame_post(frame, final(self).inner()),
    {
        self.inner_allocator.dealloc_frame(frame)
    }
}

/// With every frame of the bitmap in use (as `init` leaves it), allocation
/// finds nothing and changes nothing.
pub proof fn law_bare_full_allocates_nothing(a: HalBareFrameAllocator)
    requires
        forall|i: int| 0 <= i < a.frames().len() ==> a.frames()[i],
    ensures
        forall|after: HalBareFrameAllocator, r: Option<u64>| #[trigger]
            a.alloc_frame_post(after, r) ==> r is None && after.frames() == a.frames(),
{
}

/// Frame `i`'s address maps back to index `i`, to the `i / 8`-th bitmap byte
/// and `i % 8`-th bit, when `base` is frame aligned.
proof fn lemma_bare_address(a: HalBareFrameAllocator, i: int)
    requires
        a.frame_size() != 0,
        a.base() % (a.frame_size() as u64) == 0,
        0 <= i,
        a.base() + i * a.frame_size() <= u64::MAX,
    ensures
        ({
            let f = (a.base() + i * a.frame_size()) as u64;
            &&& f >= a.base()
            &&& f % (a.frame_size() as u64) == 0
            &&& a.frame_index(f) == i
        }),
{
    let ps = a.frame_size() as int;
    let f = (a.base() + i * ps) as u64;
    assert(0 <= i * ps) by (nonlinear_arith)
        requires
            0 <= i,
            0 < ps,
    ;
    lemma_div_multiples_vanish(i, ps);
    assert(ps * i == i * ps) by (nonlinear_arith);
    lemma_mod_multiples_vanish(i, a.base() as int, ps);
    assert((ps * i + a.base()) % ps == (a.base() as int) % ps);
}

/// Giving back the frame that an allocation just returned restores the
/// bitmap, when that frame lies below `top` and `base` is frame aligned.
pub proof fn law_bare_alloc_then_dealloc(
    a: HalBareFrameAllocator,
    b: HalBareFrameAllocator,
    frame: u64,
    c: HalBareFrameAllocator,
)
    requires
        a.wf(),
        a.frame_size() != 0,
        a.base() % (a.frame_size() as u64) == 0,
        a.alloc_frame_pre(),
        a.alloc_frame_post(b, Some(frame)),
        frame < a.top(),
    ensures
        b.dealloc_frame_pre(frame),
        b.dealloc_frame_post(frame, c) ==> c.frames() == a.frames(),
{
    let i = first_free(a.frames(), 0);
    lemma_first_free_exists(a.frames(), 0);
    lemma_bare_address(a, i);
    if b.dealloc_frame_post(frame, c) {
        assert(c.frames() =~= a.frames());
    }
}

/// With every frame in use, giving one back and allocating again returns
/// that same frame, when `base` is frame aligned.
pub proof fn law_bare_dealloc_then_alloc(
    a: HalBareFrameAllocator,
    frame: u64,
    b: HalBareFrameAllocator,
    c: HalBareFrameAllocator,
    r: Option<u64>,
)
    requires
        a.wf(),
        forall|i: int| 0 <= i < a.frames().len() ==> a.frames()[i],
        a.base() % (a.frame_size() as u64) == 0,
        a.dealloc_frame_pre(frame),
        a.dealloc_frame_post(frame, b),
        b.alloc_frame_post(c, r),
    ensures
        r == Some(frame),
        c.frames() == a.frames(),
{
    let ps = a.frame_size() as int;
    let i = a.frame_index(frame);
    assert(is_first_free(b.frames(), 0, i));
    lemma_first_free_unique(b.frames(), 0, i);
    lemma_mod_multiples_vanish(i, a.base() as int, ps);
    assert(frame - a.base() == i * ps + (frame - a.base()) % ps) by (nonlinear_arith)
        requires
            0 < ps,
            i == (frame - a.base()) / ps,
    ;
    assert((frame - a.base()) % ps == 0) by (nonlinear_arith)
        requires
            0 < ps,
            (frame as int) % ps == 0,
            (a.base() as int) % ps == 0,
            frame >= a.base(),
    {
        vstd::arithmetic::div_mod::lemma_sub_mod_noop(frame as int, a.base() as int, ps);
    }
    assert(c.frames() =~= a.frames());
}

/// Two allocations in a row never return the same frame.
pub proof fn law_bare_allocations_distinct(
    a: HalBareFrameAllocator,
    b: HalBareFrameAllocator,
    f1: u64,
    c: HalBareFrameAllocator,
    f2: u64,
)
    requires
        a.frame_size() != 0,
        a.alloc_frame_pre(),
        a.alloc_frame_post(b, Some(f1)),
        b.alloc_frame_pre(),
        b.alloc_frame_post(c, Some(f2)),
    ensures
        f1 != f2,
{
    let i = first_free(a.frames(), 0);
    lemma_first_free_exists(a.frames(), 0);
    let j = first_free(b.frames(), 0);
    lemma_first_free_exists(b.frames(), 0);
    assert(j != i);
    let ps = a.frame_size() as int;
    if i < j {
        assert(i * ps < j * ps) by (nonlinear_arith)
            requires
                i < j,
                0 < ps,
        ;
    } else {
        assert(j * ps < i * ps) by (nonlinear_arith)
            requires
                j < i,
                0 < ps,
        ;
    }
}

/// The region's first frame is never handed out: every address returned
/// lies at least one frame above `physical_memory_offset`.
pub proof fn law_memfd_never_returns_first_frame(
    a: HalMemfdFrameAllocator,
    b: HalMemfdFrameAllocator,
    frame: u64,
    count: usize,
    c: HalMemfdFrameAllocator,
    frames: u64,
)
    requires
        a.alloc_frame_pre(),
        a.alloc_frames_pre(count),
    ensures
        a.alloc_frame_post(b, Some(frame)) ==> frame >= a.offset() + FRAME_SIZE,
        a.alloc_frames_post(count, c, Some(frames)) ==> frames >= a.offset() + FRAME_SIZE,
{
    if a.alloc_frame_post(b, Some(frame)) {
        lemma_first_free_exists(a.frame_table(), 1);
    }
    if a.alloc_frames_post(count, c, Some(frames)) {
        let w = choose|start: int| 1 <= start && start + count <= a.frame_table().len()
            && run_free(a.frame_table(), start, count as int);
        let st = first_fit(a.frame_table(), count as int);
        assert(is_first_fit(a.frame_table(), count as int, st)) by {
            lemma_first_fit_exists(a.frame_table(), count as int, w);
        }
    }
}

proof fn lemma_first_fit_exists(s: Seq<bool>, count: int, w: int)
    requires
        1 <= w,
        w + count <= s.len(),
        run_free(s, w, count),
    ensures
        is_first_fit(s, count, first_fit(s, count)),
    decreases w,
{
    if forall|st: int| 1 <= st < w ==> !run_free(s, st, count) {
        lemma_first_fit_unique(s, count, w);
    } else {
        let st = choose|st: int| 1 <= st < w && run_free(s, st, count);
        lemma_first_fit_exists(s, count, st);
    }
}

/// Giving back the frame that an allocation just returned restores the
/// frame table.
pub proof fn law_memfd_alloc_then_dealloc(
    a: HalMemfdFrameAllocator,
    b: HalMemfdFrameAllocator,
    frame: u64,
    c: HalMemfdFrameAllocator,
)
    requires
        a.wf(),
        a.alloc_frame_pre(),
        a.alloc_frame_post(b, Some(frame)),
    ensures
        b.dealloc_frame_pre(frame),
        b.dealloc_frame_post(frame, c) ==> c.frame_table() == a.frame_table(),
{
    lemma_first_free_exists(a.frame_table(), 1);
    if b.dealloc_frame_post(frame, c) {
        assert(c.frame_table() =~= a.frame_table());
    }
}

/// A multi-frame allocation hands out `count` frames that were all free and
/// are all in use afterwards, and changes no other frame.
pub proof fn law_memfd_alloc_frames_run(
    a: HalMemfdFrameAllocator,
    count: usize,
    b: HalMemfdFrameAllocator,
    frame: u64,
)
    requires
        a.wf(),
        count > 0,
        a.alloc_frames_pre(count),
        a.alloc_frames_post(count, b, Some(frame)),
    ensures
        ({
            let st = b.frame_index(frame);
            &&& frame == a.frame_address(st)
            &&& 1 <= st
            &&& st + count <= a.frame_count()
            &&& forall|j: int| st <= j < st + count ==> !a.frame_table()[j] && b.frame_table()[j]
            &&& forall|j: int|
                0 <= j < a.frame_count() && !(st <= j < st + count) ==> b.frame_table()[j]
                    == a.frame_table()[j]
        }),
{
    let w = choose|start: int| 1 <= start && start + count <= a.frame_table().len()
        && run_free(a.frame_table(), start, count as int);
    lemma_first_fit_exists(a.frame_table(), count as int, w);
}

/// Two allocations in a row never return the same frame.
pub proof fn law_memfd_allocations_distinct(
    a: HalMemfdFrameAllocator,
    b: HalMemfdFrameAllocator,
    f1: u64,
    c: HalMemfdFrameAllocator,
    f2: u64,
)
    requires
        a.alloc_frame_pre(),
        a.alloc_frame_post(b, Some(f1)),
        b.alloc_frame_pre(),
        b.alloc_frame_post(c, Some(f2)),
    ensures
        f1 != f2,
{
    lemma_first_free_exists(a.frame_table(), 1);
    lemma_first_free_exists(b.frame_table(), 1);
}

/// Frames 1 up to `k - 1` of the table `t` are in use and those from `k` on
/// are free; frame 0 may be either.
pub open spec fn used_below(t: Seq<bool>, k: int) -> bool {
    &&& forall|j: int| 1 <= j < k && j < t.len() ==> t[j]
    &&& forall|j: int| k <= j < t.len() ==> !t[j]
}

/// Allocation walks the region in order. A fresh allocator from `new` has
/// every frame free, `used_below` with `k = 1`; when frames 1 up to `k - 1` are in use
/// and the rest free, the next allocation returns the address of frame `k`,
/// `offset + 4096 * k`, and leaves frames 1 up to `k` in use; once `k` is
/// past the last frame it returns `None` and changes nothing. So from `new`,
/// successive allocations return frames 1, 2, … up to the last one, then
/// `None`.
pub proof fn law_memfd_allocation_order(
    a: HalMemfdFrameAllocator,
    k: int,
    b: HalMemfdFrameAllocator,
    r: Option<u64>,
)
    requires
        a.wf(),
        1 <= k,
        used_below(a.frame_table(), k),
        a.alloc_frame_post(b, r),
    ensures
        k < a.frame_count() ==> r == Some(a.frame_address(k) as u64) && used_below(
            b.frame_table(),
            k + 1,
        ) && b.frame_count() == a.frame_count() && b.offset() == a.offset(),
        k >= a.frame_count() ==> r is None && b.frame_table() == a.frame_table(),
{
    let t = a.frame_table();
    if k < a.frame_count() {
        lemma_first_free_unique(t, 1, k);
        assert(used_below(b.frame_table(), k + 1));
    } else {
        if has_free(t, 1) {
            let w = choose|i: int| 1 <= i < t.len() && !t[i];
            assert(t[w]);
        }
    }
}

/// What a fresh allocator goes through over the allocations numbered 0 up to
/// `n - 1`: each returns the frame after the last, while one is left.
proof fn lemma_memfd_sequence(
    states: Seq<HalMemfdFrameAllocator>,
    results: Seq<Option<u64>>,
    n: int,
)
    requires
        states.len() == results.len() + 1,
        states[0].wf(),
        states[0].frame_table() == Seq::new(states[0].frame_count() as nat, |i: int| false),
        forall|i: int|
            0 <= i < results.len() ==> #[trigger] states[i].alloc_frame_post(
                states[i + 1],
                results[i],
            ),
        0 <= n < states.len(),
    ensures
        states[n].wf(),
        states[n].offset() == states[0].offset(),
        states[n].frame_count() == states[0].frame_count(),
        used_below(states[n].frame_table(), n + 1),
        forall|i: int|
            0 <= i < n ==> #[trigger] results[i] == if i + 1 < states[0].frame_count() {
                Some(states[0].frame_address(i + 1) as u64)
            } else {
                None
            },
    decreases n,
{
    if n > 0 {
        lemma_memfd_sequence(states, results, n - 1);
        assert(states[n - 1].alloc_frame_post(states[n], results[n - 1]));
        law_memfd_allocation_order(states[n - 1], n, states[n], results[n - 1]);
        let t = states[n - 1].frame_table();
        if has_free(t, 1) {
            lemma_first_free_exists(t, 1);
        }
    }
}

/// From `new`, successive allocations hand out the frames in order: with
/// `states[0]` a fresh allocator of `M` frames and each `states[i + 1]` what
/// allocation `i` leaves of `states[i]`, allocation `i` returns
/// `offset + 4096 * (i + 1)` while `i + 1 < M`, and `None` from then on.
pub proof fn law_memfd_allocation_sequence(
    states: Seq<HalMemfdFrameAllocator>,
    results: Seq<Option<u64>>,
)
    requires
        states.len() == results.len() + 1,
        states[0].wf(),
        states[0].frame_table() == Seq::new(states[0].frame_count() as nat, |i: int| false),
        forall|i: int|
            0 <= i < results.len() ==> #[trigger] states[i].alloc_frame_post(
                states[i + 1],
                results[i],
            ),
    ensures
        forall|i: int|
            0 <= i < results.len() ==> #[trigger] results[i] == if i + 1 < states[0].frame_count() {
                Some(states[0].frame_address(i + 1) as u64)
            } else {
                None
            },
{
    lemma_memfd_sequence(states, results, results.len() as int);
}

/// When the hosted allocator's whole region ends within 64 bits, every
/// allocation it can make is admitted.
pub proof fn lemma_memfd_region_fits(a: HalMemfdFrameAllocator, count: usize)
    requires
        a.wf(),
        a.offset() + FRAME_SIZE * a.frame_count() <= u64::MAX,
    ensures
        a.alloc_frame_pre(),
        a.alloc_frames_pre(count),
{
    let t = a.frame_table();
    if has_fit(t, count as int) {
        let w = choose|start: int| 1 <= start && start + count <= t.len() && run_free(
            t,
            start,
            count as int,
        );
        lemma_first_fit_exists(t, count as int, w);
        let st = first_fit(t, count as int);
        assert(a.frame_address(st) <= a.offset() + FRAME_SIZE * a.frame_count()) by (nonlinear_arith)
            requires
                st <= a.frame_count(),
                a.frame_address(st) == a.offset() + st * (FRAME_SIZE as int),
        ;
    }
    if has_free(t, 1) {
        lemma_first_free_exists(t, 1);
        let i = first_free(t, 1);
        assert(a.frame_address(i) <= a.offset() + FRAME_SIZE * a.frame_count()) by (nonlinear_arith)
            requires
                i <= a.frame_count(),
                a.frame_address(i) == a.offset() + i * (FRAME_SIZE as int),
        ;
    }
}

} // verus!

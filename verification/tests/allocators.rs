use stablemod::bitmap::BitmapUtils;
use stablemod::memory::{
    HalBareFrameAllocator, HalFrameAllocatorTrait, HalFrameAllocatorWrapper,
    HalMemfdFrameAllocator, HalUefiFrameAllocator,
};

#[test]
fn bitmap_mask_is_bit_of_offset_mod_8() {
    assert_eq!(BitmapUtils::calculate_mask(0), 1);
    assert_eq!(BitmapUtils::calculate_mask(3), 8);
    assert_eq!(BitmapUtils::calculate_mask(7), 128);
    assert_eq!(BitmapUtils::calculate_mask(9), 2);
}

#[test]
fn bitmap_set_and_unset_bits() {
    assert!(BitmapUtils::is_bit_set(0b0100, 0b0100));
    assert!(!BitmapUtils::is_bit_set(0b0100, 0b0010));
    assert_eq!(BitmapUtils::set_bit(0b0001, 0b1000), 0b1001);
    assert_eq!(BitmapUtils::unset_bit(0b1011, 0b0010), 0b1001);
    assert_eq!(BitmapUtils::unset_bit(0b1001, 0b0010), 0b1001);
}

#[test]
fn bitmap_unset_undoes_set() {
    for byte in [0u8, 0b1010_0101, 0xfe, 0x7f] {
        for offset in [0usize, 3, 7, 12] {
            let mask = BitmapUtils::calculate_mask(offset);
            let set = BitmapUtils::set_bit(byte, mask);
            assert!(BitmapUtils::is_bit_set(set, mask));
            assert!(!BitmapUtils::is_bit_set(BitmapUtils::unset_bit(byte, mask), mask));
            if !BitmapUtils::is_bit_set(byte, mask) {
                assert_eq!(BitmapUtils::unset_bit(set, mask), byte);
            }
        }
    }
}

#[test]
fn bare_allocator_before_init_has_no_frames() {
    let mut a = HalBareFrameAllocator::new();
    assert_eq!(a.alloc_frame(), None);
}

#[test]
fn bare_allocator_starts_full() {
    let mut a = HalBareFrameAllocator::new();
    a.init(4, 0x10_0000, 0x10_0000 + 32 * 0x1000);
    assert_eq!(a.alloc_frame(), None);
}

#[test]
fn bare_allocator_reuses_freed_frame() {
    let mut a = HalBareFrameAllocator::new();
    a.init(4, 0x10_0000, 0x10_0000 + 32 * 0x1000);
    a.dealloc_frame(0x10_0000 + 13 * 0x1000);
    assert_eq!(a.alloc_frame(), Some(0x10_0000 + 13 * 0x1000));
    assert_eq!(a.alloc_frame(), None);
}

#[test]
fn bare_allocator_hands_out_lowest_free_frame() {
    let mut a = HalBareFrameAllocator::new();
    a.init(2, 0x20_0000, 0x20_0000 + 16 * 0x1000);
    a.dealloc_frame(0x20_0000 + 9 * 0x1000);
    a.dealloc_frame(0x20_0000 + 2 * 0x1000);
    a.dealloc_frame(0x20_0000 + 15 * 0x1000);
    assert_eq!(a.alloc_frame(), Some(0x20_0000 + 2 * 0x1000));
    assert_eq!(a.alloc_frame(), Some(0x20_0000 + 9 * 0x1000));
    assert_eq!(a.alloc_frame(), Some(0x20_0000 + 15 * 0x1000));
    assert_eq!(a.alloc_frame(), None);
}

#[test]
fn bare_allocator_page_offsets() {
    let mut a = HalBareFrameAllocator::new();
    a.init(2, 0x1000, 0x1000 + 16 * 0x1000);
    assert_eq!(a.calculate_page_offset(0x1000), Some((0, 0)));
    assert_eq!(a.calculate_page_offset(0x1000 + 10 * 0x1000), Some((1, 2)));
    assert_eq!(a.calculate_page_offset(0x0), None);
    assert_eq!(a.calculate_page_offset(0x1000 + 16 * 0x1000), None);
    assert_eq!(a.calculate_page_offset(0x1800), None);
}

#[test]
fn memfd_allocator_skips_frame_zero() {
    let mut a = HalMemfdFrameAllocator::new(0x4000_0000, 8 * 4096);
    assert_eq!(a.alloc_frame(), Some(0x4000_0000 + 4096));
    assert_eq!(a.alloc_frame(), Some(0x4000_0000 + 2 * 4096));
}

#[test]
fn memfd_allocator_runs_out() {
    let mut a = HalMemfdFrameAllocator::new(0x1000_0000, 3 * 4096);
    assert_eq!(a.alloc_frame(), Some(0x1000_0000 + 4096));
    assert_eq!(a.alloc_frame(), Some(0x1000_0000 + 2 * 4096));
    assert_eq!(a.alloc_frame(), None);
}

#[test]
fn memfd_allocator_dealloc_then_alloc() {
    let mut a = HalMemfdFrameAllocator::new(0x1000_0000, 4 * 4096);
    let f = a.alloc_frame().unwrap();
    let g = a.alloc_frame().unwrap();
    assert_ne!(f, g);
    a.dealloc_frame(f);
    assert_eq!(a.alloc_frame(), Some(f));
}

#[test]
fn memfd_allocator_dealloc_outside_region_is_ignored() {
    let mut a = HalMemfdFrameAllocator::new(0x1000_0000, 2 * 4096);
    assert_eq!(a.alloc_frame(), Some(0x1000_0000 + 4096));
    a.dealloc_frame(0x1000_0000 + 100 * 4096);
    assert_eq!(a.alloc_frame(), None);
}

#[test]
fn memfd_allocator_first_fit_runs() {
    let mut a = HalMemfdFrameAllocator::new(0x1000_0000, 10 * 4096);
    assert_eq!(a.alloc_frames(3), Some(0x1000_0000 + 4096));
    assert_eq!(a.alloc_frame(), Some(0x1000_0000 + 4 * 4096));
    a.dealloc_frame(0x1000_0000 + 2 * 4096);
    assert_eq!(a.alloc_frames(2), Some(0x1000_0000 + 5 * 4096));
    assert_eq!(a.alloc_frames(1), Some(0x1000_0000 + 2 * 4096));
    assert_eq!(a.alloc_frames(3), Some(0x1000_0000 + 7 * 4096));
    assert_eq!(a.alloc_frames(1), None);
}

#[test]
fn memfd_allocator_rejects_oversized_runs() {
    let mut a = HalMemfdFrameAllocator::new(0x1000_0000, 4 * 4096);
    assert_eq!(a.alloc_frames(5), None);
    assert_eq!(a.alloc_frames(4), None);
    assert_eq!(a.alloc_frames(3), Some(0x1000_0000 + 4096));
}

#[test]
fn wrapper_forwards_to_allocator() {
    let mut w = HalFrameAllocatorWrapper::new(HalMemfdFrameAllocator::new(0x8000_0000, 6 * 4096));
    assert_eq!(w.alloc_frames(2), Some(0x8000_0000 + 4096));
    assert_eq!(w.alloc_frame(), Some(0x8000_0000 + 3 * 4096));
    w.dealloc_frame(0x8000_0000 + 4096);
    assert_eq!(w.alloc_frame(), Some(0x8000_0000 + 4096));
}

#[test]
fn uefi_allocator_constructs() {
    let _a = HalUefiFrameAllocator::new();
}

#[test]
fn bare_allocator_page_offset_before_init() {
    let a = HalBareFrameAllocator::new();
    assert_eq!(a.calculate_page_offset(0), None);
    assert_eq!(a.calculate_page_offset(0x1000), None);
    assert_eq!(a.calculate_page_offset(u64::MAX), None);
}

#[test]
fn memfd_allocation_walks_frames_in_order() {
    let o = 0x4000_0000u64;
    let mut a = HalMemfdFrameAllocator::new(o, 5 * 4096);
    for k in 1..5u64 {
        assert_eq!(a.alloc_frame(), Some(o + 4096 * k));
    }
    assert_eq!(a.alloc_frame(), None);
    let mut one = HalMemfdFrameAllocator::new(o, 4096);
    assert_eq!(one.alloc_frame(), None);
}

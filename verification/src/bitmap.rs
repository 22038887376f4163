//! Single-byte bitmap helpers used by the bitmap frame allocator.
use vstd::prelude::*;

verus! {

/// The `k`-th bit of `byte` is set.
pub open spec fn bit_of(byte: u8, k: int) -> bool {
    0 <= k < 8 && (byte & ((1u8 << (k as u8)) as u8)) != 0
}

/// Helpers for reading and updating single bits of a bitmap byte.
pub struct BitmapUtils;

impl BitmapUtils {
    /// The mask selecting bit `offset % 8` of a byte.
    pub fn calculate_mask(offset: usize) -> (mask: u8)
        ensures
            mask == (1u8 << ((offset % 8) as u8)),
    {
        1u8 << ((offset % 8) as u8)
    }

    /// Whether any bit of `mask` is set in `byte`.
    pub fn is_bit_set(byte: u8, mask: u8) -> (set: bool)
        ensures
            set == ((byte & mask) != 0),
    {
        if (byte & mask) != 0 {
            true
        } else {
            false
        }
    }

    /// `byte` with the bits of `mask` set.
    pub fn set_bit(byte: u8, mask: u8) -> (r: u8)
        ensures
            r == byte | mask,
    {
        let mut byte = byte;
        byte |= mask;
        byte
    }

    /// `byte` with the bits of `mask` cleared.
    pub fn unset_bit(byte: u8, mask: u8) -> (r: u8)
        ensures
            r == byte & !mask,
    {
        let mut byte = byte;
        byte &= !mask;
        byte
    }
}

/// Setting bit `k` of a byte sets that bit and leaves the other seven alone.
pub proof fn lemma_set_bit(byte: u8, k: u8, j: u8)
    requires
        k < 8,
        j < 8,
    ensures
        bit_of(byte | (1u8 << k), j as int) == (j == k || bit_of(byte, j as int)),
{
    assert(((byte | (1u8 << k)) & (1u8 << j) != 0) == (j == k || (byte & (1u8 << j)) != 0))
        by (bit_vector)
        requires
            k < 8,
            j < 8,
    ;
}

/// Clearing bit `k` of a byte clears that bit and leaves the other seven alone.
pub proof fn lemma_unset_bit(byte: u8, k: u8, j: u8)
    requires
        k < 8,
        j < 8,
    ensures
        bit_of(byte & !(1u8 << k), j as int) == (j != k && bit_of(byte, j as int)),
{
    assert(((byte & !(1u8 << k)) & (1u8 << j) != 0) == (j != k && (byte & (1u8 << j)) != 0))
        by (bit_vector)
        requires
            k < 8,
            j < 8,
    ;
}

/// After `set_bit` with the mask of `offset`, `is_bit_set` reports the bit
/// set; after `unset_bit`, clear; and clearing a bit that was clear before it
/// was set gives back the byte unchanged.
pub proof fn law_set_then_unset(byte: u8, offset: usize)
    ensures
        ((byte | (1u8 << ((offset % 8) as u8))) & (1u8 << ((offset % 8) as u8))) != 0,
        ((byte & !(1u8 << ((offset % 8) as u8))) & (1u8 << ((offset % 8) as u8))) == 0,
        (byte & (1u8 << ((offset % 8) as u8))) == 0 ==> ((byte | (1u8 << ((offset % 8) as u8)))
            & !(1u8 << ((offset % 8) as u8))) == byte,
{
    let k = (offset % 8) as u8;
    assert(((byte | (1u8 << k)) & (1u8 << k)) != 0 && ((byte & !(1u8 << k)) & (1u8 << k)) == 0 && (
    (byte & (1u8 << k)) == 0 ==> ((byte | (1u8 << k)) & !(1u8 << k)) == byte)) by (bit_vector)
        requires
            k < 8,
    ;
}

/// A byte is `0xff` exactly when all eight of its bits are set.
pub proof fn lemma_full_byte(byte: u8)
    ensures
        (byte == 0xff) == (forall|j: int| 0 <= j < 8 ==> #[trigger] bit_of(byte, j)),
{
    assert(bit_of(byte, 0) == ((byte & 1u8) != 0)) by (bit_vector);
    assert((byte == 0xff) == ((byte & 1u8) != 0 && (byte & 2u8) != 0 && (byte & 4u8) != 0
        && (byte & 8u8) != 0 && (byte & 16u8) != 0 && (byte & 32u8) != 0 && (byte & 64u8) != 0
        && (byte & 128u8) != 0)) by (bit_vector);
    assert((1u8 << 0u8) == 1u8) by (bit_vector);
    assert((1u8 << 1u8) == 2u8) by (bit_vector);
    assert((1u8 << 2u8) == 4u8) by (bit_vector);
    assert((1u8 << 3u8) == 8u8) by (bit_vector);
    assert((1u8 << 4u8) == 16u8) by (bit_vector);
    assert((1u8 << 5u8) == 32u8) by (bit_vector);
    assert((1u8 << 6u8) == 64u8) by (bit_vector);
    assert((1u8 << 7u8) == 128u8) by (bit_vector);
    if byte != 0xff {
        assert(!bit_of(byte, 0) || !bit_of(byte, 1) || !bit_of(byte, 2) || !bit_of(byte, 3)
            || !bit_of(byte, 4) || !bit_of(byte, 5) || !bit_of(byte, 6) || !bit_of(byte, 7));
    }
}

} // verus!

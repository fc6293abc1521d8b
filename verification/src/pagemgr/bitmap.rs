//! Occupancy bitmaps: one bit per slot, eight slots to a byte.

use vstd::prelude::*;

verus! {

/// Whether bit `i` of a byte is set.
pub open spec fn byte_bit(byte: u8, i: int) -> bool {
    byte & (1u8 << (i as u8)) != 0
}

/// Whether bit `i` of a bitmap is set.
pub open spec fn bit(bitmap: Seq<u8>, i: int) -> bool {
    byte_bit(bitmap[i / 8], i % 8)
}

/// Setting a bit of a byte sets this bit and no other; clearing it clears this
/// bit and no other.
proof fn lemma_byte_bits(byte: u8, i: u8, j: u8)
    requires
        i < 8,
        j < 8,
    ensures
        byte_bit(byte | (1u8 << i), j as int) == (i == j || byte_bit(byte, j as int)),
        byte_bit(byte & !(1u8 << i), j as int) == (i != j && byte_bit(byte, j as int)),
{
    assert(((byte | (1u8 << i)) & (1u8 << j) != 0) == (i == j || byte & (1u8 << j) != 0))
        by (bit_vector)
        requires
            i < 8,
            j < 8,
    ;
    assert(((byte & !(1u8 << i)) & (1u8 << j) != 0) == (i != j && byte & (1u8 << j) != 0))
        by (bit_vector)
        requires
            i < 8,
            j < 8,
    ;
}

/// A byte that is zero has no bit set.
pub proof fn lemma_zero_byte(i: int)
    requires
        0 <= i < 8,
    ensures
        !byte_bit(0, i),
{
    let j = i as u8;
    assert(0u8 & (1u8 << j) == 0) by (bit_vector);
}

/// The bitmap after one bit has been set or cleared.
pub open spec fn with_bit(bitmap: Seq<u8>, i: int, set: bool) -> Seq<u8> {
    let byte = bitmap[i / 8];
    let mask = 1u8 << ((i % 8) as u8);
    bitmap.update(
        i / 8,
        if set {
            byte | mask
        } else {
            byte & !mask
        },
    )
}

/// Changing one bit changes this bit and no other.
pub proof fn with_bit_changes_one_bit(bitmap: Seq<u8>, i: int, set: bool, j: int)
    requires
        0 <= i < 8 * bitmap.len(),
        0 <= j < 8 * bitmap.len(),
    ensures
        bit(with_bit(bitmap, i, set), j) == if i == j {
            set
        } else {
            bit(bitmap, j)
        },
{
    if i / 8 == j / 8 {
        lemma_byte_bits(bitmap[i / 8], (i % 8) as u8, (j % 8) as u8);
    }
}

/// The bits of a byte are counted from the one with the lowest value on, and
/// eight bits belong to each byte of a bitmap, in the order of the bytes.
pub proof fn bits_are_counted_from_the_lowest(bitmap: Seq<u8>, k: int, j: int)
    requires
        0 <= k < bitmap.len(),
        0 <= j < 8,
    ensures
        bit(bitmap, 8 * k + j) <==> (bitmap[k] >> (j as u8)) % 2 == 1,
{
    let byte = bitmap[k];
    let i = j as u8;
    assert((byte & (1u8 << i) != 0) <==> (byte >> i) % 2 == 1) by (bit_vector)
        requires
            i < 8,
    ;
    assert((8 * k + j) / 8 == k);
    assert((8 * k + j) % 8 == j);
}

/// Whether a bit is set.
pub fn bit_is_set(bitmap: &[u8], bit: usize) -> (r: bool)
    requires
        bit < 8 * bitmap@.len(),
    ensures
        r == self::bit(bitmap@, bit as int),
{
    let byte: usize = bit / 8;
    let mask: u8 = 1u8 << ((bit % 8) as u8);
    bitmap[byte] & mask != 0
}

/// Sets a bit.
pub fn set_bit(bitmap: &mut [u8], bit: usize)
    requires
        bit < 8 * old(bitmap)@.len(),
    ensures
        final(bitmap)@ == with_bit(old(bitmap)@, bit as int, true),
{
    let byte: usize = bit / 8;
    let mask: u8 = 1u8 << ((bit % 8) as u8);
    bitmap[byte] = bitmap[byte] | mask;
}

/// Clears a bit.
pub fn clear_bit(bitmap: &mut [u8], bit: usize)
    requires
        bit < 8 * old(bitmap)@.len(),
    ensures
        final(bitmap)@ == with_bit(old(bitmap)@, bit as int, false),
{
    let byte: usize = bit / 8;
    let mask: u8 = 1u8 << ((bit % 8) as u8);
    bitmap[byte] = bitmap[byte] & !mask;
}

} // verus!

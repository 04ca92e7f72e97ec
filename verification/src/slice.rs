//! The packed range: a byte offset and a byte length in one 64-bit value,
//! the offset in the high 32 bits and the length in the low 32 bits.

use vstd::prelude::*;

verus! {

/// Whether `n` can be stored in one 32-bit field of a packed range.
pub open spec fn fits_field(n: int) -> bool {
    0 <= n < 0x1_0000_0000
}

/// The packed range of an offset and a length that both fit their fields.
pub open spec fn packed_range(offset: int, length: int) -> int {
    offset * 0x1_0000_0000 + length
}

/// The offset stored in a packed range.
pub open spec fn range_offset(key: u64) -> int {
    key as int / 0x1_0000_0000
}

/// The length stored in a packed range.
pub open spec fn range_length(key: u64) -> int {
    key as int % 0x1_0000_0000
}

/// Packs an offset and a length into one 64-bit value. Both must fit
/// their 32-bit fields: a larger one would run into the other field, so it
/// is not taken. `pack_ranges` tests both before it packs.
pub fn pack_in_u64(offset: usize, length: usize) -> (key: u64)
    requires
        fits_field(offset as int),
        fits_field(length as int),
    ensures
        key as int == packed_range(offset as int, length as int),
{
    let high: u64 = offset as u64;
    let low: u64 = length as u64;
    assert((low | (high << 32)) == high * 0x1_0000_0000 + low) by (bit_vector)
        requires
            high < 0x1_0000_0000,
            low < 0x1_0000_0000,
    ;
    low | (high << 32)
}

/// Splits a packed range into its offset and its length.
pub fn unpack_from_u64(input: u64) -> (range: (usize, usize))
    ensures
        range.0 as int == range_offset(input),
        range.1 as int == range_length(input),
{
    let high: u64 = (input & 0xFFFF_FFFF_0000_0000) >> 32;
    let low: u64 = input & 0x0000_0000_FFFF_FFFF;
    assert(high == input / 0x1_0000_0000 && high <= 0xFFFF_FFFF) by (bit_vector)
        requires
            high == (input & 0xFFFF_FFFF_0000_0000) >> 32,
    ;
    assert(low == input % 0x1_0000_0000 && low <= 0xFFFF_FFFF) by (bit_vector)
        requires
            low == input & 0x0000_0000_FFFF_FFFF,
    ;
    (high as usize, low as usize)
}

/// Unpacking what was packed gives back the offset and the length, for
/// every offset and length of at most 32 bits.
pub proof fn lemma_roundtrip(offset: usize, length: usize)
    requires
        fits_field(offset as int),
        fits_field(length as int),
    ensures
        range_offset(packed_range(offset as int, length as int) as u64) == offset,
        range_length(packed_range(offset as int, length as int) as u64) == length,
{
    lemma_unpack_pack(offset as int, length as int);
}

/// The packed range of an offset and a length of at most 32 bits fits 64
/// bits, and its two fields are the offset and the length.
pub proof fn lemma_unpack_pack(offset: int, length: int)
    requires
        fits_field(offset),
        fits_field(length),
    ensures
        0 <= packed_range(offset, length) <= u64::MAX,
        range_offset(packed_range(offset, length) as u64) == offset,
        range_length(packed_range(offset, length) as u64) == length,
{
}

/// Packing what a 64-bit value unpacks to gives the value back.
pub proof fn lemma_pack_unpack(key: u64)
    ensures
        fits_field(range_offset(key)),
        fits_field(range_length(key)),
        packed_range(range_offset(key), range_length(key)) == key,
{
}

} // verus!

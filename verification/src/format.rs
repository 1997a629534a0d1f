//! The binary layout of an index: sizes, field offsets and little-endian
//! integers.
//!
//! An index is one contiguous region of octets. It may begin with a 16-octet
//! header (the magic tag, the number of nodes, the number of values and four
//! reserved octets), followed by the node records and the table of 16-bit
//! values. Every node record is 72 octets: the child bitmap, the leaf bitmap,
//! and two little-endian unsigned 32-bit integers, the region offset of child
//! slot 0 and the value index of leaf slot 0.

use vstd::prelude::*;

verus! {

/// Size in octets of one node record.
pub const NODE_SIZE: usize = 72;

/// Size in octets of the header.
pub const HEADER_SIZE: usize = 16;

/// Size in octets of one value.
pub const VALUE_SIZE: usize = 2;

/// Offset of the child bitmap within a node record.
pub const CHILD_BITMAP_OFFSET: usize = 0;

/// Offset of the leaf bitmap within a node record.
pub const LEAF_BITMAP_OFFSET: usize = 32;

/// Offset within a node record of the region offset of child slot 0.
pub const BASE_OFFSET_OFFSET: usize = 64;

/// Offset within a node record of the value index of leaf slot 0.
pub const BASE_INDEX_OFFSET: usize = 68;

/// The four octets `PTV2` that open a region with a header.
pub open spec fn magic() -> Seq<u8> {
    seq![0x50u8, 0x54u8, 0x56u8, 0x32u8]
}

/// The unsigned 16-bit integer that the two octets at `at` spell in
/// little-endian order.
pub open spec fn le_u16(bytes: Seq<u8>, at: int) -> int {
    bytes[at] + 256 * bytes[at + 1]
}

/// The unsigned 32-bit integer that the four octets at `at` spell in
/// little-endian order.
pub open spec fn le_u32(bytes: Seq<u8>, at: int) -> int {
    bytes[at] + 256 * bytes[at + 1] + 65536 * bytes[at + 2] + 16777216 * bytes[at + 3]
}

proof fn lemma_le_u16(b0: u8, b1: u8)
    by (bit_vector)
    ensures
        (b0 as u16) | (b1 as u16) << 8 == b0 + 256 * b1,
{
}

proof fn lemma_le_u32(b0: u8, b1: u8, b2: u8, b3: u8)
    by (bit_vector)
    ensures
        (b0 as u32) | (b1 as u32) << 8 | (b2 as u32) << 16 | (b3 as u32) << 24 == b0 + 256 * b1
            + 65536 * b2 + 16777216 * b3,
{
}

/// Reads the little-endian unsigned 16-bit integer at `at`.
pub fn read_u16(bytes: &[u8], at: usize) -> (r: u16)
    requires
        at + 2 <= bytes@.len(),
    ensures
        r == le_u16(bytes@, at as int),
{
    proof {
        lemma_le_u16(bytes[at as int], bytes[at + 1]);
    }
    (bytes[at] as u16) | (bytes[at + 1] as u16) << 8
}

/// Reads the little-endian unsigned 32-bit integer at `at`.
pub fn read_u32(bytes: &[u8], at: usize) -> (r: u32)
    requires
        at + 4 <= bytes@.len(),
    ensures
        r == le_u32(bytes@, at as int),
{
    proof {
        lemma_le_u32(bytes[at as int], bytes[at + 1], bytes[at + 2], bytes[at + 3]);
    }
    (bytes[at] as u32) | (bytes[at + 1] as u32) << 8 | (bytes[at + 2] as u32) << 16 | (bytes[at
        + 3] as u32) << 24
}

/// Whether the region opens with the magic tag.
pub open spec fn has_magic(data: Seq<u8>) -> bool {
    data.len() >= HEADER_SIZE && data.subrange(0, 4) == magic()
}

/// Tests whether the region is long enough for a header and opens with the
/// magic tag.
pub fn starts_with_magic(data: &[u8]) -> (r: bool)
    ensures
        r == has_magic(data@),
{
    if data.len() < HEADER_SIZE {
        return false;
    }
    let r = data[0] == 0x50 && data[1] == 0x54 && data[2] == 0x56 && data[3] == 0x32;
    proof {
        let head = data@.subrange(0, 4);
        if r {
            assert(head =~= magic());
        } else {
            assert(head[0] == data@[0] && head[1] == data@[1] && head[2] == data@[2] && head[3]
                == data@[3]);
        }
    }
    r
}

} // verus!

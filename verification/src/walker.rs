//! The trie walk: one node per octet of the address, deciding at each node
//! between a match, a descent and a miss.

use crate::bitmap::{bit_at, lemma_rank_bound, popcount, rank, test_bit, BITMAP_SIZE};
use crate::format::{
    le_u16,
    le_u32,
    read_u16,
    read_u32,
    BASE_INDEX_OFFSET,
    BASE_OFFSET_OFFSET,
    CHILD_BITMAP_OFFSET,
    LEAF_BITMAP_OFFSET,
    NODE_SIZE,
    VALUE_SIZE,
};
use vstd::prelude::*;
use vstd::slice::slice_subrange;

verus! {

/// How a walk ends.
#[derive(Clone, Copy, Debug, PartialEq, Eq, Structural)]
pub enum Walk {
    /// A prefix ends at the node at `cursor` for the octet `octet`.
    Leaf { cursor: usize, octet: u8 },
    /// No stored prefix contains the address.
    Miss,
    /// A node offset computed on the way falls outside the region.
    CorruptIndex,
}

/// Whether a whole node record at `cursor` lies within the region.
pub open spec fn node_in_bounds(data: Seq<u8>, cursor: int) -> bool {
    0 <= cursor && cursor + NODE_SIZE <= data.len()
}

/// The child bitmap of the node at `cursor`.
pub open spec fn child_bitmap(data: Seq<u8>, cursor: int) -> Seq<u8> {
    data.subrange(cursor + CHILD_BITMAP_OFFSET, cursor + CHILD_BITMAP_OFFSET + BITMAP_SIZE)
}

/// The leaf bitmap of the node at `cursor`.
pub open spec fn leaf_bitmap(data: Seq<u8>, cursor: int) -> Seq<u8> {
    data.subrange(cursor + LEAF_BITMAP_OFFSET, cursor + LEAF_BITMAP_OFFSET + BITMAP_SIZE)
}

/// Whether a prefix ends at the node at `cursor` for `octet`.
pub open spec fn has_leaf(data: Seq<u8>, cursor: int, octet: u8) -> bool {
    bit_at(leaf_bitmap(data, cursor), octet as int)
}

/// Whether the node at `cursor` has a child for `octet`.
pub open spec fn has_child(data: Seq<u8>, cursor: int, octet: u8) -> bool {
    bit_at(child_bitmap(data, cursor), octet as int)
}

/// The region offset of the child of the node at `cursor` for `octet`: the
/// offset of child slot 0 plus one node size for every child below `octet`.
pub open spec fn child_offset(data: Seq<u8>, cursor: int, octet: u8) -> int {
    le_u32(data, cursor + BASE_OFFSET_OFFSET) + rank(child_bitmap(data, cursor), octet as int)
        * NODE_SIZE
}

/// The value index of the leaf of the node at `cursor` for `octet`: the index
/// of leaf slot 0 plus one for every leaf below `octet`.
pub open spec fn value_index(data: Seq<u8>, cursor: int, octet: u8) -> int {
    le_u32(data, cursor + BASE_INDEX_OFFSET) + rank(leaf_bitmap(data, cursor), octet as int)
}

/// The walk from the node at `cursor` over the octets of `ip`, in order.
///
/// At each node the leaf bitmap is tested first, then the child bitmap. A
/// walk that runs out of octets is a miss; one that is sent to a node outside
/// the region finds the index corrupt.
pub open spec fn walk(data: Seq<u8>, cursor: int, ip: Seq<u8>) -> Walk
    decreases ip.len(),
{
    if ip.len() == 0 {
        Walk::Miss
    } else if !node_in_bounds(data, cursor) {
        Walk::CorruptIndex
    } else if has_leaf(data, cursor, ip[0]) {
        Walk::Leaf { cursor: cursor as usize, octet: ip[0] }
    } else if !has_child(data, cursor, ip[0]) {
        Walk::Miss
    } else {
        walk(data, child_offset(data, cursor, ip[0]), ip.drop_first())
    }
}

/// The value of the leaf of the node at `cursor` for `octet`, read from the
/// table of `values_count` values at `values_start`; 0 where the value index
/// lies outside the table.
pub open spec fn leaf_value(
    data: Seq<u8>,
    values_start: int,
    values_count: int,
    cursor: int,
    octet: u8,
) -> u16 {
    let index = value_index(data, cursor, octet);
    if index >= values_count {
        0
    } else {
        le_u16(data, values_start + VALUE_SIZE * index) as u16
    }
}

/// Walks from the node at `start` over the octets of `ip`.
pub fn walk_from(data: &[u8], start: usize, ip: &[u8]) -> (w: Walk)
    ensures
        w == walk(data@, start as int, ip@),
{
    let len = data.len();
    let mut cursor: u64 = start as u64;
    let mut i: usize = 0;
    assert(ip@.subrange(0, ip@.len() as int) =~= ip@);
    while i < ip.len()
        invariant
            i <= ip@.len(),
            len == data@.len(),
            walk(data@, start as int, ip@) == walk(
                data@,
                cursor as int,
                ip@.subrange(i as int, ip@.len() as int),
            ),
        decreases ip@.len() - i,
    {
        let ghost rest = ip@.subrange(i as int, ip@.len() as int);
        assert(rest[0] == ip@[i as int]);
        assert(rest.drop_first() =~= ip@.subrange(i + 1, ip@.len() as int));
        if len < NODE_SIZE || cursor > (len - NODE_SIZE) as u64 {
            return Walk::CorruptIndex;
        }
        let at = cursor as usize;
        let octet = ip[i];
        let child = slice_subrange(
            data,
            at + CHILD_BITMAP_OFFSET,
            at + CHILD_BITMAP_OFFSET + BITMAP_SIZE,
        );
        let leaf = slice_subrange(
            data,
            at + LEAF_BITMAP_OFFSET,
            at + LEAF_BITMAP_OFFSET + BITMAP_SIZE,
        );
        if test_bit(leaf, octet) {
            return Walk::Leaf { cursor: at, octet };
        }
        if !test_bit(child, octet) {
            return Walk::Miss;
        }
        let base_offset = read_u32(data, at + BASE_OFFSET_OFFSET);
        let count = popcount(child, octet);
        proof {
            lemma_rank_bound(child@, octet as int);
        }
        cursor = base_offset as u64 + (count * NODE_SIZE) as u64;
        i += 1;
    }
    Walk::Miss
}

/// Reads the value of the leaf of the node at `cursor` for `octet`.
pub fn read_leaf_value(
    data: &[u8],
    values_start: usize,
    values_count: usize,
    cursor: usize,
    octet: u8,
) -> (value: u16)
    requires
        node_in_bounds(data@, cursor as int),
        values_start + VALUE_SIZE * values_count <= data@.len(),
    ensures
        value == leaf_value(data@, values_start as int, values_count as int, cursor as int, octet),
{
    proof {
        assert(data@.len() == data.len());
        lemma_rank_bound(leaf_bitmap(data@, cursor as int), octet as int);
    }
    if values_count == 0 {
        return 0;
    }
    let base_index = read_u32(data, cursor + BASE_INDEX_OFFSET);
    let leaf = slice_subrange(
        data,
        cursor + LEAF_BITMAP_OFFSET,
        cursor + LEAF_BITMAP_OFFSET + BITMAP_SIZE,
    );
    let offset = popcount(leaf, octet);
    let index = base_index as u64 + offset as u64;
    if index >= values_count as u64 {
        return 0;
    }
    read_u16(data, values_start + VALUE_SIZE * (index as usize))
}

/// A walk ends at a leaf only at a node that lies within the region.
pub proof fn lemma_leaf_in_bounds(data: Seq<u8>, cursor: int, ip: Seq<u8>)
    ensures
        match walk(data, cursor, ip) {
            Walk::Leaf { cursor: at, octet } => node_in_bounds(data, at as int),
            _ => true,
        },
    decreases ip.len(),
{
    if ip.len() > 0 && node_in_bounds(data, cursor) {
        let octet = ip[0];
        if !has_leaf(data, cursor, octet) && has_child(data, cursor, octet) {
            lemma_leaf_in_bounds(data, child_offset(data, cursor, octet), ip.drop_first());
        }
    }
}

} // verus!

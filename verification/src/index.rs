//! The index handle: a region of octets whose layout has been validated,
//! and the two single-address queries over it.

use crate::format::{
    has_magic,
    le_u32,
    read_u32,
    starts_with_magic,
    HEADER_SIZE,
    NODE_SIZE,
    VALUE_SIZE,
};
use crate::walker::{leaf_value, lemma_leaf_in_bounds, read_leaf_value, walk, walk_from, Walk};
use vstd::prelude::*;

verus! {

/// Why a region of octets is not an index.
#[derive(Clone, Copy, Debug, PartialEq, Eq, Structural)]
pub enum InvalidFile {
    /// The header's node count times the node size does not fit the machine.
    NodeCountOverflow,
    /// The header's value count times the value size does not fit the machine.
    ValuesCountOverflow,
    /// The region is not exactly as long as its header says.
    SizeMismatch,
    /// The region has no header and is not a positive number of whole nodes.
    AlignmentMismatch,
}

impl InvalidFile {
    /// What is wrong with the region, in words.
    pub fn message(&self) -> (text: &'static str)
        ensures
            text@ == match *self {
                InvalidFile::NodeCountOverflow => "Invalid bin file: node count overflow."@,
                InvalidFile::ValuesCountOverflow => "Invalid bin file: values count overflow."@,
                InvalidFile::SizeMismatch => "Invalid bin file: size mismatch."@,
                InvalidFile::AlignmentMismatch =>
                    "Invalid bin file: alignment mismatch (expected 72)."@,
            },
    {
        match self {
            InvalidFile::NodeCountOverflow => "Invalid bin file: node count overflow.",
            InvalidFile::ValuesCountOverflow => "Invalid bin file: values count overflow.",
            InvalidFile::SizeMismatch => "Invalid bin file: size mismatch.",
            InvalidFile::AlignmentMismatch => "Invalid bin file: alignment mismatch (expected 72).",
        }
    }
}

/// What an index is, mathematically: the octets of the region, where its
/// nodes and values start, and how many values it holds.
pub struct IndexView {
    pub data: Seq<u8>,
    pub nodes_start: int,
    pub values_start: int,
    pub values_count: int,
}

impl IndexView {
    /// The walk of `ip` from the root.
    pub open spec fn walk(self, ip: Seq<u8>) -> Walk {
        walk(self.data, self.nodes_start, ip)
    }

    /// Whether some stored prefix contains `ip`.
    pub open spec fn contains(self, ip: Seq<u8>) -> bool {
        self.walk(ip) is Leaf
    }

    /// The value of the leaf at which the walk of `ip` ends; 0 where it ends
    /// at none.
    pub open spec fn lookup(self, ip: Seq<u8>) -> u16 {
        match self.walk(ip) {
            Walk::Leaf { cursor, octet } => leaf_value(
                self.data,
                self.values_start,
                self.values_count,
                cursor as int,
                octet,
            ),
            _ => 0,
        }
    }
}

/// The index that a region of octets holds, or why it holds none.
///
/// A region that opens with the magic tag has a header and must be exactly as
/// long as the header, the nodes and the values that the header counts. Any
/// other region is taken as nodes alone, without values, and must be a
/// positive number of whole nodes long.
pub open spec fn parse(data: Seq<u8>) -> Result<IndexView, InvalidFile> {
    if has_magic(data) {
        let node_count = le_u32(data, 4);
        let values_count = le_u32(data, 8);
        if node_count * NODE_SIZE > usize::MAX {
            Err(InvalidFile::NodeCountOverflow)
        } else if values_count * VALUE_SIZE > usize::MAX {
            Err(InvalidFile::ValuesCountOverflow)
        } else if data.len() != HEADER_SIZE + node_count * NODE_SIZE + values_count * VALUE_SIZE {
            Err(InvalidFile::SizeMismatch)
        } else {
            Ok(
                IndexView {
                    data,
                    nodes_start: HEADER_SIZE as int,
                    values_start: HEADER_SIZE + node_count * NODE_SIZE,
                    values_count,
                },
            )
        }
    } else if data.len() > 0 && data.len() % (NODE_SIZE as nat) == 0 {
        Ok(IndexView { data, nodes_start: 0, values_start: data.len() as int, values_count: 0 })
    } else {
        Err(InvalidFile::AlignmentMismatch)
    }
}

/// A validated index over a borrowed region of octets. It is never changed
/// and may be shared freely.
pub struct IpSearcher<'a> {
    data: &'a [u8],
    nodes_start: usize,
    values_start: usize,
    values_count: usize,
}

impl<'a> View for IpSearcher<'a> {
    type V = IndexView;

    closed spec fn view(&self) -> IndexView {
        IndexView {
            data: self.data@,
            nodes_start: self.nodes_start as int,
            values_start: self.values_start as int,
            values_count: self.values_count as int,
        }
    }
}

impl<'a> IpSearcher<'a> {
    /// The layout is the one that the region's octets determine.
    pub open spec fn wf(&self) -> bool {
        parse(self@.data) == Ok::<IndexView, InvalidFile>(self@)
    }

    #[verifier::type_invariant]
    spec fn inv(&self) -> bool {
        self.wf()
    }

    /// Validates the layout of `data` and returns the index over it.
    pub fn new(data: &'a [u8]) -> (r: Result<IpSearcher<'a>, InvalidFile>)
        ensures
            match r {
                Ok(index) => index@.data == data@ && index.wf(),
                Err(e) => parse(data@) == Err::<IndexView, InvalidFile>(e),
            },
    {
        let len = data.len();
        if starts_with_magic(data) {
            let node_count = read_u32(data, 4) as usize;
            let values_count = read_u32(data, 8) as usize;
            let nodes_bytes = match node_count.checked_mul(NODE_SIZE) {
                Some(n) => n,
                None => {
                    return Err(InvalidFile::NodeCountOverflow);
                },
            };
            let values_bytes = match values_count.checked_mul(VALUE_SIZE) {
                Some(n) => n,
                None => {
                    return Err(InvalidFile::ValuesCountOverflow);
                },
            };
            let values_start = match HEADER_SIZE.checked_add(nodes_bytes) {
                Some(n) => n,
                None => {
                    return Err(InvalidFile::SizeMismatch);
                },
            };
            let expected_len = match values_start.checked_add(values_bytes) {
                Some(n) => n,
                None => {
                    return Err(InvalidFile::SizeMismatch);
                },
            };
            if len != expected_len {
                return Err(InvalidFile::SizeMismatch);
            }
            Ok(IpSearcher { data, nodes_start: HEADER_SIZE, values_start, values_count })
        } else if len == 0 || len % NODE_SIZE != 0 {
            Err(InvalidFile::AlignmentMismatch)
        } else {
            Ok(IpSearcher { data, nodes_start: 0, values_start: len, values_count: 0 })
        }
    }

    /// The region of octets that the index reads.
    pub fn data(&self) -> (data: &'a [u8])
        ensures
            data@ == self@.data,
    {
        self.data
    }

    /// Where the nodes start in the region; the root is the node there.
    pub fn nodes_start(&self) -> (at: usize)
        ensures
            at == self@.nodes_start,
    {
        self.nodes_start
    }

    /// Where the values start in the region.
    pub fn values_start(&self) -> (at: usize)
        ensures
            at == self@.values_start,
    {
        self.values_start
    }

    /// How many values the region holds.
    pub fn values_count(&self) -> (count: usize)
        ensures
            count == self@.values_count,
    {
        self.values_count
    }

    /// Walks the trie from the root over the octets of `ip_bytes`.
    pub fn walk(&self, ip_bytes: &[u8]) -> (w: Walk)
        ensures
            w == self@.walk(ip_bytes@),
    {
        walk_from(self.data, self.nodes_start, ip_bytes)
    }

    /// Whether some stored prefix contains the address. A corrupt index
    /// counts as a miss.
    pub fn contains_ip(&self, ip_bytes: &[u8]) -> (found: bool)
        ensures
            found == self@.contains(ip_bytes@),
    {
        match self.walk(ip_bytes) {
            Walk::Leaf { .. } => true,
            _ => false,
        }
    }

    /// The value of the longest stored prefix that contains the address, or
    /// 0 where there is none. A corrupt index counts as a miss.
    pub fn lookup_code(&self, ip_bytes: &[u8]) -> (code: u16)
        ensures
            code == self@.lookup(ip_bytes@),
    {
        proof {
            use_type_invariant(self);
        }
        match self.walk(ip_bytes) {
            Walk::Leaf { cursor, octet } => {
                proof {
                    lemma_leaf_in_bounds(self.data@, self.nodes_start as int, ip_bytes@);
                }
                read_leaf_value(self.data, self.values_start, self.values_count, cursor, octet)
            },
            _ => 0,
        }
    }
}

} // verus!

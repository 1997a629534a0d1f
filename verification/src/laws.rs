//! What holds of every index: how `contains` and `lookup` relate, and how
//! the batch queries relate to the single ones.

use crate::batch::{chunk, stride_of};
use crate::index::IndexView;
use crate::text::ip_octets;
use crate::walker::{child_offset, has_child, has_leaf, node_in_bounds, walk};
use vstd::prelude::*;

verus! {

impl IndexView {
    /// Whether the index stores a prefix with exactly the octets of `prefix`:
    /// the walk of `prefix` ends at a leaf, and only at its last octet.
    pub open spec fn stores(self, prefix: Seq<u8>) -> bool {
        prefix.len() > 0 && self.walk(prefix) is Leaf && !(self.walk(prefix.drop_last()) is Leaf)
    }

    /// Whether every stored prefix has a value other than 0, the value that
    /// stands for "no match".
    pub open spec fn values_nonzero(self) -> bool {
        forall|prefix: Seq<u8>| #[trigger] self.stores(prefix) ==> self.lookup(prefix) != 0
    }
}

/// A walk that ends at a leaf ends there for every longer address with the
/// same leading octets.
pub proof fn lemma_walk_extends(data: Seq<u8>, cursor: int, prefix: Seq<u8>, ip: Seq<u8>)
    requires
        prefix.len() <= ip.len(),
        ip.take(prefix.len() as int) == prefix,
        walk(data, cursor, prefix) is Leaf,
    ensures
        walk(data, cursor, ip) == walk(data, cursor, prefix),
    decreases prefix.len(),
{
    assert(prefix.len() > 0);
    assert(prefix[0] == ip.take(prefix.len() as int)[0]);
    let octet = ip[0];
    if node_in_bounds(data, cursor) && !has_leaf(data, cursor, octet) && has_child(
        data,
        cursor,
        octet,
    ) {
        assert(ip.drop_first().take(prefix.len() - 1) =~= prefix.drop_first());
        lemma_walk_extends(
            data,
            child_offset(data, cursor, octet),
            prefix.drop_first(),
            ip.drop_first(),
        );
    }
}

/// The number of leading octets after which a walk that ends at a leaf has
/// reached it.
pub proof fn lemma_leaf_depth(data: Seq<u8>, cursor: int, ip: Seq<u8>) -> (n: int)
    requires
        walk(data, cursor, ip) is Leaf,
    ensures
        1 <= n <= ip.len(),
        walk(data, cursor, ip.take(n)) == walk(data, cursor, ip),
        !(walk(data, cursor, ip.take(n - 1)) is Leaf),
    decreases ip.len(),
{
    let octet = ip[0];
    if has_leaf(data, cursor, octet) {
        assert(ip.take(1)[0] == octet);
        1
    } else {
        let below = child_offset(data, cursor, octet);
        let m = lemma_leaf_depth(data, below, ip.drop_first());
        assert(ip.take(m + 1)[0] == octet);
        assert(ip.take(m + 1).drop_first() =~= ip.drop_first().take(m));
        if m > 1 {
            assert(ip.take(m)[0] == octet);
            assert(ip.take(m).drop_first() =~= ip.drop_first().take(m - 1));
        } else {
            assert(ip.take(1)[0] == octet);
            assert(ip.take(1).drop_first().len() == 0);
        }
        m + 1
    }
}

/// An address under a stored prefix gets the answers of that prefix: the
/// walk of the address ends at the leaf of the prefix.
pub proof fn lemma_under_stored_prefix(index: IndexView, prefix: Seq<u8>, ip: Seq<u8>)
    requires
        index.stores(prefix),
        prefix.len() <= ip.len(),
        ip.take(prefix.len() as int) == prefix,
    ensures
        index.walk(ip) == index.walk(prefix),
        index.contains(ip),
        index.lookup(ip) == index.lookup(prefix),
{
    lemma_walk_extends(index.data, index.nodes_start, prefix, ip);
}

/// A contained address lies under exactly one stored prefix, which gives it
/// its answers.
pub proof fn lemma_contained_under_one_prefix(index: IndexView, ip: Seq<u8>) -> (n: int)
    requires
        index.contains(ip),
    ensures
        1 <= n <= ip.len(),
        index.stores(ip.take(n)),
        index.lookup(ip) == index.lookup(ip.take(n)),
        forall|m: int| 1 <= m <= ip.len() && index.stores(#[trigger] ip.take(m)) ==> m == n,
{
    let n = lemma_leaf_depth(index.data, index.nodes_start, ip);
    assert(ip.take(n).drop_last() =~= ip.take(n - 1));
    assert forall|m: int| 1 <= m <= ip.len() && index.stores(#[trigger] ip.take(m)) implies m
        == n by {
        assert(ip.take(m).drop_last() =~= ip.take(m - 1));
        if m < n {
            assert(ip.take(n - 1).take(m) =~= ip.take(m));
            lemma_walk_extends(index.data, index.nodes_start, ip.take(m), ip.take(n - 1));
        } else if n < m {
            assert(ip.take(m - 1).take(n) =~= ip.take(n));
            lemma_walk_extends(index.data, index.nodes_start, ip.take(n), ip.take(m - 1));
        }
    }
    n
}

/// An address under no stored prefix is a miss.
pub proof fn lemma_under_no_prefix(index: IndexView, ip: Seq<u8>)
    requires
        forall|n: int| 1 <= n <= ip.len() ==> !index.stores(#[trigger] ip.take(n)),
    ensures
        !index.contains(ip),
        index.lookup(ip) == 0,
{
    if index.contains(ip) {
        let n = lemma_contained_under_one_prefix(index, ip);
    }
}

/// Where every stored prefix has a nonzero value, an address is contained
/// exactly when its lookup is not 0.
pub proof fn lemma_contains_iff_lookup_nonzero(index: IndexView, ip: Seq<u8>)
    requires
        index.values_nonzero(),
    ensures
        index.contains(ip) <==> index.lookup(ip) != 0,
{
    if index.contains(ip) {
        let n = lemma_leaf_depth(index.data, index.nodes_start, ip);
        let prefix = ip.take(n);
        assert(prefix.drop_last() =~= ip.take(n - 1));
        assert(index.stores(prefix));
    }
}

/// A packed batch of one address answers as the single query does.
pub proof fn lemma_packed_single(index: IndexView, ip: Seq<u8>, is_v6: bool)
    requires
        ip.len() == stride_of(is_v6),
    ensures
        index.contains_packed(ip, is_v6) == seq![index.contains(ip)],
        index.lookup_packed(ip, is_v6) == seq![index.lookup(ip)],
{
    let stride = stride_of(is_v6);
    assert(ip.len() / (stride as nat) == 1) by {
        if is_v6 {
            assert(16nat / 16nat == 1);
        } else {
            assert(4nat / 4nat == 1);
        }
    }
    assert(chunk(ip, stride, 0) =~= ip);
    assert(index.contains_packed(ip, is_v6).len() == 1);
    assert(index.contains_packed(ip, is_v6)[0] == index.contains(chunk(ip, stride, 0)));
    assert(index.lookup_packed(ip, is_v6)[0] == index.lookup(chunk(ip, stride, 0)));
    assert(index.contains_packed(ip, is_v6) =~= seq![index.contains(ip)]);
    assert(index.lookup_packed(ip, is_v6) =~= seq![index.lookup(ip)]);
}

/// The answers of a packed batch follow its addresses: where chunk `i` of
/// one buffer is chunk `from[i]` of another, answer `i` for the one is answer
/// `from[i]` for the other. So permuting the addresses of a batch permutes
/// its answers in the same way.
pub proof fn lemma_packed_follows_input(
    index: IndexView,
    a: Seq<u8>,
    b: Seq<u8>,
    is_v6: bool,
    from: Seq<int>,
)
    requires
        from.len() == b.len() / (stride_of(is_v6) as nat),
        forall|i: int|
            0 <= i < from.len() ==> 0 <= #[trigger] from[i] < a.len() / (stride_of(is_v6) as nat),
        forall|i: int|
            0 <= i < from.len() ==> #[trigger] chunk(b, stride_of(is_v6), i) == chunk(
                a,
                stride_of(is_v6),
                from[i],
            ),
    ensures
        index.contains_packed(b, is_v6).len() == from.len(),
        index.lookup_packed(b, is_v6).len() == from.len(),
        forall|i: int|
            0 <= i < from.len() ==> #[trigger] index.contains_packed(b, is_v6)[i]
                == index.contains_packed(a, is_v6)[from[i]],
        forall|i: int|
            0 <= i < from.len() ==> #[trigger] index.lookup_packed(b, is_v6)[i]
                == index.lookup_packed(a, is_v6)[from[i]],
{
}

/// A string batch of one text that spells an address answers as the single
/// query does for the octets of that address.
pub proof fn lemma_strings_single(index: IndexView, text: Seq<u8>, ip: Seq<u8>)
    requires
        ip_octets(text) == Some(ip),
    ensures
        index.contains_strings(seq![text]) == seq![index.contains(ip)],
        index.lookup_strings(seq![text]) == seq![index.lookup(ip)],
{
    assert(index.contains_strings(seq![text]) =~= seq![index.contains(ip)]);
    assert(index.lookup_strings(seq![text]) =~= seq![index.lookup(ip)]);
}

/// A text that spells no address is answered as a miss.
pub proof fn lemma_strings_bad_text(index: IndexView, text: Seq<u8>)
    requires
        ip_octets(text) is None,
    ensures
        index.contains_strings(seq![text]) == seq![false],
        index.lookup_strings(seq![text]) == seq![0u16],
{
    assert(index.contains_strings(seq![text]) =~= seq![false]);
    assert(index.lookup_strings(seq![text]) =~= seq![0u16]);
}

/// The answers of a string batch follow its texts: where text `i` of one
/// batch is text `from[i]` of another, answer `i` for the one is answer
/// `from[i]` for the other. So permuting the texts of a batch permutes its
/// answers in the same way.
pub proof fn lemma_strings_follow_input(
    index: IndexView,
    a: Seq<Seq<u8>>,
    b: Seq<Seq<u8>>,
    from: Seq<int>,
)
    requires
        from.len() == b.len(),
        forall|i: int| 0 <= i < from.len() ==> 0 <= #[trigger] from[i] < a.len(),
        forall|i: int| 0 <= i < from.len() ==> #[trigger] b[i] == a[from[i]],
    ensures
        index.contains_strings(b).len() == from.len(),
        index.lookup_strings(b).len() == from.len(),
        forall|i: int|
            0 <= i < from.len() ==> #[trigger] index.contains_strings(b)[i]
                == index.contains_strings(a)[from[i]],
        forall|i: int|
            0 <= i < from.len() ==> #[trigger] index.lookup_strings(b)[i] == index.lookup_strings(
                a,
            )[from[i]],
{
}

/// A packed batch has one answer for every whole chunk of its buffer.
pub proof fn lemma_packed_len(index: IndexView, buf: Seq<u8>, is_v6: bool)
    ensures
        index.contains_packed(buf, is_v6).len() == buf.len() / (stride_of(is_v6) as nat),
        index.lookup_packed(buf, is_v6).len() == buf.len() / (stride_of(is_v6) as nat),
{
}

} // verus!

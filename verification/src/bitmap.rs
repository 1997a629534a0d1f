//! 256-bit bitmaps stored as 32 octets, most significant bit first.
//!
//! Bit `k` of a bitmap lives in octet `k / 8` at intra-octet position
//! `7 - k % 8`, so the most significant bit of octet 0 is bit 0. The two
//! queries are `test_bit` (is bit `k` set?) and `popcount` (how many bits below
//! position `k` are set?).

use vstd::prelude::*;

verus! {

/// Number of octets in a bitmap.
pub const BITMAP_SIZE: usize = 32;

/// Whether bit `p` (counted from the least significant end) of `x` is set.
pub open spec fn bit_of(x: u64, p: nat) -> bool {
    (x >> (p as u64)) & 1 == 1
}

/// Number of set bits among the `n` least significant bits of `x`.
pub open spec fn ones_below(x: u64, n: nat) -> nat
    decreases n,
{
    if n == 0 {
        0
    } else {
        ones_below(x, (n - 1) as nat) + if bit_of(x, (n - 1) as nat) {
            1nat
        } else {
            0nat
        }
    }
}

/// `u64::count_ones` of the standard library: the number of ones in the
/// binary representation of the argument, stated here as the count of set
/// bits among all 64 bit positions.
pub assume_specification[ u64::count_ones ](x: u64) -> (r: u32)
    ensures
        r == ones_below(x, 64),
;

/// `u8::count_ones` of the standard library: the number of ones in the
/// binary representation of the argument, stated here as the count of set
/// bits among its 8 bit positions.
pub assume_specification[ u8::count_ones ](x: u8) -> (r: u32)
    ensures
        r == ones_below(x as u64, 8),
;

/// Whether bit `k` of `bitmap` is set, for `0 <= k < 256`.
pub open spec fn bit_at(bitmap: Seq<u8>, k: int) -> bool {
    bit_of(bitmap[k / 8] as u64, (7 - k % 8) as nat)
}

/// Number of set bits of `bitmap` at positions strictly less than `k`.
pub open spec fn rank(bitmap: Seq<u8>, k: int) -> nat
    decreases k,
{
    if k <= 0 {
        0
    } else {
        rank(bitmap, k - 1) + if bit_at(bitmap, k - 1) {
            1nat
        } else {
            0nat
        }
    }
}

/// The mask that keeps, within one octet, the bits at intra-octet positions
/// greater than `j`: those that stand for smaller bitmap positions.
pub open spec fn mask_high(j: u8) -> u8 {
    if j >= 7 {
        0u8
    } else {
        0xFFu8 << ((j + 1) as u8)
    }
}

/// The 64-bit word that eight octets spell in little-endian order.
pub open spec fn le_word(s: Seq<u8>) -> u64 {
    (s[0] as u64) | (s[1] as u64) << 8 | (s[2] as u64) << 16 | (s[3] as u64) << 24 | (s[4] as u64)
        << 32 | (s[5] as u64) << 40 | (s[6] as u64) << 48 | (s[7] as u64) << 56
}

/// Shifting right twice reads the same bit as shifting once by the sum.
proof fn lemma_shifted_bit(x: u64, a: u64, b: u64)
    by (bit_vector)
    requires
        a < 64,
        b < 64,
        a + b < 64,
    ensures
        ((x >> a) >> b) & 1 == (x >> ((a + b) as u64)) & 1,
{
}

/// Counting the low `n + m` bits is counting the low `n` bits and then the
/// low `m` bits of what lies above them.
proof fn lemma_ones_split(x: u64, n: nat, m: nat)
    requires
        n + m <= 64,
    ensures
        ones_below(x, n + m) == ones_below(x, n) + ones_below(x >> (n as u64), m),
    decreases m,
{
    if m > 0 {
        lemma_ones_split(x, n, (m - 1) as nat);
        lemma_shifted_bit(x, n as u64, (m - 1) as u64);
        assert(bit_of(x >> (n as u64), (m - 1) as nat) == bit_of(x, (n + m - 1) as nat));
    }
}

/// Two values whose eight lowest bits agree have the same count of set bits
/// among them.
proof fn lemma_ones_low_octet(a: u64, b: u64)
    requires
        forall|p: u64| p < 8 ==> (#[trigger] (a >> p)) & 1 == (b >> p) & 1,
    ensures
        ones_below(a, 8) == ones_below(b, 8),
{
    reveal_with_fuel(ones_below, 9);
    assert((a >> 0u64) & 1 == (b >> 0u64) & 1);
    assert((a >> 1u64) & 1 == (b >> 1u64) & 1);
    assert((a >> 2u64) & 1 == (b >> 2u64) & 1);
    assert((a >> 3u64) & 1 == (b >> 3u64) & 1);
    assert((a >> 4u64) & 1 == (b >> 4u64) & 1);
    assert((a >> 5u64) & 1 == (b >> 5u64) & 1);
    assert((a >> 6u64) & 1 == (b >> 6u64) & 1);
    assert((a >> 7u64) & 1 == (b >> 7u64) & 1);
}

/// Each octet of a little-endian word occupies its own eight bits of the word.
proof fn lemma_word_octets(
    w: u64,
    b0: u8,
    b1: u8,
    b2: u8,
    b3: u8,
    b4: u8,
    b5: u8,
    b6: u8,
    b7: u8,
)
    by (bit_vector)
    requires
        w == (b0 as u64) | (b1 as u64) << 8 | (b2 as u64) << 16 | (b3 as u64) << 24 | (b4 as u64)
            << 32 | (b5 as u64) << 40 | (b6 as u64) << 48 | (b7 as u64) << 56,
    ensures
        forall|p: u64| p < 8 ==> (#[trigger] ((w >> 0) >> p)) & 1 == ((b0 as u64) >> p) & 1,
        forall|p: u64| p < 8 ==> (#[trigger] ((w >> 8) >> p)) & 1 == ((b1 as u64) >> p) & 1,
        forall|p: u64| p < 8 ==> (#[trigger] ((w >> 16) >> p)) & 1 == ((b2 as u64) >> p) & 1,
        forall|p: u64| p < 8 ==> (#[trigger] ((w >> 24) >> p)) & 1 == ((b3 as u64) >> p) & 1,
        forall|p: u64| p < 8 ==> (#[trigger] ((w >> 32) >> p)) & 1 == ((b4 as u64) >> p) & 1,
        forall|p: u64| p < 8 ==> (#[trigger] ((w >> 40) >> p)) & 1 == ((b5 as u64) >> p) & 1,
        forall|p: u64| p < 8 ==> (#[trigger] ((w >> 48) >> p)) & 1 == ((b6 as u64) >> p) & 1,
        forall|p: u64| p < 8 ==> (#[trigger] ((w >> 56) >> p)) & 1 == ((b7 as u64) >> p) & 1,
{
}

/// The set bits of a little-endian word are those of its eight octets.
pub proof fn lemma_word_ones(s: Seq<u8>)
    requires
        s.len() == 8,
    ensures
        ones_below(le_word(s), 64) == ones_below(s[0] as u64, 8) + ones_below(s[1] as u64, 8)
            + ones_below(s[2] as u64, 8) + ones_below(s[3] as u64, 8) + ones_below(
            s[4] as u64,
            8,
        ) + ones_below(s[5] as u64, 8) + ones_below(s[6] as u64, 8) + ones_below(s[7] as u64, 8),
{
    let w = le_word(s);
    lemma_word_octets(w, s[0], s[1], s[2], s[3], s[4], s[5], s[6], s[7]);
    lemma_ones_split(w, 0, 8);
    lemma_ones_split(w, 8, 8);
    lemma_ones_split(w, 16, 8);
    lemma_ones_split(w, 24, 8);
    lemma_ones_split(w, 32, 8);
    lemma_ones_split(w, 40, 8);
    lemma_ones_split(w, 48, 8);
    lemma_ones_split(w, 56, 8);
    lemma_ones_low_octet(w >> 0, s[0] as u64);
    lemma_ones_low_octet(w >> 8, s[1] as u64);
    lemma_ones_low_octet(w >> 16, s[2] as u64);
    lemma_ones_low_octet(w >> 24, s[3] as u64);
    lemma_ones_low_octet(w >> 32, s[4] as u64);
    lemma_ones_low_octet(w >> 40, s[5] as u64);
    lemma_ones_low_octet(w >> 48, s[6] as u64);
    lemma_ones_low_octet(w >> 56, s[7] as u64);
    assert(ones_below(w, 0) == 0);
}

/// A whole octet adds the count of its set bits to the rank.
pub proof fn lemma_rank_octet(bitmap: Seq<u8>, i: int)
    requires
        0 <= i,
    ensures
        rank(bitmap, 8 * i + 8) == rank(bitmap, 8 * i) + ones_below(bitmap[i] as u64, 8),
{
    reveal_with_fuel(rank, 9);
    reveal_with_fuel(ones_below, 9);
    assert((8 * i + 0) / 8 == i && (8 * i + 0) % 8 == 0);
    assert((8 * i + 1) / 8 == i && (8 * i + 1) % 8 == 1);
    assert((8 * i + 2) / 8 == i && (8 * i + 2) % 8 == 2);
    assert((8 * i + 3) / 8 == i && (8 * i + 3) % 8 == 3);
    assert((8 * i + 4) / 8 == i && (8 * i + 4) % 8 == 4);
    assert((8 * i + 5) / 8 == i && (8 * i + 5) % 8 == 5);
    assert((8 * i + 6) / 8 == i && (8 * i + 6) % 8 == 6);
    assert((8 * i + 7) / 8 == i && (8 * i + 7) % 8 == 7);
}

/// Masking an octet with `mask_high(j)` clears the bits at positions up to
/// `j` and keeps the others.
proof fn lemma_mask_high_bits(v: u8, j: u8, m: u8)
    by (bit_vector)
    requires
        j < 8,
        m == v & (if j >= 7 {
            0u8
        } else {
            0xFFu8 << ((j + 1) as u8)
        }),
    ensures
        forall|p: u64|
            p < 8 ==> (((#[trigger] ((m as u64) >> p)) & 1 == 1) <==> (p > j as u64 && ((v as u64)
                >> p) & 1 == 1)),
{
}

/// Number of set bits among the `r` most significant bits of an octet `x`.
spec fn ones_above(x: u64, r: nat) -> nat
    decreases r,
{
    if r == 0 {
        0
    } else {
        ones_above(x, (r - 1) as nat) + if bit_of(x, (8 - r) as nat) {
            1nat
        } else {
            0nat
        }
    }
}

/// The first `r` bitmap positions of octet `i` are its `r` most significant
/// bits.
proof fn lemma_rank_within_octet(bitmap: Seq<u8>, i: int, r: nat)
    requires
        0 <= i,
        r <= 8,
    ensures
        rank(bitmap, 8 * i + r) == rank(bitmap, 8 * i) + ones_above(bitmap[i] as u64, r),
    decreases r,
{
    if r > 0 {
        lemma_rank_within_octet(bitmap, i, (r - 1) as nat);
        let k = 8 * i + r - 1;
        assert(k / 8 == i && k % 8 == r - 1);
        assert(bit_at(bitmap, k) == bit_of(bitmap[i] as u64, (8 - r) as nat));
    }
}

/// What `mask_high(j)` keeps of an octet are its `7 - j` most significant
/// bits.
proof fn lemma_masked_ones(v: u8, j: u8)
    requires
        j < 8,
    ensures
        ones_below((v & mask_high(j)) as u64, 8) == ones_above(v as u64, (7 - j) as nat),
{
    let m = v & mask_high(j);
    let x = m as u64;
    let y = v as u64;
    lemma_mask_high_bits(v, j, m);
    assert(bit_of(x, 0) <==> (0 > j && bit_of(y, 0))) by {
        assert((x >> 0u64) & 1 == 1 <==> (0u64 > j as u64 && (y >> 0u64) & 1 == 1));
    }
    assert(bit_of(x, 1) <==> (1 > j && bit_of(y, 1))) by {
        assert((x >> 1u64) & 1 == 1 <==> (1u64 > j as u64 && (y >> 1u64) & 1 == 1));
    }
    assert(bit_of(x, 2) <==> (2 > j && bit_of(y, 2))) by {
        assert((x >> 2u64) & 1 == 1 <==> (2u64 > j as u64 && (y >> 2u64) & 1 == 1));
    }
    assert(bit_of(x, 3) <==> (3 > j && bit_of(y, 3))) by {
        assert((x >> 3u64) & 1 == 1 <==> (3u64 > j as u64 && (y >> 3u64) & 1 == 1));
    }
    assert(bit_of(x, 4) <==> (4 > j && bit_of(y, 4))) by {
        assert((x >> 4u64) & 1 == 1 <==> (4u64 > j as u64 && (y >> 4u64) & 1 == 1));
    }
    assert(bit_of(x, 5) <==> (5 > j && bit_of(y, 5))) by {
        assert((x >> 5u64) & 1 == 1 <==> (5u64 > j as u64 && (y >> 5u64) & 1 == 1));
    }
    assert(bit_of(x, 6) <==> (6 > j && bit_of(y, 6))) by {
        assert((x >> 6u64) & 1 == 1 <==> (6u64 > j as u64 && (y >> 6u64) & 1 == 1));
    }
    assert(bit_of(x, 7) <==> (7 > j && bit_of(y, 7))) by {
        assert((x >> 7u64) & 1 == 1 <==> (7u64 > j as u64 && (y >> 7u64) & 1 == 1));
    }
    assert(ones_below(x, 8) == ones_above(y, (7 - j) as nat)) by {
        reveal_with_fuel(ones_below, 9);
        reveal_with_fuel(ones_above, 9);
    }
}

/// Within octet `k / 8`, the bits below position `k` are those that
/// `mask_high(7 - k % 8)` keeps.
pub proof fn lemma_rank_partial(bitmap: Seq<u8>, k: int)
    requires
        0 <= k,
    ensures
        rank(bitmap, k) == rank(bitmap, 8 * (k / 8)) + ones_below(
            (bitmap[k / 8] & mask_high((7 - k % 8) as u8)) as u64,
            8,
        ),
{
    lemma_rank_within_octet(bitmap, k / 8, (k % 8) as nat);
    lemma_masked_ones(bitmap[k / 8], (7 - k % 8) as u8);
}

/// The rank never exceeds the number of positions counted.
pub proof fn lemma_rank_bound(bitmap: Seq<u8>, k: int)
    ensures
        rank(bitmap, k) <= if k <= 0 {
            0
        } else {
            k
        },
    decreases k,
{
    if k > 0 {
        lemma_rank_bound(bitmap, k - 1);
    }
}

/// Eight whole octets add the set bits of their little-endian word to the
/// rank.
proof fn lemma_rank_word(bitmap: Seq<u8>, w: int)
    requires
        0 <= w,
        8 * w + 8 <= bitmap.len(),
    ensures
        rank(bitmap, 64 * w + 64) == rank(bitmap, 64 * w) + ones_below(
            le_word(bitmap.subrange(8 * w, 8 * w + 8)),
            64,
        ),
{
    let s = bitmap.subrange(8 * w, 8 * w + 8);
    lemma_word_ones(s);
    lemma_rank_octet(bitmap, 8 * w);
    lemma_rank_octet(bitmap, 8 * w + 1);
    lemma_rank_octet(bitmap, 8 * w + 2);
    lemma_rank_octet(bitmap, 8 * w + 3);
    lemma_rank_octet(bitmap, 8 * w + 4);
    lemma_rank_octet(bitmap, 8 * w + 5);
    lemma_rank_octet(bitmap, 8 * w + 6);
    lemma_rank_octet(bitmap, 8 * w + 7);
}

/// The mask with the single bit `j` selects that bit of an octet.
proof fn lemma_single_bit(v: u8, j: u8)
    by (bit_vector)
    requires
        j < 8,
    ensures
        (v & (1u8 << j) != 0) <==> (((v as u64) >> (j as u64)) & 1 == 1),
{
}

/// Whether bit `k` of the bitmap is set.
pub fn test_bit(bitmap: &[u8], k: u8) -> (r: bool)
    requires
        bitmap@.len() == BITMAP_SIZE,
    ensures
        r == bit_at(bitmap@, k as int),
{
    let i = (k / 8) as usize;
    let j: u8 = 7 - k % 8;
    let v = bitmap[i];
    proof {
        lemma_single_bit(v, j);
    }
    v & (1u8 << j) != 0
}

/// Reads the eight octets at `at` as one little-endian 64-bit word.
fn load_word(bytes: &[u8], at: usize) -> (w: u64)
    requires
        at + 8 <= bytes@.len(),
    ensures
        w == le_word(bytes@.subrange(at as int, at + 8)),
{
    (bytes[at] as u64) | (bytes[at + 1] as u64) << 8 | (bytes[at + 2] as u64) << 16 | (bytes[at
        + 3] as u64) << 24 | (bytes[at + 4] as u64) << 32 | (bytes[at + 5] as u64) << 40 | (bytes[at
        + 6] as u64) << 48 | (bytes[at + 7] as u64) << 56
}

/// Number of set bits of the bitmap at positions strictly less than `k`.
///
/// Whole 64-bit words below the octet of `k` are counted first, then the
/// remaining whole octets, then the bits of the octet of `k` that stand for
/// smaller positions.
pub fn popcount(bitmap: &[u8], k: u8) -> (count: usize)
    requires
        bitmap@.len() == BITMAP_SIZE,
    ensures
        count == rank(bitmap@, k as int),
{
    let i = (k / 8) as usize;
    let j: u8 = 7 - k % 8;
    let words = i / 8;
    let mut count: usize = 0;
    let mut w: usize = 0;
    while w < words
        invariant
            bitmap@.len() == BITMAP_SIZE,
            i < 32,
            words == i / 8,
            w <= words,
            count == rank(bitmap@, 64 * w),
        decreases words - w,
    {
        let word = load_word(bitmap, 8 * w);
        proof {
            lemma_rank_word(bitmap@, w as int);
            lemma_rank_bound(bitmap@, 64 * w + 64);
        }
        count += word.count_ones() as usize;
        w += 1;
    }
    let mut t: usize = words * 8;
    while t < i
        invariant
            bitmap@.len() == BITMAP_SIZE,
            i < 32,
            t <= i,
            count == rank(bitmap@, 8 * t),
        decreases i - t,
    {
        proof {
            lemma_rank_octet(bitmap@, t as int);
            lemma_rank_bound(bitmap@, 8 * t + 8);
        }
        count += bitmap[t].count_ones() as usize;
        t += 1;
    }
    let mask: u8 = if j == 7 {
        0
    } else {
        0xFF << (j + 1)
    };
    proof {
        lemma_rank_partial(bitmap@, k as int);
        lemma_rank_bound(bitmap@, k as int);
    }
    count += (bitmap[i] & mask).count_ones() as usize;
    count
}

} // verus!

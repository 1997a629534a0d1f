//! Addresses in textual form: dotted-quad IPv4 and colon-hex IPv6, the
//! latter with `::` for a run of zero groups and with an IPv4 dotted quad in
//! place of the last two groups.
//!
//! The text is taken as octets. Every character of an address is ASCII, so a
//! text with any other octet is no address.

use vstd::prelude::*;
use vstd::slice::slice_subrange;

verus! {

/// The octet of `.`, which separates the fields of a dotted quad.
pub const DOT: u8 = 0x2E;

/// The octet of `:`, which separates the groups of an IPv6 address.
pub const COLON: u8 = 0x3A;

/// The value of `b` as a digit of the given radix (10 or 16), if it is one.
/// Hexadecimal digits may be of either case.
pub open spec fn digit(b: u8, radix: int) -> Option<int> {
    if 0x30 <= b <= 0x39 {
        Some(b - 0x30)
    } else if radix == 16 && 0x61 <= b <= 0x66 {
        Some(b - 0x61 + 10)
    } else if radix == 16 && 0x41 <= b <= 0x46 {
        Some(b - 0x41 + 10)
    } else {
        None
    }
}

/// Whether every octet of `s` is a digit of the given radix.
pub open spec fn all_digits(s: Seq<u8>, radix: int) -> bool {
    forall|i: int| 0 <= i < s.len() ==> (#[trigger] digit(s[i], radix)) is Some
}

/// The number that the digits of `s` spell in the given radix, most
/// significant digit first.
pub open spec fn number(s: Seq<u8>, radix: int) -> int
    decreases s.len(),
{
    if s.len() == 0 {
        0
    } else {
        number(s.drop_last(), radix) * radix + digit(s.last(), radix).unwrap()
    }
}

/// The octet that a field of a dotted quad spells: one to three decimal
/// digits, without a leading zero unless the field is `0` itself, of value
/// at most 255.
pub open spec fn decimal_octet(s: Seq<u8>) -> Option<u8> {
    if 1 <= s.len() <= 3 && all_digits(s, 10) && (s.len() == 1 || s[0] != 0x30) && number(s, 10)
        <= 255 {
        Some(number(s, 10) as u8)
    } else {
        None
    }
}

/// The group that a field of an IPv6 address spells: one to four hexadecimal
/// digits.
pub open spec fn hex_group(s: Seq<u8>) -> Option<u16> {
    if 1 <= s.len() <= 4 && all_digits(s, 16) {
        Some(number(s, 16) as u16)
    } else {
        None
    }
}

/// The index of the first `sep` in `s`, or the length of `s` where there is
/// none.
pub open spec fn find(s: Seq<u8>, sep: u8) -> int
    decreases s.len(),
{
    if s.len() == 0 || s[0] == sep {
        0
    } else {
        1 + find(s.drop_first(), sep)
    }
}

/// `first` before `rest`, where both are there.
pub open spec fn prepend<T>(first: Option<Seq<T>>, rest: Option<Seq<T>>) -> Option<Seq<T>> {
    match (first, rest) {
        (Some(a), Some(b)) => Some(a + b),
        _ => None,
    }
}

/// The octets that the fields of `s` spell, where `s` is one or more fields
/// that are separated by `.` and each the text of an octet.
pub open spec fn dotted(s: Seq<u8>) -> Option<Seq<u8>>
    decreases s.len(),
{
    let p = find(s, DOT);
    if 0 <= p < s.len() {
        prepend(one(decimal_octet(s.take(p))), dotted(s.skip(p + 1)))
    } else {
        one(decimal_octet(s))
    }
}

/// The sequence of the one value, where it is there.
pub open spec fn one<T>(value: Option<T>) -> Option<Seq<T>> {
    match value {
        Some(v) => Some(seq![v]),
        None => None,
    }
}

/// The four octets of an IPv4 address in dotted-quad text.
pub open spec fn ipv4_octets(s: Seq<u8>) -> Option<Seq<u8>> {
    match dotted(s) {
        Some(octets) => if octets.len() == 4 {
            Some(octets)
        } else {
            None
        },
        None => None,
    }
}

/// The two groups that the four octets of an IPv4 address fill.
pub open spec fn groups_of_quad(octets: Seq<u8>) -> Seq<u16> {
    seq![(octets[0] * 256 + octets[1]) as u16, (octets[2] * 256 + octets[3]) as u16]
}

/// The groups that the last field of an IPv6 address spells: one where it is
/// hexadecimal, two where a dotted quad is allowed there and it is one.
pub open spec fn last_groups(s: Seq<u8>, quad_allowed: bool) -> Option<Seq<u16>> {
    if hex_group(s) is Some {
        one(hex_group(s))
    } else if quad_allowed && ipv4_octets(s) is Some {
        Some(groups_of_quad(ipv4_octets(s).unwrap()))
    } else {
        None
    }
}

/// The groups that the fields of `s` spell, where `s` is one or more fields
/// that are separated by `:`. Every field is a hexadecimal group, but that
/// the last may be a dotted quad where `quad_allowed`.
pub open spec fn groups(s: Seq<u8>, quad_allowed: bool) -> Option<Seq<u16>>
    decreases s.len(),
{
    let p = find(s, COLON);
    if 0 <= p < s.len() {
        prepend(one(hex_group(s.take(p))), groups(s.skip(p + 1), quad_allowed))
    } else {
        last_groups(s, quad_allowed)
    }
}

/// The groups on one side of a `::`: none where the side is empty.
pub open spec fn side_groups(s: Seq<u8>, quad_allowed: bool) -> Option<Seq<u16>> {
    if s.len() == 0 {
        Some(Seq::empty())
    } else {
        groups(s, quad_allowed)
    }
}

/// The index of the first `::` in `s`, or the length of `s` where there is
/// none.
pub open spec fn find_gap(s: Seq<u8>) -> int
    decreases s.len(),
{
    if s.len() < 2 {
        s.len() as int
    } else if s[0] == COLON && s[1] == COLON {
        0
    } else {
        1 + find_gap(s.drop_first())
    }
}

/// The eight groups of an IPv6 address in colon-hex text.
///
/// Without `::` the text spells exactly eight groups. With `::`, the groups
/// before it and after it are at most seven, none of those before it comes
/// from a dotted quad, and the `::` stands for the zero groups that are
/// missing between them.
pub open spec fn ipv6_groups(s: Seq<u8>) -> Option<Seq<u16>> {
    let p = find_gap(s);
    if 0 <= p < s.len() {
        match (side_groups(s.take(p), false), side_groups(s.skip(p + 2), true)) {
            (Some(head), Some(tail)) => if head.len() + tail.len() <= 7 {
                Some(head + Seq::new((8 - head.len() - tail.len()) as nat, |i: int| 0u16) + tail)
            } else {
                None
            },
            _ => None,
        }
    } else {
        match groups(s, true) {
            Some(all) => if all.len() == 8 {
                Some(all)
            } else {
                None
            },
            None => None,
        }
    }
}

/// The octets of a sequence of groups, each group most significant octet
/// first.
pub open spec fn octets_of_groups(g: Seq<u16>) -> Seq<u8> {
    Seq::new(2 * g.len(), |i: int| if i % 2 == 0 {
        (g[i / 2] / 256) as u8
    } else {
        (g[i / 2] % 256) as u8
    })
}

/// The octets of the address that `s` spells, in network order: four for an
/// IPv4 address, sixteen for an IPv6 address.
pub open spec fn ip_octets(s: Seq<u8>) -> Option<Seq<u8>> {
    if ipv4_octets(s) is Some {
        ipv4_octets(s)
    } else {
        match ipv6_groups(s) {
            Some(g) => Some(octets_of_groups(g)),
            None => None,
        }
    }
}

/// The view of an optional vector.
pub open spec fn seq_of<T>(v: Option<Vec<T>>) -> Option<Seq<T>> {
    match v {
        Some(items) => Some(items@),
        None => None,
    }
}

/// The first `sep` stands where no octet before is `sep`.
proof fn lemma_find(s: Seq<u8>, sep: u8, i: int)
    requires
        0 <= i <= s.len(),
        forall|j: int| 0 <= j < i ==> s[j] != sep,
        i == s.len() || s[i] == sep,
    ensures
        find(s, sep) == i,
    decreases i,
{
    if i > 0 {
        lemma_find(s.drop_first(), sep, i - 1);
    }
}

/// Finds the first `sep` in `s`; the length of `s` where there is none.
pub fn find_byte(s: &[u8], sep: u8) -> (p: usize)
    ensures
        p == find(s@, sep),
        p <= s@.len(),
        p < s@.len() ==> s@[p as int] == sep,
{
    let mut i: usize = 0;
    while i < s.len() && s[i] != sep
        invariant
            i <= s@.len(),
            forall|j: int| 0 <= j < i ==> s@[j] != sep,
        decreases s@.len() - i,
    {
        i += 1;
    }
    proof {
        lemma_find(s@, sep, i as int);
    }
    i
}

/// The value of `b` as a digit of radix 10 or 16, if it is one.
fn digit_of(b: u8, radix: u32) -> (d: Option<u32>)
    requires
        radix == 10 || radix == 16,
    ensures
        match d {
            Some(v) => digit(b, radix as int) == Some(v as int) && v < radix,
            None => digit(b, radix as int) is None,
        },
{
    if 0x30 <= b && b <= 0x39 {
        Some((b - 0x30) as u32)
    } else if radix == 16 && 0x61 <= b && b <= 0x66 {
        Some((b - 0x61) as u32 + 10)
    } else if radix == 16 && 0x41 <= b && b <= 0x46 {
        Some((b - 0x41) as u32 + 10)
    } else {
        None
    }
}

/// The largest number that `n` digits of radix 16 or less can spell, and
/// one more.
spec fn digits_limit(n: int) -> int {
    if n <= 0 {
        1
    } else if n == 1 {
        16
    } else if n == 2 {
        256
    } else if n == 3 {
        4096
    } else {
        65536
    }
}

/// Reads `s` as a number of one to `max_digits` digits of radix 10 or 16.
fn parse_digits(s: &[u8], radix: u32, max_digits: usize) -> (r: Option<u32>)
    requires
        radix == 10 || radix == 16,
        max_digits <= 4,
    ensures
        r == if 1 <= s@.len() <= max_digits && all_digits(s@, radix as int) {
            Some(number(s@, radix as int) as u32)
        } else {
            None::<u32>
        },
        r matches Some(v) ==> v == number(s@, radix as int) && v < digits_limit(s@.len() as int),
{
    if s.len() == 0 || s.len() > max_digits {
        return None;
    }
    let mut value: u32 = 0;
    let mut i: usize = 0;
    while i < s.len()
        invariant
            radix == 10 || radix == 16,
            i <= s@.len() <= 4,
            forall|j: int| 0 <= j < i ==> (#[trigger] digit(s@[j], radix as int)) is Some,
            value == number(s@.take(i as int), radix as int),
            value < digits_limit(i as int),
        decreases s@.len() - i,
    {
        match digit_of(s[i], radix) {
            None => {
                return None;
            },
            Some(d) => {
                proof {
                    let next = s@.take(i + 1);
                    assert(next.drop_last() =~= s@.take(i as int));
                    assert(next.last() == s@[i as int]);
                    assert(value * radix + d < digits_limit(i + 1)) by {
                        assert(value * radix == value * 10 || value * radix == value * 16);
                    }
                }
                value = value * radix + d;
            },
        }
        i += 1;
    }
    proof {
        assert(s@.take(i as int) =~= s@);
    }
    Some(value)
}

/// Reads `s` as a field of a dotted quad.
pub fn parse_decimal_octet(s: &[u8]) -> (r: Option<u8>)
    ensures
        r == decimal_octet(s@),
{
    match parse_digits(s, 10, 3) {
        Some(v) => if (s.len() == 1 || s[0] != 0x30) && v <= 255 {
            Some(v as u8)
        } else {
            None
        },
        None => None,
    }
}

/// Reads `s` as a hexadecimal group of an IPv6 address.
pub fn parse_hex_group(s: &[u8]) -> (r: Option<u16>)
    ensures
        r == hex_group(s@),
{
    match parse_digits(s, 16, 4) {
        Some(v) => Some(v as u16),
        None => None,
    }
}

/// Nothing before `rest` is `rest`.
proof fn lemma_prepend_nothing<T>(rest: Option<Seq<T>>)
    ensures
        prepend(Some(Seq::<T>::empty()), rest) == rest,
{
    if let Some(items) = rest {
        assert(Seq::<T>::empty() + items =~= items);
    }
}

/// `a` before what has `b` before `rest` is `a + b` before `rest`.
proof fn lemma_prepend_twice<T>(a: Seq<T>, b: Seq<T>, rest: Option<Seq<T>>)
    ensures
        prepend(Some(a), prepend(Some(b), rest)) == prepend(Some(a + b), rest),
{
    if let Some(items) = rest {
        assert(a + (b + items) =~= (a + b) + items);
    }
}

/// Reads `s` as fields that are separated by `.`, each the text of an octet.
pub fn parse_dotted(s: &[u8]) -> (r: Option<Vec<u8>>)
    ensures
        seq_of(r) == dotted(s@),
{
    let mut out: Vec<u8> = Vec::new();
    let mut rest: &[u8] = s;
    proof {
        lemma_prepend_nothing(dotted(s@));
    }
    loop
        invariant
            dotted(s@) == prepend(Some(out@), dotted(rest@)),
        decreases rest@.len(),
    {
        let p = find_byte(rest, DOT);
        let field = slice_subrange(rest, 0, p);
        let ghost before = out@;
        proof {
            assert(field@ =~= rest@.take(p as int));
            if p >= rest@.len() {
                assert(field@ =~= rest@);
            }
        }
        match parse_decimal_octet(field) {
            None => {
                return None;
            },
            Some(octet) => {
                out.push(octet);
            },
        }
        if p >= rest.len() {
            return Some(out);
        }
        let ghost after = rest@.skip(p + 1);
        proof {
            assert(out@ =~= before + seq![out@.last()]);
            lemma_prepend_twice(before, seq![out@.last()], dotted(after));
        }
        rest = slice_subrange(rest, p + 1, rest.len());
        assert(rest@ =~= after);
    }
}

/// Reads `s` as an IPv4 address in dotted-quad text.
pub fn parse_ipv4(s: &[u8]) -> (r: Option<Vec<u8>>)
    ensures
        seq_of(r) == ipv4_octets(s@),
{
    match parse_dotted(s) {
        Some(octets) => if octets.len() == 4 {
            Some(octets)
        } else {
            None
        },
        None => None,
    }
}

/// Reads `s` as fields that are separated by `:`, each a hexadecimal group,
/// but that the last may be a dotted quad where `quad_allowed`.
pub fn parse_groups(s: &[u8], quad_allowed: bool) -> (r: Option<Vec<u16>>)
    ensures
        seq_of(r) == groups(s@, quad_allowed),
{
    let mut out: Vec<u16> = Vec::new();
    let mut rest: &[u8] = s;
    proof {
        lemma_prepend_nothing(groups(s@, quad_allowed));
    }
    loop
        invariant
            groups(s@, quad_allowed) == prepend(Some(out@), groups(rest@, quad_allowed)),
        decreases rest@.len(),
    {
        let p = find_byte(rest, COLON);
        let ghost before = out@;
        if p >= rest.len() {
            match parse_hex_group(rest) {
                Some(group) => {
                    out.push(group);
                    assert(out@ =~= before + seq![group]);
                    return Some(out);
                },
                None => {},
            }
            if !quad_allowed {
                return None;
            }
            match parse_ipv4(rest) {
                Some(quad) => {
                    out.push(quad[0] as u16 * 256 + quad[1] as u16);
                    out.push(quad[2] as u16 * 256 + quad[3] as u16);
                    assert(out@ =~= before + groups_of_quad(quad@));
                    return Some(out);
                },
                None => {
                    return None;
                },
            }
        }
        let field = slice_subrange(rest, 0, p);
        assert(field@ =~= rest@.take(p as int));
        match parse_hex_group(field) {
            None => {
                return None;
            },
            Some(group) => {
                out.push(group);
            },
        }
        let ghost after = rest@.skip(p + 1);
        proof {
            assert(out@ =~= before + seq![out@.last()]);
            lemma_prepend_twice(before, seq![out@.last()], groups(after, quad_allowed));
        }
        rest = slice_subrange(rest, p + 1, rest.len());
        assert(rest@ =~= after);
    }
}

/// Reads one side of a `::`; an empty side holds no group.
pub fn parse_side(s: &[u8], quad_allowed: bool) -> (r: Option<Vec<u16>>)
    ensures
        seq_of(r) == side_groups(s@, quad_allowed),
{
    if s.len() == 0 {
        let none: Vec<u16> = Vec::new();
        assert(none@ =~= Seq::<u16>::empty());
        Some(none)
    } else {
        parse_groups(s, quad_allowed)
    }
}

/// Whether a `::` stands at index `i` of `s`.
pub open spec fn gap_at(s: Seq<u8>, i: int) -> bool {
    0 <= i && i + 1 < s.len() && s[i] == COLON && s[i + 1] == COLON
}

/// The first `::` stands where none stands before.
pub proof fn lemma_find_gap(s: Seq<u8>, i: int)
    requires
        0 <= i <= s.len(),
        forall|j: int| 0 <= j < i ==> !gap_at(s, j),
        gap_at(s, i) || i >= s.len() - 1,
    ensures
        find_gap(s) == if gap_at(s, i) {
            i
        } else {
            s.len() as int
        },
    decreases s.len(),
{
    if s.len() >= 2 && !gap_at(s, 0) {
        let t = s.drop_first();
        assert forall|j: int| 0 <= j < i - 1 implies !gap_at(t, j) by {
            assert(!gap_at(s, j + 1));
        }
        if gap_at(s, i) {
            assert(gap_at(t, i - 1));
        }
        lemma_find_gap(t, i - 1);
    }
}

/// Finds the first `::` in `s`; the length of `s` where there is none.
pub fn find_double_colon(s: &[u8]) -> (p: usize)
    ensures
        p == find_gap(s@),
        p < s@.len() ==> p + 2 <= s@.len(),
        p <= s@.len(),
{
    let len = s.len();
    let mut i: usize = 0;
    while len - i > 1
        invariant
            len == s@.len(),
            i <= len,
            forall|j: int| 0 <= j < i ==> !gap_at(s@, j),
        decreases len - i,
    {
        if s[i] == COLON && s[i + 1] == COLON {
            proof {
                lemma_find_gap(s@, i as int);
            }
            return i;
        }
        i += 1;
    }
    proof {
        lemma_find_gap(s@, i as int);
    }
    len
}

/// Reads `s` as an IPv6 address in colon-hex text and returns its eight
/// groups.
pub fn parse_ipv6(s: &[u8]) -> (r: Option<Vec<u16>>)
    ensures
        seq_of(r) == ipv6_groups(s@),
{
    let p = find_double_colon(s);
    if p >= s.len() {
        return match parse_groups(s, true) {
            Some(all) => if all.len() == 8 {
                Some(all)
            } else {
                None
            },
            None => None,
        };
    }
    let before = slice_subrange(s, 0, p);
    let after = slice_subrange(s, p + 2, s.len());
    assert(before@ =~= s@.take(p as int));
    assert(after@ =~= s@.skip(p + 2));
    let head = match parse_side(before, false) {
        Some(head) => head,
        None => {
            return None;
        },
    };
    let tail = match parse_side(after, true) {
        Some(tail) => tail,
        None => {
            return None;
        },
    };
    if head.len() > 7 || tail.len() > 7 - head.len() {
        return None;
    }
    let zeros: usize = 8 - head.len() - tail.len();
    let mut out: Vec<u16> = head;
    let mut i: usize = 0;
    while i < zeros
        invariant
            i <= zeros,
            out@ == head@ + Seq::new(i as nat, |k: int| 0u16),
        decreases zeros - i,
    {
        out.push(0);
        i += 1;
        assert(out@ =~= head@ + Seq::new(i as nat, |k: int| 0u16));
    }
    let mut j: usize = 0;
    while j < tail.len()
        invariant
            j <= tail@.len(),
            out@ == head@ + Seq::new(zeros as nat, |k: int| 0u16) + tail@.take(j as int),
        decreases tail@.len() - j,
    {
        out.push(tail[j]);
        j += 1;
        assert(out@ =~= head@ + Seq::new(zeros as nat, |k: int| 0u16) + tail@.take(j as int));
    }
    assert(tail@.take(j as int) =~= tail@);
    Some(out)
}

/// Reads `s` as an IPv4 or IPv6 address and returns its octets in network
/// order.
pub fn parse_ip(s: &[u8]) -> (r: Option<Vec<u8>>)
    ensures
        seq_of(r) == ip_octets(s@),
{
    match parse_ipv4(s) {
        Some(octets) => {
            return Some(octets);
        },
        None => {},
    }
    let groups = match parse_ipv6(s) {
        Some(groups) => groups,
        None => {
            return None;
        },
    };
    let mut out: Vec<u8> = Vec::new();
    let mut i: usize = 0;
    while i < groups.len()
        invariant
            i <= groups@.len(),
            out@ == octets_of_groups(groups@.take(i as int)),
        decreases groups@.len() - i,
    {
        let group = groups[i];
        out.push((group / 256) as u8);
        out.push((group % 256) as u8);
        i += 1;
        assert(out@ =~= octets_of_groups(groups@.take(i as int)));
    }
    assert(groups@.take(i as int) =~= groups@);
    Some(out)
}

} // verus!

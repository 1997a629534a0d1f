//! How addresses are spelled: the one dotted-quad text of an IPv4 address,
//! and the full colon-hex text of an IPv6 address.

use crate::text::{
    decimal_octet,
    digit,
    dotted,
    find,
    gap_at,
    groups,
    groups_of_quad,
    hex_group,
    ip_octets,
    ipv4_octets,
    ipv6_groups,
    lemma_find_gap,
    number,
    octets_of_groups,
    side_groups,
    COLON,
    DOT,
};
use vstd::prelude::*;

verus! {

/// The decimal text of an octet, without leading zeros.
pub open spec fn decimal_text(n: u8) -> Seq<u8> {
    if n < 10 {
        seq![(0x30 + n) as u8]
    } else if n < 100 {
        seq![(0x30 + n / 10) as u8, (0x30 + n % 10) as u8]
    } else {
        seq![(0x30 + n / 100) as u8, (0x30 + (n / 10) % 10) as u8, (0x30 + n % 10) as u8]
    }
}

/// The dotted-quad text of four octets.
pub open spec fn quad_text(octets: Seq<u8>) -> Seq<u8> {
    decimal_text(octets[0]) + seq![DOT] + decimal_text(octets[1]) + seq![DOT] + decimal_text(
        octets[2],
    ) + seq![DOT] + decimal_text(octets[3])
}

/// Whether no octet of `s` is `sep`.
pub open spec fn free_of(s: Seq<u8>, sep: u8) -> bool {
    forall|i: int| 0 <= i < s.len() ==> s[i] != sep
}

/// A text without the separator is one field.
pub proof fn lemma_find_none(s: Seq<u8>, sep: u8)
    requires
        free_of(s, sep),
    ensures
        find(s, sep) == s.len(),
    decreases s.len(),
{
    if s.len() > 0 {
        assert(s[0] != sep);
        assert forall|i: int| 0 <= i < s.drop_first().len() implies s.drop_first()[i] != sep by {
            assert(s.drop_first()[i] == s[i + 1]);
        }
        lemma_find_none(s.drop_first(), sep);
    }
}

/// In a field, a separator and a rest, the first separator is the one after
/// the field.
pub proof fn lemma_find_after_field(field: Seq<u8>, sep: u8, rest: Seq<u8>)
    requires
        free_of(field, sep),
    ensures
        find(field + seq![sep] + rest, sep) == field.len(),
        (field + seq![sep] + rest).take(field.len() as int) == field,
        (field + seq![sep] + rest).skip(field.len() as int + 1) == rest,
    decreases field.len(),
{
    let s = field + seq![sep] + rest;
    assert(s.take(field.len() as int) =~= field);
    assert(s.skip(field.len() as int + 1) =~= rest);
    if field.len() > 0 {
        assert(s[0] == field[0]);
        assert forall|i: int| 0 <= i < field.drop_first().len() implies field.drop_first()[i]
            != sep by {
            assert(field.drop_first()[i] == field[i + 1]);
        }
        lemma_find_after_field(field.drop_first(), sep, rest);
        assert(s.drop_first() =~= field.drop_first() + seq![sep] + rest);
    } else {
        assert(s[0] == sep);
    }
}

/// The first separator of a text is a separator, and none stands before it.
pub proof fn lemma_find_is_first(s: Seq<u8>, sep: u8)
    ensures
        0 <= find(s, sep) <= s.len(),
        find(s, sep) < s.len() ==> s[find(s, sep)] == sep,
        free_of(s.take(find(s, sep)), sep),
    decreases s.len(),
{
    if s.len() > 0 && s[0] != sep {
        let t = s.drop_first();
        lemma_find_is_first(t, sep);
        let p = find(t, sep);
        let head = s.take(p + 1);
        assert forall|i: int| 0 <= i < head.len() implies head[i] != sep by {
            if i > 0 {
                assert(head[i] == t.take(p)[i - 1]);
            }
        }
    }
}

/// The decimal text of an octet spells that octet.
pub proof fn lemma_decimal_text_spells(n: u8)
    ensures
        decimal_octet(decimal_text(n)) == Some(n),
        free_of(decimal_text(n), DOT),
        1 <= decimal_text(n).len() <= 3,
{
    let t = decimal_text(n);
    reveal_with_fuel(number, 4);
    assert forall|i: int| 0 <= i < t.len() implies (#[trigger] digit(t[i], 10)) is Some by {}
    if n < 10 {
        assert(t.drop_last() =~= Seq::<u8>::empty());
    } else if n < 100 {
        assert(t.drop_last() =~= seq![(0x30 + n / 10) as u8]);
        assert(t.drop_last().drop_last() =~= Seq::<u8>::empty());
    } else {
        assert(t.drop_last() =~= seq![(0x30 + n / 100) as u8, (0x30 + (n / 10) % 10) as u8]);
        assert(t.drop_last().drop_last() =~= seq![(0x30 + n / 100) as u8]);
        assert(t.drop_last().drop_last().drop_last() =~= Seq::<u8>::empty());
    }
}

/// A field that spells an octet is the decimal text of that octet: an octet
/// has one spelling only.
pub proof fn lemma_decimal_octet_is_text(s: Seq<u8>)
    requires
        decimal_octet(s) is Some,
    ensures
        s == decimal_text(decimal_octet(s).unwrap()),
{
    reveal_with_fuel(number, 4);
    assert forall|i: int| 0 <= i < s.len() implies 0x30 <= #[trigger] s[i] <= 0x39 by {
        assert(digit(s[i], 10) is Some);
    }
    if s.len() == 1 {
        assert(s.drop_last() =~= Seq::<u8>::empty());
        assert(s =~= decimal_text(decimal_octet(s).unwrap()));
    } else if s.len() == 2 {
        assert(s.drop_last() =~= seq![s[0]]);
        assert(s.drop_last().drop_last() =~= Seq::<u8>::empty());
        assert(s =~= decimal_text(decimal_octet(s).unwrap()));
    } else {
        assert(s.drop_last() =~= seq![s[0], s[1]]);
        assert(s.drop_last().drop_last() =~= seq![s[0]]);
        assert(s.drop_last().drop_last().drop_last() =~= Seq::<u8>::empty());
        assert(s =~= decimal_text(decimal_octet(s).unwrap()));
    }
}

/// The text of one or more octets in decimal, separated by `.`.
pub open spec fn dotted_text(octets: Seq<u8>) -> Seq<u8>
    decreases octets.len(),
{
    if octets.len() == 0 {
        Seq::empty()
    } else if octets.len() == 1 {
        decimal_text(octets[0])
    } else {
        decimal_text(octets[0]) + seq![DOT] + dotted_text(octets.drop_first())
    }
}

/// The dotted text of octets spells those octets.
pub proof fn lemma_dotted_text_spells(octets: Seq<u8>)
    requires
        octets.len() >= 1,
    ensures
        dotted(dotted_text(octets)) == Some(octets),
    decreases octets.len(),
{
    let first = decimal_text(octets[0]);
    lemma_decimal_text_spells(octets[0]);
    if octets.len() == 1 {
        lemma_find_none(first, DOT);
        assert(seq![octets[0]] =~= octets);
    } else {
        let rest = dotted_text(octets.drop_first());
        lemma_dotted_text_spells(octets.drop_first());
        lemma_find_after_field(first, DOT, rest);
        assert(seq![octets[0]] + octets.drop_first() =~= octets);
    }
}

/// A text that spells octets is the dotted text of those octets.
pub proof fn lemma_dotted_is_text(s: Seq<u8>)
    requires
        dotted(s) is Some,
    ensures
        dotted(s).unwrap().len() >= 1,
        s == dotted_text(dotted(s).unwrap()),
    decreases s.len(),
{
    let p = find(s, DOT);
    lemma_find_is_first(s, DOT);
    if 0 <= p < s.len() {
        let field = s.take(p);
        let rest = s.skip(p + 1);
        lemma_decimal_octet_is_text(field);
        lemma_dotted_is_text(rest);
        let octets = dotted(s).unwrap();
        assert(octets =~= seq![decimal_octet(field).unwrap()] + dotted(rest).unwrap());
        assert(octets.drop_first() =~= dotted(rest).unwrap());
        assert(s =~= field + seq![DOT] + rest);
    } else {
        lemma_decimal_octet_is_text(s);
    }
}

/// The dotted text of four octets is their dotted quad.
pub proof fn lemma_quad_text(octets: Seq<u8>)
    requires
        octets.len() == 4,
    ensures
        dotted_text(octets) == quad_text(octets),
{
    reveal_with_fuel(dotted_text, 5);
    let a = octets.drop_first();
    let b = a.drop_first();
    let c = b.drop_first();
    assert(a[0] == octets[1] && b[0] == octets[2] && c[0] == octets[3]);
    assert(dotted_text(octets) =~= quad_text(octets));
}

/// A text spells an IPv4 address exactly when it is the dotted quad of the
/// four octets of that address: every address has one text, and the text
/// gives the octets in network order.
pub proof fn lemma_ipv4_text(s: Seq<u8>, octets: Seq<u8>)
    ensures
        ipv4_octets(s) == Some(octets) <==> octets.len() == 4 && s == quad_text(octets),
        ipv4_octets(s) == Some(octets) ==> ip_octets(s) == Some(octets),
{
    if ipv4_octets(s) == Some(octets) {
        lemma_dotted_is_text(s);
        lemma_quad_text(octets);
    }
    if octets.len() == 4 && s == quad_text(octets) {
        lemma_quad_text(octets);
        lemma_dotted_text_spells(octets);
    }
}

/// A text without the separator is free of it up to its first separator,
/// which is its end.
proof fn lemma_free_of_whole(s: Seq<u8>, sep: u8)
    requires
        !(0 <= find(s, sep) < s.len()),
    ensures
        free_of(s, sep),
{
    lemma_find_is_first(s, sep);
    assert(s.take(s.len() as int) =~= s);
}

/// A hexadecimal group holds digits only.
proof fn lemma_hex_group_shape(s: Seq<u8>)
    requires
        hex_group(s) is Some,
    ensures
        s.len() >= 1,
        free_of(s, COLON),
{
    assert forall|i: int| 0 <= i < s.len() implies s[i] != COLON by {
        assert(digit(s[i], 16) is Some);
    }
}

/// A dotted text holds digits and dots only.
proof fn lemma_dotted_shape(s: Seq<u8>)
    requires
        dotted(s) is Some,
    ensures
        s.len() >= 1,
        free_of(s, COLON),
    decreases s.len(),
{
    let p = find(s, DOT);
    lemma_find_is_first(s, DOT);
    if 0 <= p < s.len() {
        let field = s.take(p);
        let rest = s.skip(p + 1);
        lemma_dotted_shape(rest);
        assert forall|i: int| 0 <= i < s.len() implies s[i] != COLON by {
            if i < p {
                assert(digit(field[i], 10) is Some);
            } else if i > p {
                assert(rest[i - p - 1] == s[i]);
            }
        }
    } else {
        assert forall|i: int| 0 <= i < s.len() implies s[i] != COLON by {
            assert(digit(s[i], 10) is Some);
        }
    }
}

/// A text with a `:` spells no IPv4 address.
pub proof fn lemma_colon_excludes_ipv4(s: Seq<u8>, i: int)
    requires
        0 <= i < s.len(),
        s[i] == COLON,
    ensures
        ipv4_octets(s) is None,
{
    if dotted(s) is Some {
        lemma_dotted_shape(s);
    }
}

/// A text that spells groups neither starts nor ends with `:`, and holds no
/// `::`.
pub proof fn lemma_groups_shape(s: Seq<u8>, quad_allowed: bool)
    requires
        groups(s, quad_allowed) is Some,
    ensures
        s.len() >= 1,
        s[0] != COLON,
        s.last() != COLON,
        forall|i: int| !gap_at(s, i),
    decreases s.len(),
{
    let p = find(s, COLON);
    lemma_find_is_first(s, COLON);
    if 0 <= p < s.len() {
        let field = s.take(p);
        let rest = s.skip(p + 1);
        lemma_hex_group_shape(field);
        lemma_groups_shape(rest, quad_allowed);
        assert(s[0] == field[0]);
        assert(s.last() == rest.last());
        assert forall|i: int| !gap_at(s, i) by {
            if 0 <= i < p {
                assert(s[i] == field[i]);
            } else if i == p {
                assert(s[p + 1] == rest[0]);
            } else if p < i && i + 1 < s.len() {
                assert(s[i] == rest[i - p - 1] && s[i + 1] == rest[i - p]);
                assert(!gap_at(rest, i - p - 1));
            }
        }
    } else {
        lemma_free_of_whole(s, COLON);
        if hex_group(s) is Some {
            lemma_hex_group_shape(s);
        } else {
            lemma_dotted_shape(s);
        }
    }
}

/// A text that spells eight groups, without `::`, is the text of the IPv6
/// address with those groups.
pub proof fn lemma_ipv6_text_in_full(s: Seq<u8>, all: Seq<u16>)
    requires
        groups(s, true) == Some(all),
        all.len() == 8,
    ensures
        ipv6_groups(s) == Some(all),
        ip_octets(s) == Some(octets_of_groups(all)),
{
    lemma_groups_shape(s, true);
    lemma_find_gap(s, s.len() as int);
    let p = find(s, COLON);
    lemma_find_is_first(s, COLON);
    assert(0 <= p < s.len());
    lemma_colon_excludes_ipv4(s, p);
}

/// Groups, `::` and more groups are the text of the IPv6 address with the
/// groups before, zero groups up to eight in all, and the groups after.
/// Either side may be empty; only the groups after may end in a dotted quad.
pub proof fn lemma_ipv6_text_with_gap(
    before: Seq<u8>,
    after: Seq<u8>,
    head: Seq<u16>,
    tail: Seq<u16>,
)
    requires
        side_groups(before, false) == Some(head),
        side_groups(after, true) == Some(tail),
        head.len() + tail.len() <= 7,
    ensures
        ipv6_groups(before + seq![COLON, COLON] + after) == Some(
            head + Seq::new((8 - head.len() - tail.len()) as nat, |i: int| 0u16) + tail,
        ),
        ip_octets(before + seq![COLON, COLON] + after) == Some(
            octets_of_groups(
                head + Seq::new((8 - head.len() - tail.len()) as nat, |i: int| 0u16) + tail,
            ),
        ),
{
    let s = before + seq![COLON, COLON] + after;
    let p = before.len() as int;
    assert(gap_at(s, p));
    if before.len() > 0 {
        lemma_groups_shape(before, false);
        assert forall|j: int| 0 <= j < p implies !gap_at(s, j) by {
            if j + 1 < p {
                assert(s[j] == before[j] && s[j + 1] == before[j + 1]);
                assert(!gap_at(before, j));
            } else {
                assert(s[j] == before.last());
            }
        }
    }
    lemma_find_gap(s, p);
    assert(s.take(p) =~= before);
    assert(s.skip(p + 2) =~= after);
    lemma_colon_excludes_ipv4(s, p);
}

/// The text of one or more fields, separated by `:`.
pub open spec fn colon_text(fields: Seq<Seq<u8>>) -> Seq<u8>
    decreases fields.len(),
{
    if fields.len() == 0 {
        Seq::empty()
    } else if fields.len() == 1 {
        fields[0]
    } else {
        fields[0] + seq![COLON] + colon_text(fields.drop_first())
    }
}

/// The groups that hexadecimal fields spell, one for each field.
pub open spec fn groups_of_fields(fields: Seq<Seq<u8>>) -> Seq<u16> {
    Seq::new(fields.len(), |i: int| hex_group(fields[i]).unwrap())
}

/// Whether every field is a hexadecimal group.
pub open spec fn all_hex(fields: Seq<Seq<u8>>) -> bool {
    forall|i: int| 0 <= i < fields.len() ==> (#[trigger] hex_group(fields[i])) is Some
}

/// Hexadecimal fields with `:` between them spell their groups, in order.
pub proof fn lemma_groups_of_fields(fields: Seq<Seq<u8>>, quad_allowed: bool)
    requires
        fields.len() >= 1,
        all_hex(fields),
    ensures
        groups(colon_text(fields), quad_allowed) == Some(groups_of_fields(fields)),
    decreases fields.len(),
{
    let first = fields[0];
    assert(hex_group(first) is Some);
    lemma_hex_group_shape(first);
    if fields.len() == 1 {
        lemma_find_none(first, COLON);
        assert(seq![hex_group(first).unwrap()] =~= groups_of_fields(fields));
    } else {
        let others = fields.drop_first();
        assert forall|i: int| 0 <= i < others.len() implies (#[trigger] hex_group(
            others[i],
        )) is Some by {
            assert(hex_group(fields[i + 1]) is Some);
        }
        lemma_groups_of_fields(others, quad_allowed);
        lemma_find_after_field(first, COLON, colon_text(others));
        assert(seq![hex_group(first).unwrap()] + groups_of_fields(others) =~= groups_of_fields(
            fields,
        ));
    }
}

/// A dotted quad is no hexadecimal group and holds no `:`.
proof fn lemma_quad_text_shape(octets: Seq<u8>)
    requires
        octets.len() == 4,
    ensures
        hex_group(quad_text(octets)) is None,
        free_of(quad_text(octets), COLON),
        ipv4_octets(quad_text(octets)) == Some(octets),
{
    let s = quad_text(octets);
    lemma_ipv4_text(s, octets);
    lemma_dotted_shape(s);
    let k = decimal_text(octets[0]).len() as int;
    assert(s[k] == DOT);
    assert(digit(s[k], 16) is None);
}

/// Hexadecimal fields and then a dotted quad, with `:` between them, spell
/// the groups of the fields and then the two groups of the quad.
pub proof fn lemma_groups_of_fields_and_quad(fields: Seq<Seq<u8>>, octets: Seq<u8>)
    requires
        all_hex(fields),
        octets.len() == 4,
    ensures
        groups(colon_text(fields.push(quad_text(octets))), true) == Some(
            groups_of_fields(fields) + groups_of_quad(octets),
        ),
    decreases fields.len(),
{
    let quad = quad_text(octets);
    let all = fields.push(quad);
    lemma_quad_text_shape(octets);
    if fields.len() == 0 {
        lemma_find_none(quad, COLON);
        assert(groups_of_fields(fields) + groups_of_quad(octets) =~= groups_of_quad(octets));
    } else {
        let first = fields[0];
        let others = fields.drop_first();
        assert(hex_group(first) is Some);
        lemma_hex_group_shape(first);
        assert forall|i: int| 0 <= i < others.len() implies (#[trigger] hex_group(
            others[i],
        )) is Some by {
            assert(hex_group(fields[i + 1]) is Some);
        }
        lemma_groups_of_fields_and_quad(others, octets);
        assert(all.drop_first() =~= others.push(quad));
        assert(all[0] == first);
        lemma_find_after_field(first, COLON, colon_text(others.push(quad)));
        assert(seq![hex_group(first).unwrap()] + (groups_of_fields(others) + groups_of_quad(
            octets,
        )) =~= groups_of_fields(fields) + groups_of_quad(octets));
    }
}

} // verus!

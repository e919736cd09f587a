//! How numbers, names, addresses and data are written for people.
use crate::addr::{
    colon_groups, groups_text, ip_of_text, is_mapped, lemma_groups_count, longest_from, read_digits,
    read_dot_octet, read_groups, read_octet, read_v4, read_v6, segments, v4_text, v6_text, zeros_from,
};
use crate::dns::name::{byte_text, dotted, label_text, name_of_text, name_text, reverse_name, split, wire_len, Labels};
use crate::dns::record::{hex_pairs, rdata_text, RDataView};
use crate::dns::rtype::rtype_text;
use crate::text::{
    chars, dec, digit_run, digit_value, digits_value, hex, lemma_dec_digits, lemma_hex_digits, uint_of,
};
use vstd::prelude::*;

verus! {

// Numbers.

/// What a digit counts.
pub open spec fn counts(b: u8) -> int {
    if b <= 0x39 {
        b - 0x30
    } else {
        b - 0x57
    }
}

/// What digits count together, each place a base times the next.
pub open spec fn worth(b: Seq<u8>, base: int) -> int
    decreases b.len(),
{
    if b.len() == 0 {
        0
    } else {
        worth(b.drop_last(), base) * base + counts(b.last())
    }
}

proof fn lemma_worth(b: Seq<u8>, base: nat)
    requires
        base == 10 || base == 16,
        forall|i: int| 0 <= i < b.len() ==> 0x30 <= #[trigger] b[i] <= 0x39 || (base == 16 && 0x61 <= b[i] <= 0x66),
    ensures
        worth(b, base as int) == digits_value(b, base),
    decreases b.len(),
{
    if b.len() > 0 {
        let c = b.drop_last();
        assert forall|i: int| 0 <= i < c.len() implies 0x30 <= #[trigger] c[i] <= 0x39 || (base == 16 && 0x61 <= c[i]
            <= 0x66) by {
            assert(c[i] == b[i]);
        }
        lemma_worth(c, base);
        assert(b.last() == b[b.len() - 1]);
        assert(digit_value(b.last(), base)->0 == counts(b.last()));
    }
}

/// A number is written in digits that count it, without zeros in front.
pub proof fn law_decimal(n: nat)
    ensures
        dec(n).len() > 0,
        forall|i: int| 0 <= i < dec(n).len() ==> 0x30 <= #[trigger] dec(n)[i] <= 0x39,
        worth(dec(n), 10) == n,
        dec(n).len() > 1 ==> dec(n)[0] != 0x30,
{
    lemma_dec_digits(n);
    lemma_worth(dec(n), 10);
}

/// A number in hexadecimal, likewise, in lower case.
pub proof fn law_hexadecimal(n: nat)
    ensures
        hex(n).len() > 0,
        forall|i: int|
            0 <= i < hex(n).len() ==> 0x30 <= #[trigger] hex(n)[i] <= 0x39 || 0x61 <= hex(n)[i] <= 0x66,
        worth(hex(n), 16) == n,
        hex(n).len() > 1 ==> hex(n)[0] != 0x30,
    decreases n,
{
    lemma_hex_digits(n);
    lemma_worth(hex(n), 16);
    if n >= 16 {
        law_hexadecimal(n / 16);
        let h = hex(n / 16);
        assert(hex(n)[0] == h[0]);
        if h[0] == 0x30 {
            assert(h.len() == 1);
            reveal_with_fuel(worth, 2);
            assert(worth(h, 16) == 0);
        }
    }
}

/// Digits are 0 to 9, and in hexadecimal A to F, in either case.
pub proof fn law_digits(b: u8)
    ensures
        digit_value(b, 10) is Some <==> 0x30 <= b <= 0x39,
        digit_value(b, 16) is Some <==> 0x30 <= b <= 0x39 || 0x61 <= b <= 0x66 || 0x41 <= b <= 0x46,
        0x30 <= b <= 0x39 ==> digit_value(b, 10) == Some((b - 0x30) as nat) && digit_value(b, 16) == Some(
            (b - 0x30) as nat,
        ),
        0x61 <= b <= 0x66 ==> digit_value(b, 16) == Some((b - 0x61 + 10) as nat) && digit_value((b - 32) as u8, 16)
            == Some((b - 0x61 + 10) as nat),
{
}

/// Bytes are written as two hexadecimal digits each.
pub proof fn law_hexadecimal_pairs(b: Seq<u8>)
    ensures
        hex_pairs(b).len() == 2 * b.len(),
        forall|i: int|
            0 <= i < b.len() ==> counts(hex_pairs(b)[2 * i]) * 16 + counts(hex_pairs(b)[2 * i + 1]) == #[trigger] b[i],
    decreases b.len(),
{
    if b.len() > 0 {
        let c = b.drop_last();
        law_hexadecimal_pairs(c);
        assert forall|i: int| 0 <= i < b.len() implies counts(hex_pairs(b)[2 * i]) * 16 + counts(
            hex_pairs(b)[2 * i + 1],
        ) == #[trigger] b[i] by {
            if i < c.len() {
                assert(c[i] == b[i]);
                assert(hex_pairs(b)[2 * i] == hex_pairs(c)[2 * i]);
                assert(hex_pairs(b)[2 * i + 1] == hex_pairs(c)[2 * i + 1]);
            }
        }
    }
}

proof fn lemma_run(s: Seq<u8>, base: nat)
    ensures
        digit_run(s, base) <= s.len(),
        forall|i: int| 0 <= i < digit_run(s, base) ==> digit_value(#[trigger] s[i], base) is Some,
        digit_run(s, base) < s.len() ==> digit_value(s[digit_run(s, base) as int], base) is None,
    decreases s.len(),
{
    if s.len() > 0 && digit_value(s[0], base) is Some {
        let t = s.skip(1);
        lemma_run(t, base);
        assert forall|i: int| 0 <= i < digit_run(s, base) implies digit_value(#[trigger] s[i], base) is Some by {
            if i > 0 {
                assert(t[i - 1] == s[i]);
            }
        }
        if digit_run(s, base) < s.len() {
            assert(t[digit_run(t, base) as int] == s[digit_run(s, base) as int]);
        }
    }
}

/// A number is read where a text is digits and nothing else, a plus sign before them
/// allowed, that count no more than is wanted; it is what they count.
pub proof fn law_numbers_are_read(b: Seq<u8>, max: nat)
    ensures
        ({
            let d = if b.len() > 0 && b[0] == 0x2b {
                b.skip(1)
            } else {
                b
            };
            &&& uint_of(b, max) is Some <==> d.len() > 0 && only_digits(d) && worth(d, 10) <= max
            &&& uint_of(b, max) matches Some(n) ==> n == worth(d, 10)
        }),
{
    if b.len() > 0 && b[0] == 0x2b {
        lemma_only_digits(b.skip(1));
    } else {
        lemma_only_digits(b);
    }
}

/// Whether bytes are decimal digits.
pub open spec fn only_digits(d: Seq<u8>) -> bool {
    forall|i: int| 0 <= i < d.len() ==> 0x30 <= #[trigger] d[i] <= 0x39
}

proof fn lemma_only_digits(d: Seq<u8>)
    ensures
        digit_run(d, 10) <= d.len(),
        digit_run(d, 10) == d.len() <==> only_digits(d),
        only_digits(d) ==> worth(d, 10) == digits_value(d, 10),
{
    lemma_run(d, 10);
    let k = digit_run(d, 10) as int;
    if only_digits(d) {
        lemma_worth(d, 10);
        if k < d.len() {
            assert(0x30 <= d[k] <= 0x39);
        }
    }
    if k == d.len() {
        assert forall|i: int| 0 <= i < d.len() implies 0x30 <= #[trigger] d[i] <= 0x39 by {
            assert(digit_value(d[i], 10) is Some);
        }
    }
}

// Words.

/// Byte strings one after the other, a byte between each two.
pub open spec fn joined(p: Seq<Seq<u8>>, by: u8) -> Seq<u8>
    decreases p.len(),
{
    if p.len() == 0 {
        Seq::empty()
    } else if p.len() == 1 {
        p[0]
    } else {
        joined(p.drop_last(), by) + seq![by] + p.last()
    }
}

proof fn lemma_joined_push(p: Seq<Seq<u8>>, l: Seq<u8>, by: u8)
    requires
        p.len() > 0,
    ensures
        joined(p.push(l), by) == joined(p, by) + seq![by] + l,
{
    assert(p.push(l).drop_last() =~= p);
}

// Names.

/// A label is written byte by byte: what can be seen stands for itself, a dot and
/// a backslash behind a backslash, and the rest as three digits behind one.
pub proof fn law_label_text(l: Seq<u8>)
    ensures
        label_text(l) == l.flat_map(|b: u8| byte_text(b)),
        forall|b: u8| 0x21 <= b <= 0x7e && b != 0x2e && b != 0x5c ==> #[trigger] byte_text(b) == seq![b],
        byte_text(0x2e) == seq![0x5cu8, 0x2e],
        byte_text(0x5c) == seq![0x5cu8, 0x5c],
        forall|b: u8|
            b < 0x21 || b > 0x7e ==> {
                let t = #[trigger] byte_text(b);
                t.len() == 4 && t[0] == 0x5c && worth(t.skip(1), 10) == b
            },
    decreases l.len(),
{
    let f = |b: u8| byte_text(b);
    if l.len() == 0 {
        assert(l.map_values(f) =~= Seq::empty());
        assert(label_text(l) =~= l.flat_map(f));
    } else {
        let m = l.drop_last();
        law_label_text(m);
        assert(l.map_values(f) =~= m.map_values(f).push(f(l.last())));
        m.map_values(f).lemma_flatten_push(f(l.last()));
        assert(l.flat_map(f) =~= m.flat_map(f) + f(l.last()));
    }
    assert forall|b: u8| b < 0x21 || b > 0x7e implies {
        let t = #[trigger] byte_text(b);
        t.len() == 4 && t[0] == 0x5c && worth(t.skip(1), 10) == b
    } by {
        let t = byte_text(b);
        let u = t.skip(1);
        reveal_with_fuel(worth, 4);
        assert(u =~= seq![(0x30 + b / 100) as u8, (0x30 + b / 10 % 10) as u8, (0x30 + b % 10) as u8]);
        assert(u.drop_last() =~= seq![(0x30 + b / 100) as u8, (0x30 + b / 10 % 10) as u8]);
        assert(u.drop_last().drop_last() =~= seq![(0x30 + b / 100) as u8]);
        assert(u.drop_last().drop_last().drop_last() =~= Seq::<u8>::empty());
    }
}

/// A name is written as its labels with dots between them, and the root as a dot.
pub proof fn law_name_text(n: Labels)
    ensures
        n.len() == 0 ==> name_text(n) == seq![0x2eu8],
        n.len() > 0 ==> name_text(n) == joined(n.map_values(|l: Seq<u8>| label_text(l)), 0x2e),
{
    if n.len() > 0 {
        lemma_dotted(n);
    }
}

proof fn lemma_dotted(n: Labels)
    requires
        n.len() > 0,
    ensures
        dotted(n) == joined(n.map_values(|l: Seq<u8>| label_text(l)), 0x2e),
    decreases n.len(),
{
    let f = |l: Seq<u8>| label_text(l);
    if n.len() > 1 {
        lemma_dotted(n.drop_last());
        assert(n.map_values(f).drop_last() =~= n.drop_last().map_values(f));
    }
}

proof fn lemma_split_some(b: Seq<u8>)
    ensures
        split(b).len() > 0,
    decreases b.len(),
{
    if b.len() > 0 {
        lemma_split_some(b.drop_last());
    }
}

/// What is without dots belongs to the last piece of what it stands behind.
proof fn lemma_split_more(b: Seq<u8>, l: Seq<u8>)
    requires
        forall|i: int| 0 <= i < l.len() ==> #[trigger] l[i] != 0x2e,
    ensures
        split(b + l) == split(b).drop_last().push(split(b).last() + l),
    decreases l.len(),
{
    lemma_split_some(b);
    if l.len() == 0 {
        assert(b + l =~= b);
        assert(split(b).last() + l =~= split(b).last());
        assert(split(b).drop_last().push(split(b).last()) =~= split(b));
    } else {
        let m = l.drop_last();
        assert forall|i: int| 0 <= i < m.len() implies #[trigger] m[i] != 0x2e by {
            assert(m[i] == l[i]);
        }
        lemma_split_more(b, m);
        assert((b + l).drop_last() =~= b + m);
        assert((b + l).last() == l.last());
        assert(l[l.len() - 1] != 0x2e);
        let p = split(b + m);
        assert(p.drop_last() =~= split(b).drop_last());
        assert(p.last().push(l.last()) =~= split(b).last() + l);
    }
}

proof fn lemma_split_joined(n: Labels)
    requires
        n.len() > 0,
        forall|i: int, j: int| 0 <= i < n.len() && 0 <= j < n[i].len() ==> #[trigger] n[i][j] != 0x2e,
    ensures
        split(joined(n, 0x2e)) == n,
    decreases n.len(),
{
    let none = Seq::<u8>::empty();
    let l = n.last();
    assert forall|j: int| 0 <= j < l.len() implies #[trigger] l[j] != 0x2e by {
        assert(n[n.len() - 1][j] != 0x2e);
    }
    if n.len() == 1 {
        lemma_split_more(none, l);
        assert(none + l =~= joined(n, 0x2e));
        assert(split(none) =~= seq![none]);
        assert(none + l =~= l);
        assert(split(none).drop_last().push(l) =~= n);
    } else {
        let m = n.drop_last();
        assert forall|i: int, j: int| 0 <= i < m.len() && 0 <= j < m[i].len() implies #[trigger] m[i][j] != 0x2e by {
            assert(n[i][j] != 0x2e);
        }
        lemma_split_joined(m);
        let b = joined(m, 0x2e) + seq![0x2eu8];
        assert(b.drop_last() =~= joined(m, 0x2e));
        assert(split(b) == m.push(none));
        lemma_split_more(b, l);
        assert(m.push(none).drop_last() =~= m);
        assert(none + l =~= l);
        assert(m.push(l) =~= n);
    }
}

/// A text of pieces between dots is the name of those labels exactly where each is
/// of 1 to 63 bytes and all take no more than 255 on the wire; a dot at the end
/// changes nothing.
pub proof fn law_names_are_read_between_dots(n: Labels)
    requires
        n.len() > 0,
        n.last().len() > 0,
        forall|i: int, j: int| 0 <= i < n.len() && 0 <= j < n[i].len() ==> #[trigger] n[i][j] != 0x2e,
    ensures
        name_of_text(joined(n, 0x2e)) is Ok <==> wire_len(n) <= 255 && forall|i: int|
            0 <= i < n.len() ==> 1 <= (#[trigger] n[i]).len() <= 63,
        name_of_text(joined(n, 0x2e)) matches Ok(m) ==> m == n,
        name_of_text(joined(n, 0x2e) + seq![0x2eu8]) == name_of_text(joined(n, 0x2e)),
{
    let b = joined(n, 0x2e);
    lemma_split_joined(n);
    assert(b.last() == n.last().last());
    assert(n[n.len() - 1][n.last().len() - 1] != 0x2e);
    assert((b + seq![0x2eu8]).drop_last() =~= b);
    if forall|i: int| 0 <= i < n.len() ==> 1 <= (#[trigger] n[i]).len() <= 63 {
        assert(forall|i: int| 0 <= i < n.len() ==> crate::dns::name::valid_label(#[trigger] n[i]));
    } else {
        let i = choose|i: int| 0 <= i < n.len() && !(1 <= (#[trigger] n[i]).len() <= 63);
        assert(!crate::dns::name::valid_label(n[i]));
    }
}

// Reverse names.

/// Whether a label is a word.
pub open spec fn reads(l: Seq<u8>, word: Seq<char>) -> bool {
    l.len() == word.len() && forall|i: int| 0 <= i < l.len() ==> (#[trigger] l[i]) as int == word[i] as int
}

/// The reverse name of an IPv4 address is its four bytes in decimal, the last
/// first, under `in-addr.arpa`.
pub proof fn law_reverse_names_of_four(a: Seq<u8>)
    requires
        a.len() == 4,
    ensures
        ({
            let n = reverse_name(a);
            &&& n.len() == 6
            &&& n[0] == dec(a[3] as nat) && n[1] == dec(a[2] as nat)
            &&& n[2] == dec(a[1] as nat) && n[3] == dec(a[0] as nat)
            &&& reads(n[4], "in-addr"@)
            &&& reads(n[5], "arpa"@)
        }),
{
    reveal_strlit("in-addr");
    reveal_strlit("arpa");
}

/// The reverse name of an IPv6 address is a hexadecimal digit for each half of a
/// byte, the low half of the last byte first, under `ip6.arpa`.
pub proof fn law_reverse_names_of_sixteen(a: Seq<u8>)
    requires
        a.len() == 16,
    ensures
        ({
            let n = reverse_name(a);
            &&& n.len() == 34
            &&& forall|i: int|
                #![trigger a[i]]
                0 <= i < 16 ==> {
                    &&& n[30 - 2 * i].len() == 1 && n[31 - 2 * i].len() == 1
                    &&& counts(n[31 - 2 * i][0]) * 16 + counts(n[30 - 2 * i][0]) == a[i]
                    &&& 0 <= counts(n[30 - 2 * i][0]) < 16
                }
            &&& reads(n[32], "ip6"@)
            &&& reads(n[33], "arpa"@)
        }),
{
    reveal_strlit("ip6");
    reveal_strlit("arpa");
    let n = reverse_name(a);
    assert forall|i: int|
        #![trigger a[i]]
        0 <= i < 16 implies {
        &&& n[30 - 2 * i].len() == 1 && n[31 - 2 * i].len() == 1
        &&& counts(n[31 - 2 * i][0]) * 16 + counts(n[30 - 2 * i][0]) == a[i]
        &&& 0 <= counts(n[30 - 2 * i][0]) < 16
    } by {
        assert(15 - (30 - 2 * i) / 2 == i);
        assert(15 - (31 - 2 * i) / 2 == i);
        assert((30 - 2 * i) % 2 == 0);
        assert((31 - 2 * i) % 2 == 1);
    }
}

// Types.

/// Each type has its name, and one without a name is told by its number.
pub proof fn law_type_names(t: u16)
    ensures
        rtype_text(1) == "A"@,
        rtype_text(2) == "NS"@,
        rtype_text(5) == "CNAME"@,
        rtype_text(6) == "SOA"@,
        rtype_text(12) == "PTR"@,
        rtype_text(15) == "MX"@,
        rtype_text(16) == "TXT"@,
        rtype_text(28) == "AAAA"@,
        rtype_text(33) == "SRV"@,
        rtype_text(41) == "OPT"@,
        rtype_text(255) == "ANY"@,
        t != 1 && t != 2 && t != 5 && t != 6 && t != 12 && t != 15 && t != 16 && t != 28 && t != 33 && t != 41 && t
            != 255 ==> rtype_text(t) == "TYPE"@ + chars(dec(t as nat)),
{
}

// Addresses.

/// An IPv4 address is its four bytes in decimal with dots between them.
pub proof fn law_v4_text(a: Seq<u8>)
    requires
        a.len() == 4,
    ensures
        v4_text(a) == joined(a.map_values(|b: u8| dec(b as nat)), 0x2e),
{
    let f = |b: u8| dec(b as nat);
    let p = a.map_values(f);
    let one = seq![f(a[0])];
    let two = one.push(f(a[1]));
    let three = two.push(f(a[2]));
    lemma_joined_push(one, f(a[1]), 0x2e);
    lemma_joined_push(two, f(a[2]), 0x2e);
    lemma_joined_push(three, f(a[3]), 0x2e);
    assert(p =~= three.push(f(a[3])));
}

/// Digits without zeros in front are how their number is written.
proof fn lemma_written_once(d: Seq<u8>)
    requires
        d.len() > 0,
        forall|i: int| 0 <= i < d.len() ==> 0x30 <= #[trigger] d[i] <= 0x39,
        d.len() > 1 ==> d[0] != 0x30,
    ensures
        dec(digits_value(d, 10)) == d,
    decreases d.len(),
{
    let p = d.drop_last();
    let x = d.last();
    assert(x == d[d.len() - 1]);
    assert(digit_value(x, 10)->0 == x - 0x30);
    if d.len() == 1 {
        assert(digits_value(p, 10) == 0);
        assert(dec(digits_value(d, 10)) =~= d);
    } else {
        assert forall|i: int| 0 <= i < p.len() implies 0x30 <= #[trigger] p[i] <= 0x39 by {
            assert(p[i] == d[i]);
        }
        lemma_written_once(p);
        let n = digits_value(p, 10);
        if n == 0 {
            assert(p[0] == 0x30);
        }
        assert(digits_value(d, 10) == n * 10 + (x - 0x30));
        assert((n * 10 + (x - 0x30)) / 10 == n);
        assert((n * 10 + (x - 0x30)) % 10 == x - 0x30);
        assert(dec(digits_value(d, 10)) =~= p.push(x));
    }
}

proof fn lemma_octet(s: Seq<u8>)
    ensures
        read_octet(s) matches Some((n, rest)) ==> n <= 255 && s == dec(n) + rest,
{
    reveal(read_octet);
    reveal(read_digits);
    if let Some((n, rest)) = read_octet(s) {
        lemma_run(s, 10);
        let k = digit_run(s, 10) as int;
        let d = s.take(k);
        assert forall|i: int| 0 <= i < d.len() implies 0x30 <= #[trigger] d[i] <= 0x39 by {
            assert(digit_value(s[i], 10) is Some);
        }
        assert(d[0] == s[0]);
        lemma_written_once(d);
        assert(s =~= d + rest);
    }
}

proof fn lemma_groups_are_eight(s: Seq<u8>)
    ensures
        read_v6(s) matches Some((g, _)) ==> g.len() == 8,
{
    lemma_groups_count(s, 0, 8);
    let (head, _, left) = read_groups(s, 0, 8);
    if head.len() < 8 && left.len() >= 2 {
        lemma_groups_count(left.skip(2), 0, (7 - head.len()) as nat);
    }
}

proof fn lemma_dot_octet(s: Seq<u8>)
    ensures
        read_dot_octet(s) matches Some((n, rest)) ==> n <= 255 && s == seq![0x2eu8] + dec(n) + rest,
{
    if let Some((n, rest)) = read_dot_octet(s) {
        lemma_octet(s.skip(1));
        assert(s =~= seq![0x2eu8] + (dec(n) + rest));
        assert(s =~= seq![0x2eu8] + dec(n) + rest);
    }
}

proof fn lemma_four_octets(s: Seq<u8>)
    ensures
        read_v4(s) matches Some((a, rest)) ==> rest.len() == 0 ==> s == v4_text(a),
{
    reveal(read_v4);
    if let Some((a, rest)) = read_v4(s) {
        let (n0, s1) = read_octet(s)->0;
        let (n1, s2) = read_dot_octet(s1)->0;
        let (n2, s3) = read_dot_octet(s2)->0;
        let (n3, s4) = read_dot_octet(s3)->0;
        lemma_octet(s);
        lemma_dot_octet(s1);
        lemma_dot_octet(s2);
        lemma_dot_octet(s3);
        if rest.len() == 0 {
            let dot = seq![0x2eu8];
            assert(s3 =~= dot + dec(n3));
            let t2 = dot + dec(n2) + s3;
            let t1 = dot + dec(n1) + t2;
            assert(s == dec(n0) + t1);
            assert(a[0] == n0 && a[1] == n1 && a[2] == n2 && a[3] == n3);
            assert(dec(n0) + t1 =~= dec(n0) + dot + dec(n1) + dot + dec(n2) + dot + dec(n3));
        }
    }
}

/// What reads as an IPv4 address is that address as it is written: there is no
/// other way to write one.
pub proof fn law_v4_is_written_one_way(s: Seq<u8>)
    ensures
        ip_of_text(s) matches Some(a) ==> a.len() == 4 ==> s == v4_text(a),
{
    lemma_groups_are_eight(s);
    lemma_four_octets(s);
}

proof fn lemma_colon_groups_push(g: Seq<u16>, x: u16)
    ensures
        colon_groups(g.push(x)) == colon_groups(g) + seq![0x3au8] + hex(x as nat),
    decreases g.len(),
{
    if g.len() == 0 {
        assert(g.push(x).skip(1) =~= g);
        assert(colon_groups(g.push(x)) =~= colon_groups(g) + seq![0x3au8] + hex(x as nat));
    } else {
        lemma_colon_groups_push(g.skip(1), x);
        assert(g.push(x).skip(1) =~= g.skip(1).push(x));
        assert(colon_groups(g.push(x)) =~= colon_groups(g) + seq![0x3au8] + hex(x as nat));
    }
}

proof fn lemma_groups(g: Seq<u16>)
    ensures
        groups_text(g) == joined(g.map_values(|x: u16| hex(x as nat)), 0x3a),
    decreases g.len(),
{
    let f = |x: u16| hex(x as nat);
    let p = g.map_values(f);
    if g.len() == 0 {
        assert(groups_text(g) =~= joined(p, 0x3a));
    } else if g.len() == 1 {
        assert(g.skip(1) =~= Seq::empty());
        assert(groups_text(g) =~= joined(p, 0x3a));
    } else {
        let h = g.drop_last();
        lemma_groups(h);
        lemma_colon_groups_push(h.skip(1), g.last());
        assert(g.skip(1) =~= h.skip(1).push(g.last()));
        assert(p.drop_last() =~= h.map_values(f));
        assert(groups_text(g) =~= groups_text(h) + seq![0x3au8] + f(g.last()));
    }
}

/// Whether groups are all zero from a place on.
pub open spec fn zeros_at(g: Seq<u16>, i: int, n: int) -> bool {
    0 <= i && 0 <= n && i + n <= g.len() && forall|j: int| i <= j < i + n ==> #[trigger] g[j] == 0
}

proof fn lemma_zeros(g: Seq<u16>, i: int)
    requires
        0 <= i <= g.len(),
    ensures
        zeros_at(g, i, zeros_from(g, i) as int),
        forall|n: int| #[trigger] zeros_at(g, i, n) ==> n <= zeros_from(g, i),
    decreases g.len() - i,
{
    if i < g.len() && g[i] == 0 {
        lemma_zeros(g, i + 1);
        assert forall|n: int| #[trigger] zeros_at(g, i, n) implies n <= zeros_from(g, i) by {
            if n > 0 {
                assert(zeros_at(g, i + 1, n - 1));
            }
        }
    } else {
        assert forall|n: int| #[trigger] zeros_at(g, i, n) implies n <= zeros_from(g, i) by {
            if n > 0 {
                assert(g[i] == 0);
            }
        }
    }
}

proof fn lemma_longest(g: Seq<u16>, i: int)
    requires
        0 <= i <= g.len(),
    ensures
        i <= longest_from(g, i) <= g.len(),
        forall|j: int|
            i <= j <= g.len() ==> #[trigger] zeros_from(g, j) <= zeros_from(g, longest_from(g, i)) && (zeros_from(g, j)
                == zeros_from(g, longest_from(g, i)) ==> longest_from(g, i) <= j),
    decreases g.len() - i,
{
    if i < g.len() {
        lemma_longest(g, i + 1);
    }
}

/// An IPv6 address is its eight pairs of bytes in hexadecimal with colons between
/// them, the longest run of two or more zeros, and the first of those, being
/// written as two colons; one that stands for an IPv4 address ends in that.
pub proof fn law_v6_text(a: Seq<u8>) -> (at: (int, int))
    requires
        a.len() == 16,
    ensures
        ({
            let g = Seq::new(8, |i: int| (a[2 * i] * 256 + a[2 * i + 1]) as u16);
            let words = |s: Seq<u16>| joined(s.map_values(|x: u16| hex(x as nat)), 0x3a);
            let (start, n) = at;
            let mapped = (forall|i: int| 0 <= i < 10 ==> #[trigger] a[i] == 0) && a[10] == 255 && a[11] == 255;
            &&& zeros_at(g, start, n)
            &&& forall|i: int, m: int| #[trigger]
                zeros_at(g, i, m) ==> m <= n && (m == n && i < 8 ==> start <= i)
            &&& mapped ==> v6_text(a) == seq![0x3au8, 0x3a, 0x66, 0x66, 0x66, 0x66, 0x3a] + joined(
                a.subrange(12, 16).map_values(|b: u8| dec(b as nat)),
                0x2e,
            )
            &&& !mapped && n > 1 ==> v6_text(a) == words(g.take(start)) + seq![0x3au8, 0x3a] + words(g.skip(start + n))
            &&& !mapped && n <= 1 ==> v6_text(a) == words(g)
        }),
{
    let g = segments(a);
    let start = longest_from(g, 0);
    let n = zeros_from(g, start) as int;
    lemma_longest(g, 0);
    lemma_zeros(g, start);
    assert(g =~= Seq::new(8, |i: int| (a[2 * i] * 256 + a[2 * i + 1]) as u16));
    assert forall|i: int, m: int| #[trigger] zeros_at(g, i, m) implies m <= n && (m == n && i < 8 ==> start <= i) by {
        lemma_zeros(g, i);
        assert(zeros_from(g, i) <= n);
    }
    law_v4_text(a.subrange(12, 16));
    if !is_mapped(a) {
        lemma_groups(g);
        lemma_groups(g.take(start));
        lemma_groups(g.skip(start + n));
    }
    (start, n)
}

// Data.

/// The parts of a record's data are written in order, with spaces between them.
pub proof fn law_data_text(d: RDataView)
    ensures
        match d {
            RDataView::A(a) => rdata_text(d) == chars(v4_text(a)),
            RDataView::Aaaa(a) => rdata_text(d) == chars(v6_text(a)),
            RDataView::Cname(n) => rdata_text(d) == chars(name_text(n)),
            RDataView::Ptr(n) => rdata_text(d) == chars(name_text(n)),
            RDataView::Ns(n) => rdata_text(d) == chars(name_text(n)),
            RDataView::Mx { preference, exchange } => rdata_text(d) == chars(
                joined(seq![dec(preference as nat), name_text(exchange)], 0x20),
            ),
            RDataView::Srv { priority, weight, port, target } => rdata_text(d) == chars(
                joined(seq![dec(priority as nat), dec(weight as nat), dec(port as nat), name_text(target)], 0x20),
            ),
            RDataView::Soa { mname, rname, serial, refresh, retry, expire, minimum } => rdata_text(d) == chars(
                joined(
                    seq![
                        name_text(mname),
                        name_text(rname),
                        dec(serial as nat),
                        dec(refresh as nat),
                        dec(retry as nat),
                        dec(expire as nat),
                        dec(minimum as nat),
                    ],
                    0x20,
                ),
            ),
            RDataView::Opt(b) => rdata_text(d) == chars(
                joined(seq![seq![0x5cu8, 0x23], dec(b.len()), hex_pairs(b)], 0x20),
            ),
            RDataView::Unknown(b) => rdata_text(d) == chars(
                joined(seq![seq![0x5cu8, 0x23], dec(b.len()), hex_pairs(b)], 0x20),
            ),
            RDataView::Txt(_) => true,
        },
{
    match d {
        RDataView::Mx { preference, exchange } => {
            let one = seq![dec(preference as nat)];
            lemma_joined_push(one, name_text(exchange), 0x20);
            assert(one.push(name_text(exchange)) =~= seq![dec(preference as nat), name_text(exchange)]);
        },
        RDataView::Srv { priority, weight, port, target } => {
            let one = seq![dec(priority as nat)];
            let two = one.push(dec(weight as nat));
            let three = two.push(dec(port as nat));
            lemma_joined_push(one, dec(weight as nat), 0x20);
            lemma_joined_push(two, dec(port as nat), 0x20);
            lemma_joined_push(three, name_text(target), 0x20);
            assert(three.push(name_text(target)) =~= seq![
                dec(priority as nat),
                dec(weight as nat),
                dec(port as nat),
                name_text(target),
            ]);
        },
        RDataView::Soa { mname, rname, serial, refresh, retry, expire, minimum } => {
            let w1 = seq![name_text(mname)];
            let w2 = w1.push(name_text(rname));
            let w3 = w2.push(dec(serial as nat));
            let w4 = w3.push(dec(refresh as nat));
            let w5 = w4.push(dec(retry as nat));
            let w6 = w5.push(dec(expire as nat));
            lemma_joined_push(w1, name_text(rname), 0x20);
            lemma_joined_push(w2, dec(serial as nat), 0x20);
            lemma_joined_push(w3, dec(refresh as nat), 0x20);
            lemma_joined_push(w4, dec(retry as nat), 0x20);
            lemma_joined_push(w5, dec(expire as nat), 0x20);
            lemma_joined_push(w6, dec(minimum as nat), 0x20);
            assert(w6.push(dec(minimum as nat)) =~= seq![
                name_text(mname),
                name_text(rname),
                dec(serial as nat),
                dec(refresh as nat),
                dec(retry as nat),
                dec(expire as nat),
                dec(minimum as nat),
            ]);
        },
        RDataView::Opt(b) => {
            lemma_raw(b);
        },
        RDataView::Unknown(b) => {
            lemma_raw(b);
        },
        _ => {},
    }
}

proof fn lemma_raw(b: Seq<u8>)
    ensures
        crate::dns::record::raw_text(b) == joined(seq![seq![0x5cu8, 0x23], dec(b.len()), hex_pairs(b)], 0x20),
{
    let one = seq![seq![0x5cu8, 0x23]];
    let two = one.push(dec(b.len()));
    lemma_joined_push(one, dec(b.len()), 0x20);
    lemma_joined_push(two, hex_pairs(b), 0x20);
    assert(two.push(hex_pairs(b)) =~= seq![seq![0x5cu8, 0x23], dec(b.len()), hex_pairs(b)]);
    assert(crate::dns::record::raw_text(b) =~= seq![0x5cu8, 0x23] + seq![0x20u8] + dec(b.len()) + seq![0x20u8]
        + hex_pairs(b));
}

} // verus!

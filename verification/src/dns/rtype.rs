//! Record types, as u16 so unknown ones pass through untouched.
use crate::octets;
use crate::text;
use vstd::prelude::*;
use vstd::slice::slice_subrange;
use vstd::utf8::*;

verus! {

pub const A: u16 = 1;

pub const NS: u16 = 2;

pub const CNAME: u16 = 5;

pub const SOA: u16 = 6;

pub const PTR: u16 = 12;

pub const MX: u16 = 15;

pub const TXT: u16 = 16;

pub const AAAA: u16 = 28;

pub const SRV: u16 = 33;

pub const OPT: u16 = 41;

pub const ANY: u16 = 255;

pub open spec fn rtype_text(t: u16) -> Seq<char> {
    if t == A {
        "A"@
    } else if t == NS {
        "NS"@
    } else if t == CNAME {
        "CNAME"@
    } else if t == SOA {
        "SOA"@
    } else if t == PTR {
        "PTR"@
    } else if t == MX {
        "MX"@
    } else if t == TXT {
        "TXT"@
    } else if t == AAAA {
        "AAAA"@
    } else if t == SRV {
        "SRV"@
    } else if t == OPT {
        "OPT"@
    } else if t == ANY {
        "ANY"@
    } else {
        "TYPE"@ + text::chars(text::dec(t as nat))
    }
}

pub fn name(t: u16) -> (s: String)
    ensures
        s@ == rtype_text(t),
{
    if t == A {
        "A".to_owned()
    } else if t == NS {
        "NS".to_owned()
    } else if t == CNAME {
        "CNAME".to_owned()
    } else if t == SOA {
        "SOA".to_owned()
    } else if t == PTR {
        "PTR".to_owned()
    } else if t == MX {
        "MX".to_owned()
    } else if t == TXT {
        "TXT".to_owned()
    } else if t == AAAA {
        "AAAA".to_owned()
    } else if t == SRV {
        "SRV".to_owned()
    } else if t == OPT {
        "OPT".to_owned()
    } else if t == ANY {
        "ANY".to_owned()
    } else {
        "TYPE".to_owned().concat(text::dec_string(t as u64).as_str())
    }
}

/// The type that a text in upper case names; the pseudo-type OPT has no name
/// here.
pub open spec fn rtype_of_upper(u: Seq<u8>) -> Option<u16> {
    let prefix = encode_utf8("TYPE"@);
    if u == encode_utf8("A"@) {
        Some(A)
    } else if u == encode_utf8("NS"@) {
        Some(NS)
    } else if u == encode_utf8("CNAME"@) {
        Some(CNAME)
    } else if u == encode_utf8("SOA"@) {
        Some(SOA)
    } else if u == encode_utf8("PTR"@) {
        Some(PTR)
    } else if u == encode_utf8("MX"@) {
        Some(MX)
    } else if u == encode_utf8("TXT"@) {
        Some(TXT)
    } else if u == encode_utf8("AAAA"@) {
        Some(AAAA)
    } else if u == encode_utf8("SRV"@) {
        Some(SRV)
    } else if u == encode_utf8("ANY"@) {
        Some(ANY)
    } else if u.len() >= prefix.len() && u.take(prefix.len() as int) == prefix {
        match text::uint_of(u.skip(prefix.len() as int), u16::MAX as nat) {
            Some(n) => Some(n as u16),
            None => None,
        }
    } else {
        None
    }
}

pub fn parse(s: &str) -> (r: Option<u16>)
    ensures
        r == rtype_of_upper(text::upper(encode_utf8(s@))),
{
    let upper = text::to_upper_bytes(s.as_bytes());
    let u = upper.as_slice();
    if octets::equal(u, "A".as_bytes()) {
        Some(A)
    } else if octets::equal(u, "NS".as_bytes()) {
        Some(NS)
    } else if octets::equal(u, "CNAME".as_bytes()) {
        Some(CNAME)
    } else if octets::equal(u, "SOA".as_bytes()) {
        Some(SOA)
    } else if octets::equal(u, "PTR".as_bytes()) {
        Some(PTR)
    } else if octets::equal(u, "MX".as_bytes()) {
        Some(MX)
    } else if octets::equal(u, "TXT".as_bytes()) {
        Some(TXT)
    } else if octets::equal(u, "AAAA".as_bytes()) {
        Some(AAAA)
    } else if octets::equal(u, "SRV".as_bytes()) {
        Some(SRV)
    } else if octets::equal(u, "ANY".as_bytes()) {
        Some(ANY)
    } else {
        let prefix = "TYPE".as_bytes();
        let n: usize = prefix.len();
        if u.len() < n || !octets::equal(slice_subrange(u, 0, n), prefix) {
            assert(u@.len() >= n ==> u@.subrange(0, n as int) =~= u@.take(n as int));
            return None;
        }
        assert(u@.subrange(0, n as int) =~= u@.take(n as int));
        assert(u@.subrange(n as int, u@.len() as int) =~= u@.skip(n as int));
        match text::parse_uint(slice_subrange(u, n, u.len()), u16::MAX as u64) {
            Some(v) => Some(v as u16),
            None => None,
        }
    }
}

/// A type's name reads back as the type, but for OPT's.
pub proof fn law_rtype_text(t: u16)
    requires
        t != OPT,
    ensures
        rtype_of_upper(text::upper(encode_utf8(rtype_text(t)))) == Some(t),
{
    lemma_words();
    let s = rtype_text(t);
    if t == A || t == NS || t == CNAME || t == SOA || t == PTR || t == MX || t == TXT || t == AAAA || t == SRV || t
        == ANY {
        lemma_capital(s, s.len() as int);
        text::lemma_bytes_determine_text(s, "A"@);
        text::lemma_bytes_determine_text(s, "NS"@);
        text::lemma_bytes_determine_text(s, "CNAME"@);
        text::lemma_bytes_determine_text(s, "SOA"@);
        text::lemma_bytes_determine_text(s, "PTR"@);
        text::lemma_bytes_determine_text(s, "MX"@);
        text::lemma_bytes_determine_text(s, "TXT"@);
        text::lemma_bytes_determine_text(s, "AAAA"@);
        text::lemma_bytes_determine_text(s, "SRV"@);
        text::lemma_bytes_determine_text(s, "ANY"@);
    } else {
        let d = text::dec(t as nat);
        text::lemma_dec_ascii(t as nat);
        text::lemma_ascii(d);
        text::lemma_uint_of_dec(t as nat, u16::MAX as nat);
        text::lemma_dec_digits(t as nat);
        let prefix = encode_utf8("TYPE"@);
        lemma_capital("TYPE"@, 4);
        assert(is_ascii_chars("TYPE"@));
        assert(is_ascii_chars(s)) by {
            assert(is_ascii_chars(text::chars(d)));
        }
        is_ascii_chars_encode_utf8(s);
        is_ascii_chars_encode_utf8("TYPE"@);
        is_ascii_chars_encode_utf8(text::chars(d));
        let b = encode_utf8(s);
        assert(b =~= prefix + d) by {
            assert forall|i: int| 0 <= i < b.len() implies b[i] == (prefix + d)[i] by {
                assert(s[i] as u8 == b[i]);
                if i < 4 {
                    assert("TYPE"@[i] as u8 == prefix[i]);
                } else {
                    assert(text::chars(d)[i - 4] as u8 == d[i - 4]);
                }
            }
        }
        assert(text::upper(b) =~= b) by {
            assert forall|i: int| 0 <= i < b.len() implies text::upper(b)[i] == b[i] by {
                if i >= 4 {
                    assert(b[i] == d[i - 4]);
                }
            }
        }
        assert(b.take(4) =~= prefix);
        assert(b.skip(4) =~= d);
        assert(b[4] == d[0]);
        assert(b[1] == 0x59);
        assert(text::upper(b)[1] == 0x59);
        lemma_capital("A"@, 1);
        lemma_capital("NS"@, 2);
        lemma_capital("CNAME"@, 5);
        lemma_capital("SOA"@, 3);
        lemma_capital("PTR"@, 3);
        lemma_capital("MX"@, 2);
        lemma_capital("TXT"@, 3);
        lemma_capital("AAAA"@, 4);
        lemma_capital("SRV"@, 3);
        lemma_capital("ANY"@, 3);
        assert(b != encode_utf8("CNAME"@)) by {
            assert("CNAME"@[4] >= 'A');
        }
    }
}

/// The case of letters makes no difference.
pub proof fn law_rtype_ignores_case(a: Seq<u8>, b: Seq<u8>)
    requires
        a.len() == b.len(),
        forall|i: int| 0 <= i < a.len() ==> text::lower(#[trigger] a[i]) == text::lower(b[i]),
    ensures
        rtype_of_upper(text::upper(a)) == rtype_of_upper(text::upper(b)),
{
    assert(text::upper(a) =~= text::upper(b)) by {
        assert forall|i: int| 0 <= i < a.len() implies text::upper(a)[i] == text::upper(b)[i] by {
            assert(text::lower(a[i]) == text::lower(b[i]));
        }
    }
}

/// `TYPE` and a number is the type of that number, and no type where there is
/// none of that number.
pub proof fn law_rtype_by_number(n: nat)
    ensures
        rtype_of_upper(text::upper(encode_utf8("TYPE"@) + text::dec(n))) == if n <= u16::MAX {
            Some(n as u16)
        } else {
            None
        },
{
    lemma_words();
    let d = text::dec(n);
    let prefix = encode_utf8("TYPE"@);
    let b = prefix + d;
    text::lemma_dec_digits(n);
    lemma_capital("TYPE"@, 4);
    assert(text::upper(b) =~= b) by {
        assert forall|i: int| 0 <= i < b.len() implies text::upper(b)[i] == b[i] by {
            if i >= 4 {
                assert(b[i] == d[i - 4]);
            } else {
                assert(text::upper(prefix)[i] == prefix[i]);
            }
        }
    }
    assert(b.take(4) =~= prefix);
    assert(b.skip(4) =~= d);
    assert(b[4] == d[0]);
    assert(b[1] == 0x59);
    lemma_capital("A"@, 1);
    lemma_capital("NS"@, 2);
    lemma_capital("CNAME"@, 5);
    lemma_capital("SOA"@, 3);
    lemma_capital("PTR"@, 3);
    lemma_capital("MX"@, 2);
    lemma_capital("TXT"@, 3);
    lemma_capital("AAAA"@, 4);
    lemma_capital("SRV"@, 3);
    lemma_capital("ANY"@, 3);
    assert(b != encode_utf8("CNAME"@)) by {
        assert("CNAME"@[4] >= 'A');
    }
    if n <= u16::MAX {
        text::lemma_uint_of_dec(n, u16::MAX as nat);
    }
}

/// A word of capital letters.
spec fn capital(s: Seq<char>, n: int) -> bool {
    s.len() == n && forall|i: int| 0 <= i < s.len() ==> 'A' <= #[trigger] s[i] <= 'Z'
}

proof fn lemma_capital(s: Seq<char>, n: int)
    requires
        capital(s, n),
    ensures
        encode_utf8(s).len() == n,
        text::upper(encode_utf8(s)) == encode_utf8(s),
        forall|i: int| 0 <= i < n ==> #[trigger] encode_utf8(s)[i] == s[i] as u8,
{
    assert(is_ascii_chars(s));
    is_ascii_chars_encode_utf8(s);
    assert forall|i: int| 0 <= i < n implies #[trigger] encode_utf8(s)[i] == s[i] as u8 by {
        assert(s[i] as u8 == encode_utf8(s)[i]);
    }
    assert(text::upper(encode_utf8(s)) =~= encode_utf8(s));
}

proof fn lemma_words()
    ensures
        capital("A"@, 1),
        capital("NS"@, 2),
        capital("CNAME"@, 5),
        capital("SOA"@, 3),
        capital("PTR"@, 3),
        capital("MX"@, 2),
        capital("TXT"@, 3),
        capital("AAAA"@, 4),
        capital("SRV"@, 3),
        capital("ANY"@, 3),
        capital("TYPE"@, 4),
        "SOA"@[0] == 'S' && "PTR"@[0] == 'P' && "TXT"@[0] == 'T' && "SRV"@[0] == 'S' && "ANY"@[0] == 'A',
        "SOA"@[1] == 'O' && "SRV"@[1] == 'R',
        "NS"@[0] == 'N' && "MX"@[0] == 'M',
        "AAAA"@[0] == 'A' && "TYPE"@[0] == 'T',
        "TYPE"@[1] == 'Y',
{
    reveal_strlit("A");
    assert("A"@[0] == 'A');
    reveal_strlit("NS");
    assert("NS"@[0] == 'N' && "NS"@[1] == 'S');
    reveal_strlit("CNAME");
    assert("CNAME"@[0] == 'C' && "CNAME"@[1] == 'N' && "CNAME"@[2] == 'A' && "CNAME"@[3] == 'M' && "CNAME"@[4] == 'E');
    reveal_strlit("SOA");
    assert("SOA"@[0] == 'S' && "SOA"@[1] == 'O' && "SOA"@[2] == 'A');
    reveal_strlit("PTR");
    assert("PTR"@[0] == 'P' && "PTR"@[1] == 'T' && "PTR"@[2] == 'R');
    reveal_strlit("MX");
    assert("MX"@[0] == 'M' && "MX"@[1] == 'X');
    reveal_strlit("TXT");
    assert("TXT"@[0] == 'T' && "TXT"@[1] == 'X' && "TXT"@[2] == 'T');
    reveal_strlit("AAAA");
    assert("AAAA"@[0] == 'A' && "AAAA"@[1] == 'A' && "AAAA"@[2] == 'A' && "AAAA"@[3] == 'A');
    reveal_strlit("SRV");
    assert("SRV"@[0] == 'S' && "SRV"@[1] == 'R' && "SRV"@[2] == 'V');
    reveal_strlit("ANY");
    assert("ANY"@[0] == 'A' && "ANY"@[1] == 'N' && "ANY"@[2] == 'Y');
    reveal_strlit("TYPE");
    assert("TYPE"@[0] == 'T' && "TYPE"@[1] == 'Y' && "TYPE"@[2] == 'P' && "TYPE"@[3] == 'E');
}

} // verus!

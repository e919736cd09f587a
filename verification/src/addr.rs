//! Internet addresses and how they are written.
//!
//! An address is modelled by its octets: four for IPv4, sixteen for IPv6.
use crate::octets;
use crate::text;
use crate::text::{dec, digit_run, digits_value, hex};
use vstd::prelude::*;
use vstd::slice::slice_subrange;
use vstd::utf8::*;

verus! {

#[derive(Debug, Clone, Copy, PartialEq, Eq, Hash)]
pub struct Ipv4Addr {
    octets: [u8; 4],
}

#[derive(Debug, Clone, Copy, PartialEq, Eq, Hash)]
pub struct Ipv6Addr {
    octets: [u8; 16],
}

#[derive(Debug, Clone, Copy, PartialEq, Eq, Hash)]
pub enum IpAddr {
    V4(Ipv4Addr),
    V6(Ipv6Addr),
}

impl View for Ipv4Addr {
    type V = Seq<u8>;

    closed spec fn view(&self) -> Seq<u8> {
        self.octets@
    }
}

impl View for Ipv6Addr {
    type V = Seq<u8>;

    closed spec fn view(&self) -> Seq<u8> {
        self.octets@
    }
}

impl View for IpAddr {
    type V = Seq<u8>;

    open spec fn view(&self) -> Seq<u8> {
        match self {
            IpAddr::V4(a) => a@,
            IpAddr::V6(a) => a@,
        }
    }
}

impl DeepView for IpAddr {
    type V = Seq<u8>;

    open spec fn deep_view(&self) -> Seq<u8> {
        self@
    }
}

/// 127.0.0.1
pub open spec fn localhost_v4() -> Seq<u8> {
    seq![127u8, 0, 0, 1]
}

/// ::1
pub open spec fn localhost_v6() -> Seq<u8> {
    Seq::new(16, |i: int| if i == 15 { 1u8 } else { 0u8 })
}

/// 127.0.0.0/8, and ::1.
pub open spec fn is_loopback(a: Seq<u8>) -> bool {
    if a.len() == 4 {
        a[0] == 127
    } else {
        a == localhost_v6()
    }
}

impl Ipv4Addr {
    pub broadcast proof fn lemma_len(self)
        ensures
            #[trigger] self@.len() == 4,
    {
    }

    pub fn new(a: u8, b: u8, c: u8, d: u8) -> (r: Ipv4Addr)
        ensures
            r@ == seq![a, b, c, d],
    {
        let r = Ipv4Addr { octets: [a, b, c, d] };
        assert(r@ =~= seq![a, b, c, d]);
        r
    }

    pub fn localhost() -> (r: Ipv4Addr)
        ensures
            r@ == localhost_v4(),
    {
        Ipv4Addr::new(127, 0, 0, 1)
    }

    pub fn octets(&self) -> (r: [u8; 4])
        ensures
            r@ == self@,
    {
        self.octets
    }

    pub fn from_slice(s: &[u8]) -> (r: Ipv4Addr)
        requires
            s@.len() == 4,
        ensures
            r@ == s@,
    {
        let r = Ipv4Addr::new(s[0], s[1], s[2], s[3]);
        assert(r@ =~= s@);
        r
    }
}

impl Ipv6Addr {
    pub broadcast proof fn lemma_len(self)
        ensures
            #[trigger] self@.len() == 16,
    {
    }

    pub fn localhost() -> (r: Ipv6Addr)
        ensures
            r@ == localhost_v6(),
    {
        let r = Ipv6Addr { octets: [0, 0, 0, 0, 0, 0, 0, 0, 0, 0, 0, 0, 0, 0, 0, 1] };
        assert(r@ =~= localhost_v6());
        r
    }

    pub fn octets(&self) -> (r: [u8; 16])
        ensures
            r@ == self@,
    {
        self.octets
    }

    pub fn from_slice(s: &[u8]) -> (r: Ipv6Addr)
        requires
            s@.len() == 16,
        ensures
            r@ == s@,
    {
        let r = Ipv6Addr {
            octets: [
                s[0],
                s[1],
                s[2],
                s[3],
                s[4],
                s[5],
                s[6],
                s[7],
                s[8],
                s[9],
                s[10],
                s[11],
                s[12],
                s[13],
                s[14],
                s[15],
            ],
        };
        assert(r@ =~= s@);
        r
    }
}

impl IpAddr {
    pub proof fn lemma_len(self)
        ensures
            self@.len() == if self is V4 { 4nat } else { 16nat },
    {
        broadcast use {Ipv4Addr::lemma_len, Ipv6Addr::lemma_len};

    }

    /// The address with these octets.
    pub fn from_octets(s: &[u8]) -> (r: IpAddr)
        requires
            s@.len() == 4 || s@.len() == 16,
        ensures
            r@ == s@,
            r is V4 <==> s@.len() == 4,
    {
        if s.len() == 4 {
            IpAddr::V4(Ipv4Addr::from_slice(s))
        } else {
            IpAddr::V6(Ipv6Addr::from_slice(s))
        }
    }

    pub fn to_octets(&self) -> (r: Vec<u8>)
        ensures
            r@ == self@,
            r@.len() == if self is V4 { 4nat } else { 16nat },
    {
        proof {
            self.lemma_len();
        }
        match self {
            IpAddr::V4(a) => octets::copy(&a.octets),
            IpAddr::V6(a) => octets::copy(&a.octets),
        }
    }

    pub fn is_ipv4(&self) -> (r: bool)
        ensures
            r == (self@.len() == 4),
            r == (self is V4),
    {
        proof {
            self.lemma_len();
        }
        match self {
            IpAddr::V4(_) => true,
            IpAddr::V6(_) => false,
        }
    }

    pub fn is_loopback(&self) -> (r: bool)
        ensures
            r == is_loopback(self@),
    {
        proof {
            self.lemma_len();
        }
        match self {
            IpAddr::V4(a) => a.octets[0] == 127,
            IpAddr::V6(a) => octets::equal(&a.octets, &Ipv6Addr::localhost().octets),
        }
    }

    /// Whether two addresses are the same.
    pub fn same(&self, other: &IpAddr) -> (r: bool)
        ensures
            r == (self@ == other@),
    {
        proof {
            self.lemma_len();
            other.lemma_len();
        }
        match (self, other) {
            (IpAddr::V4(a), IpAddr::V4(b)) => octets::equal(&a.octets, &b.octets),
            (IpAddr::V6(a), IpAddr::V6(b)) => octets::equal(&a.octets, &b.octets),
            _ => false,
        }
    }
}

// How addresses are written.

/// `a.b.c.d`
pub open spec fn v4_text(a: Seq<u8>) -> Seq<u8> {
    dec(a[0] as nat) + seq![0x2eu8] + dec(a[1] as nat) + seq![0x2eu8] + dec(a[2] as nat)
        + seq![0x2eu8] + dec(a[3] as nat)
}

/// The eight 16-bit groups of an IPv6 address.
pub open spec fn segments(a: Seq<u8>) -> Seq<u16> {
    Seq::new(8, |i: int| (a[2 * i] * 256 + a[2 * i + 1]) as u16)
}

/// The octets of groups.
pub open spec fn segment_octets(g: Seq<u16>) -> Seq<u8> {
    Seq::new(2 * g.len(), |i: int| if i % 2 == 0 { (g[i / 2] / 256) as u8 } else { (g[i / 2] % 256) as u8 })
}

/// Groups in hexadecimal, each after a colon.
pub open spec fn colon_groups(g: Seq<u16>) -> Seq<u8>
    decreases g.len(),
{
    if g.len() == 0 {
        Seq::empty()
    } else {
        seq![0x3au8] + hex(g[0] as nat) + colon_groups(g.skip(1))
    }
}

/// Groups in hexadecimal with colons between them.
pub open spec fn groups_text(g: Seq<u16>) -> Seq<u8> {
    if g.len() == 0 {
        Seq::empty()
    } else {
        hex(g[0] as nat) + colon_groups(g.skip(1))
    }
}

/// How many zero groups stand in a row from `i` on.
pub open spec fn zeros_from(g: Seq<u16>, i: int) -> nat
    decreases g.len() - i,
{
    if 0 <= i < g.len() && g[i] == 0 {
        1 + zeros_from(g, i + 1)
    } else {
        0
    }
}

/// Where the longest run of zero groups at or after `i` starts: the first
/// such run.
pub open spec fn longest_from(g: Seq<u16>, i: int) -> int
    decreases g.len() - i,
{
    if i >= g.len() {
        g.len() as int
    } else {
        let later = longest_from(g, i + 1);
        if zeros_from(g, i) >= zeros_from(g, later) {
            i
        } else {
            later
        }
    }
}

/// `::ffff:a.b.c.d`
pub open spec fn is_mapped(a: Seq<u8>) -> bool {
    (forall|i: int| 0 <= i < 10 ==> #[trigger] a[i] == 0) && a[10] == 0xff && a[11] == 0xff
}

pub open spec fn mapped_prefix() -> Seq<u8> {
    seq![0x3au8, 0x3a, 0x66, 0x66, 0x66, 0x66, 0x3a]
}

/// Hexadecimal groups, the first longest run of two or more zero groups
/// written `::`; an address that maps an IPv4 one ends in that.
pub open spec fn v6_text(a: Seq<u8>) -> Seq<u8> {
    let g = segments(a);
    let start = longest_from(g, 0);
    let len = zeros_from(g, start);
    if is_mapped(a) {
        mapped_prefix() + v4_text(a.subrange(12, 16))
    } else if len > 1 {
        groups_text(g.take(start)) + seq![0x3au8, 0x3a] + groups_text(g.skip(start + len))
    } else {
        groups_text(g)
    }
}

pub open spec fn ip_text(a: Seq<u8>) -> Seq<u8> {
    if a.len() == 4 {
        v4_text(a)
    } else {
        v6_text(a)
    }
}

proof fn lemma_v4_ascii(a: Seq<u8>)
    ensures
        text::is_ascii(v4_text(a)),
{
    text::lemma_dec_ascii(a[0] as nat);
    text::lemma_dec_ascii(a[1] as nat);
    text::lemma_dec_ascii(a[2] as nat);
    text::lemma_dec_ascii(a[3] as nat);
}

proof fn lemma_colon_groups_ascii(g: Seq<u16>)
    ensures
        text::is_ascii(colon_groups(g)),
    decreases g.len(),
{
    if g.len() > 0 {
        text::lemma_hex_ascii(g[0] as nat);
        lemma_colon_groups_ascii(g.skip(1));
    }
}

proof fn lemma_groups_ascii(g: Seq<u16>)
    ensures
        text::is_ascii(groups_text(g)),
{
    if g.len() > 0 {
        text::lemma_hex_ascii(g[0] as nat);
        lemma_colon_groups_ascii(g.skip(1));
    }
}

pub proof fn lemma_ip_text_ascii(a: Seq<u8>)
    ensures
        text::is_ascii(ip_text(a)),
{
    let g = segments(a);
    let start = longest_from(g, 0);
    let len = zeros_from(g, start);
    lemma_v4_ascii(a);
    lemma_v4_ascii(a.subrange(12, 16));
    lemma_groups_ascii(g);
    lemma_groups_ascii(g.take(start));
    lemma_groups_ascii(g.skip(start + len));
}

fn push_v4(out: &mut Vec<u8>, a: &[u8])
    requires
        a@.len() == 4,
    ensures
        final(out)@ == old(out)@ + v4_text(a@),
{
    text::push_dec(out, a[0] as u64);
    out.push(0x2e);
    text::push_dec(out, a[1] as u64);
    out.push(0x2e);
    text::push_dec(out, a[2] as u64);
    out.push(0x2e);
    text::push_dec(out, a[3] as u64);
    assert(out@ =~= old(out)@ + v4_text(a@));
}

fn push_groups(out: &mut Vec<u8>, g: &[u16])
    ensures
        final(out)@ == old(out)@ + groups_text(g@),
{
    if g.len() > 0 {
        text::push_hex(out, g[0]);
        let mut i: usize = 1;
        while i < g.len()
            invariant
                1 <= i <= g@.len(),
                out@ + colon_groups(g@.skip(i as int)) =~= old(out)@ + groups_text(g@),
            decreases g@.len() - i,
        {
            assert(g@.skip(i as int).skip(1) =~= g@.skip(i + 1));
            out.push(0x3a);
            text::push_hex(out, g[i]);
            i += 1;
        }
    }
    assert(out@ =~= old(out)@ + groups_text(g@));
}

fn is_mapped_octets(a: &[u8]) -> (r: bool)
    requires
        a@.len() == 16,
    ensures
        r == is_mapped(a@),
{
    let mut i: usize = 0;
    while i < 10
        invariant
            i <= 10,
            a@.len() == 16,
            forall|j: int| 0 <= j < i ==> #[trigger] a@[j] == 0,
        decreases 10 - i,
    {
        if a[i] != 0 {
            return false;
        }
        i += 1;
    }
    a[10] == 0xff && a[11] == 0xff
}

fn to_segments(a: &[u8]) -> (r: Vec<u16>)
    requires
        a@.len() == 16,
    ensures
        r@ == segments(a@),
{
    let mut g: Vec<u16> = Vec::new();
    let mut i: usize = 0;
    while i < 8
        invariant
            i <= 8,
            a@.len() == 16,
            g@.len() == i,
            forall|j: int| 0 <= j < i ==> #[trigger] g@[j] == segments(a@)[j],
        decreases 8 - i,
    {
        g.push(a[2 * i] as u16 * 256 + a[2 * i + 1] as u16);
        i += 1;
    }
    assert(g@ =~= segments(a@));
    g
}

/// Where the first longest run of zero groups starts, and its length.
fn longest_zeros(g: &Vec<u16>) -> (r: (usize, usize))
    ensures
        r.0 == longest_from(g@, 0),
        r.1 == zeros_from(g@, r.0 as int),
        r.0 + r.1 <= g@.len(),
{
    let n: usize = g.len();
    let mut i: usize = n;
    let mut here: usize = 0;
    let mut start: usize = n;
    let mut len: usize = 0;
    while i > 0
        invariant
            i <= n == g@.len(),
            here == zeros_from(g@, i as int),
            start == longest_from(g@, i as int),
            len == zeros_from(g@, start as int),
            i + here <= g@.len(),
            start + len <= g@.len(),
        decreases i,
    {
        i -= 1;
        here = if g[i] == 0 {
            here + 1
        } else {
            0
        };
        if here >= len {
            start = i;
            len = here;
        }
    }
    (start, len)
}

fn push_v6(out: &mut Vec<u8>, a: &[u8])
    requires
        a@.len() == 16,
    ensures
        final(out)@ == old(out)@ + v6_text(a@),
{
    if is_mapped_octets(a) {
        octets::push_all(out, &[0x3a, 0x3a, 0x66, 0x66, 0x66, 0x66, 0x3a]);
        push_v4(out, slice_subrange(a, 12, 16));
        assert(out@ =~= old(out)@ + v6_text(a@));
        return ;
    }
    let g = to_segments(a);
    let (start, len): (usize, usize) = longest_zeros(&g);
    if len > 1 {
        push_groups(out, slice_subrange(g.as_slice(), 0, start));
        out.push(0x3a);
        out.push(0x3a);
        push_groups(out, slice_subrange(g.as_slice(), start + len, g.len()));
        assert(g@.subrange(0, start as int) =~= g@.take(start as int));
        assert(g@.subrange(start + len, g@.len() as int) =~= g@.skip(start + len));
    } else {
        push_groups(out, g.as_slice());
    }
    assert(out@ =~= old(out)@ + v6_text(a@));
}

impl IpAddr {
    /// Appends the address as text.
    pub fn push_text(&self, out: &mut Vec<u8>)
        ensures
            final(out)@ == old(out)@ + ip_text(self@),
    {
        proof {
            self.lemma_len();
        }
        match self {
            IpAddr::V4(a) => push_v4(out, &a.octets),
            IpAddr::V6(a) => push_v6(out, &a.octets),
        }
    }

    /// The address as text.
    pub fn to_text(&self) -> (r: String)
        ensures
            r@ == text::chars(ip_text(self@)),
            encode_utf8(r@) == ip_text(self@),
    {
        let mut out: Vec<u8> = Vec::new();
        self.push_text(&mut out);
        assert(out@ =~= ip_text(self@));
        proof {
            lemma_ip_text_ascii(self@);
        }
        text::ascii_string(out.as_slice())
    }
}

// How addresses are read.

/// A number in base ten or sixteen of at most `max` digits: every digit there
/// is belongs to it.
#[verifier::opaque]
pub open spec fn read_digits(s: Seq<u8>, base: nat, max: nat) -> Option<(nat, Seq<u8>)> {
    let k = digit_run(s, base);
    if k == 0 || k > max {
        None
    } else {
        Some((digits_value(s.take(k as int), base), s.skip(k as int)))
    }
}

/// A decimal number up to 255 without leading zeros.
#[verifier::opaque]
pub open spec fn read_octet(s: Seq<u8>) -> Option<(nat, Seq<u8>)> {
    match read_digits(s, 10, 3) {
        Some((n, rest)) => if n > 255 || (s[0] == 0x30 && digit_run(s, 10) > 1) {
            None
        } else {
            Some((n, rest))
        },
        None => None,
    }
}

/// A dot and an octet.
pub open spec fn read_dot_octet(s: Seq<u8>) -> Option<(nat, Seq<u8>)> {
    if s.len() > 0 && s[0] == 0x2e {
        read_octet(s.skip(1))
    } else {
        None
    }
}

/// Four octets with dots between them.
#[verifier::opaque]
pub open spec fn read_v4(s: Seq<u8>) -> Option<(Seq<u8>, Seq<u8>)> {
    match read_octet(s) {
        None => None,
        Some((a, s)) => match read_dot_octet(s) {
            None => None,
            Some((b, s)) => match read_dot_octet(s) {
                None => None,
                Some((c, s)) => match read_dot_octet(s) {
                    None => None,
                    Some((d, s)) => Some((seq![a as u8, b as u8, c as u8, d as u8], s)),
                },
            },
        },
    }
}

/// The bytes of group `i`: what follows a colon, but for the first group.
pub open spec fn at_group(s: Seq<u8>, i: nat) -> Option<Seq<u8>> {
    if i == 0 {
        Some(s)
    } else if s.len() > 0 && s[0] == 0x3a {
        Some(s.skip(1))
    } else {
        None
    }
}

/// Groups from group `i` on, fewer than `limit` in all; the last two of the
/// `limit` or fewer may be written as an IPv4 address. Gives the groups,
/// whether they end in such an address, and what is left.
pub open spec fn read_groups(s: Seq<u8>, i: nat, limit: nat) -> (Seq<u16>, bool, Seq<u8>)
    decreases limit - i,
{
    match at_group(s, i) {
        None => (Seq::empty(), false, s),
        Some(t) => if i >= limit {
            (Seq::empty(), false, s)
        } else if i + 1 < limit && read_v4(t) is Some {
            let (o, rest) = read_v4(t)->0;
            (seq![(o[0] * 256 + o[1]) as u16, (o[2] * 256 + o[3]) as u16], true, rest)
        } else {
            match read_digits(t, 16, 4) {
                None => (Seq::empty(), false, s),
                Some((g, rest)) => {
                    let (more, v4, left) = read_groups(rest, i + 1, limit);
                    (seq![g as u16] + more, v4, left)
                },
            }
        },
    }
}

pub open spec fn zero_groups(n: int) -> Seq<u16> {
    Seq::new(n as nat, |i: int| 0u16)
}

/// Eight groups, or fewer with `::` for the zeros that are missing.
pub open spec fn read_v6(s: Seq<u8>) -> Option<(Seq<u16>, Seq<u8>)> {
    let (head, v4, s) = read_groups(s, 0, 8);
    if head.len() == 8 {
        Some((head, s))
    } else if v4 || s.len() < 2 || s[0] != 0x3a || s[1] != 0x3a {
        None
    } else {
        let (tail, _, s) = read_groups(s.skip(2), 0, (7 - head.len()) as nat);
        Some((head + zero_groups(8 - head.len() - tail.len()) + tail, s))
    }
}

/// The address that a text writes, if it writes one.
pub open spec fn ip_of_text(s: Seq<u8>) -> Option<Seq<u8>> {
    match read_v4(s) {
        Some((a, rest)) => if rest.len() == 0 {
            Some(a)
        } else {
            None
        },
        None => match read_v6(s) {
            Some((g, rest)) => if rest.len() == 0 {
                Some(segment_octets(g))
            } else {
                None
            },
            None => None,
        },
    }
}

fn parse_digits(s: &[u8], pos: usize, base: u64, max: usize) -> (r: Option<(u64, usize)>)
    requires
        pos <= s@.len(),
        base == 10 || base == 16,
        max <= 4,
    ensures
        match read_digits(s@.skip(pos as int), base as nat, max as nat) {
            None => r is None,
            Some((n, rest)) => r matches Some((v, next)) && v == n && pos < next <= s@.len() && s@.skip(
                next as int,
            ) == rest && next - pos == digit_run(s@.skip(pos as int), base as nat) && n < 0x1_0000,
        },
{
    reveal(read_digits);
    let mut v: u64 = 0;
    let mut k: usize = 0;
    let ghost rest = s@.skip(pos as int);
    let len: usize = s.len();
    while k < len - pos
        invariant
            pos + k <= len == s@.len(),
            k <= max <= 4,
            base == 10 || base == 16,
            rest == s@.skip(pos as int),
            forall|i: int| 0 <= i < k ==> text::digit_value(#[trigger] rest[i], base as nat) is Some,
            v == digits_value(rest.take(k as int), base as nat),
            k == 0 ==> v == 0,
            k == 1 ==> v < 0x10,
            k == 2 ==> v < 0x100,
            k == 3 ==> v < 0x1000,
            k == 4 ==> v < 0x1_0000,
            pos + k == s@.len() ==> digit_run(rest, base as nat) == k,
        ensures
            pos + k <= len == s@.len(),
            k <= max,
            v == digits_value(rest.take(k as int), base as nat),
            v < 0x1_0000,
            digit_run(rest, base as nat) == k,
        decreases s@.len() - k,
    {
        match text::value_of_digit(s[pos + k], base) {
            None => {
                proof {
                    text::lemma_digit_run(rest, k as nat, base as nat);
                }
                break;
            },
            Some(d) => {
                if k == max {
                    proof {
                        reveal(read_digits);
                        lemma_long_run(rest, (k + 1) as nat, base as nat);
                    }
                    return None;
                }
                assert(rest.take(k + 1).drop_last() =~= rest.take(k as int));
                assert(v * base + d == digits_value(rest.take(k + 1), base as nat));
                v = v * base + d;
                k += 1;
            },
        }
        if pos + k == s.len() {
            proof {
                text::lemma_digit_run(rest, k as nat, base as nat);
            }
        }
    }
    if k == 0 {
        None
    } else {
        assert(s@.skip(pos + k) =~= rest.skip(k as int));
        Some((v, pos + k))
    }
}

proof fn lemma_long_run(s: Seq<u8>, k: nat, base: nat)
    requires
        k <= s.len(),
        forall|i: int| 0 <= i < k ==> text::digit_value(#[trigger] s[i], base) is Some,
    ensures
        digit_run(s, base) >= k,
    decreases k,
{
    if k > 0 {
        assert forall|i: int| 0 <= i < k - 1 implies text::digit_value(#[trigger] s.skip(1)[i], base) is Some by {
            assert(s.skip(1)[i] == s[i + 1]);
        }
        lemma_long_run(s.skip(1), (k - 1) as nat, base);
    }
}

fn parse_octet(s: &[u8], pos: usize) -> (r: Option<(u8, usize)>)
    requires
        pos <= s@.len(),
    ensures
        match read_octet(s@.skip(pos as int)) {
            None => r is None,
            Some((n, rest)) => r matches Some((v, next)) && v == n && next <= s@.len() && s@.skip(
                next as int,
            ) == rest,
        },
{
    reveal(read_octet);
    reveal(read_digits);
    match parse_digits(s, pos, 10, 3) {
        None => None,
        Some((n, next)) => {
            if n > 255 || (s[pos] == 0x30 && next - pos > 1) {
                None
            } else {
                Some((n as u8, next))
            }
        },
    }
}

fn parse_dot_octet(s: &[u8], pos: usize) -> (r: Option<(u8, usize)>)
    requires
        pos <= s@.len(),
    ensures
        match read_dot_octet(s@.skip(pos as int)) {
            None => r is None,
            Some((n, rest)) => r matches Some((v, next)) && v == n && next <= s@.len() && s@.skip(
                next as int,
            ) == rest,
        },
{
    if pos < s.len() && s[pos] == 0x2e {
        assert(s@.skip(pos as int).skip(1) =~= s@.skip(pos + 1));
        parse_octet(s, pos + 1)
    } else {
        None
    }
}

fn parse_v4(s: &[u8], pos: usize) -> (r: Option<([u8; 4], usize)>)
    requires
        pos <= s@.len(),
    ensures
        match read_v4(s@.skip(pos as int)) {
            None => r is None,
            Some((o, rest)) => r matches Some((v, next)) && v@ == o && next <= s@.len() && s@.skip(
                next as int,
            ) == rest,
        },
{
    reveal(read_v4);
    let (a, pos): (u8, usize) = parse_octet(s, pos)?;
    let (b, pos): (u8, usize) = parse_dot_octet(s, pos)?;
    let (c, pos): (u8, usize) = parse_dot_octet(s, pos)?;
    let (d, pos): (u8, usize) = parse_dot_octet(s, pos)?;
    let o: [u8; 4] = [a, b, c, d];
    assert(o@ =~= seq![a, b, c, d]);
    Some((o, pos))
}

/// Reads groups onto `out`. Says whether they end in an IPv4 address, and
/// where reading stopped.
fn parse_groups(s: &[u8], pos: usize, i: usize, limit: usize, out: &mut Vec<u16>) -> (r: (bool, usize))
    requires
        pos <= s@.len(),
        i <= limit <= 8,
    ensures
        ({
            let (g, v4, rest) = read_groups(s@.skip(pos as int), i as nat, limit as nat);
            &&& final(out)@ == old(out)@ + g
            &&& r.0 == v4
            &&& r.1 <= s@.len()
            &&& s@.skip(r.1 as int) == rest
            &&& i + g.len() <= limit
        }),
    decreases limit - i,
{
    let ghost rest = s@.skip(pos as int);
    let mut at: usize = pos;
    if i > 0 {
        if pos >= s.len() || s[pos] != 0x3a {
            assert(out@ =~= old(out)@ + Seq::<u16>::empty());
            return (false, pos);
        }
        at = pos + 1;
        assert(rest.skip(1) =~= s@.skip(at as int));
    }
    if i >= limit {
        assert(out@ =~= old(out)@ + Seq::<u16>::empty());
        return (false, pos);
    }
    if i + 1 < limit {
        if let Some((o, next)) = parse_v4(s, at) {
            out.push(o[0] as u16 * 256 + o[1] as u16);
            out.push(o[2] as u16 * 256 + o[3] as u16);
            assert(out@ =~= old(out)@ + read_groups(rest, i as nat, limit as nat).0);
            return (true, next);
        }
    }
    match parse_digits(s, at, 16, 4) {
        None => {
            assert(out@ =~= old(out)@ + Seq::<u16>::empty());
            (false, pos)
        },
        Some((g, next)) => {
            out.push(g as u16);
            let r = parse_groups(s, next, i + 1, limit, out);
            assert(out@ =~= old(out)@ + read_groups(rest, i as nat, limit as nat).0);
            r
        },
    }
}

fn parse_v6(s: &[u8]) -> (r: Option<(Vec<u16>, usize)>)
    ensures
        match read_v6(s@) {
            None => r is None,
            Some((g, rest)) => r matches Some((v, next)) && v@ == g && next <= s@.len() && s@.skip(
                next as int,
            ) == rest && g.len() == 8,
        },
{
    assert(s@.skip(0) =~= s@);
    let mut head: Vec<u16> = Vec::new();
    let (v4, pos): (bool, usize) = parse_groups(s, 0, 0, 8, &mut head);
    assert(head@ =~= read_groups(s@, 0, 8).0);
    if head.len() == 8 {
        return Some((head, pos));
    }
    if v4 || s.len() - pos < 2 || s[pos] != 0x3a || s[pos + 1] != 0x3a {
        return None;
    }
    assert(s@.skip(pos as int).skip(2) =~= s@.skip(pos + 2));
    let mut tail: Vec<u16> = Vec::new();
    let (_, end): (bool, usize) = parse_groups(s, pos + 2, 0, 7 - head.len(), &mut tail);
    let ghost back = tail@;
    let ghost front = head@;
    assert(tail@ =~= read_groups(s@.skip(pos + 2), 0, (7 - front.len()) as nat).0);
    while head.len() + tail.len() < 8
        invariant
            tail@ == back,
            front.len() <= head@.len(),
            head@.len() + back.len() <= 8,
            head@ =~= front + zero_groups(head@.len() - front.len()),
        decreases 8 - head@.len(),
    {
        head.push(0);
    }
    head.append(&mut tail);
    assert(head@ =~= front + zero_groups(8 - front.len() - back.len()) + back);
    Some((head, end))
}

impl IpAddr {
    /// The address that a text writes, if it writes one.
    pub fn parse(s: &str) -> (r: Option<IpAddr>)
        ensures
            match ip_of_text(encode_utf8(s@)) {
                None => r is None,
                Some(a) => r matches Some(ip) && ip@ == a,
            },
    {
        IpAddr::parse_bytes(s.as_bytes())
    }

    /// The address that the bytes of a text write, if they write one.
    pub fn parse_bytes(bytes: &[u8]) -> (r: Option<IpAddr>)
        ensures
            match ip_of_text(bytes@) {
                None => r is None,
                Some(a) => r matches Some(ip) && ip@ == a,
            },
    {
        assert(bytes@.skip(0) =~= bytes@);
        match parse_v4(bytes, 0) {
            Some((o, next)) => {
                if next == bytes.len() {
                    Some(IpAddr::V4(Ipv4Addr { octets: o }))
                } else {
                    None
                }
            },
            None => match parse_v6(bytes) {
                None => None,
                Some((g, next)) => {
                    if next != bytes.len() {
                        return None;
                    }
                    let mut o: Vec<u8> = Vec::new();
                    let mut i: usize = 0;
                    while i < 8
                        invariant
                            i <= 8,
                            g@.len() == 8,
                            o@.len() == 2 * i,
                            forall|j: int| 0 <= j < 2 * i ==> #[trigger] o@[j] == segment_octets(g@)[j],
                        decreases 8 - i,
                    {
                        o.push((g[i] / 256) as u8);
                        o.push((g[i] % 256) as u8);
                        i += 1;
                    }
                    assert(o@ =~= segment_octets(g@));
                    Some(IpAddr::V6(Ipv6Addr::from_slice(o.as_slice())))
                },
            },
        }
    }
}

// Reading what was written.

spec fn no_digit_first(s: Seq<u8>) -> bool {
    s.len() == 0 || s[0] == 0x2e || s[0] == 0x3a
}

spec fn no_dot(s: Seq<u8>) -> bool {
    forall|i: int| 0 <= i < s.len() ==> #[trigger] s[i] != 0x2e
}

proof fn lemma_read_octet(n: nat, tail: Seq<u8>)
    requires
        n < 256,
        no_digit_first(tail),
    ensures
        read_octet(dec(n) + tail) == Some((n, tail)),
{
    reveal(read_octet);
    reveal(read_digits);
    text::lemma_dec_digits(n);
    let s = dec(n) + tail;
    text::lemma_digit_run(s, dec(n).len(), 10);
    assert(s.take(dec(n).len() as int) =~= dec(n));
    assert(s.skip(dec(n).len() as int) =~= tail);
}

proof fn lemma_read_v4(a: Seq<u8>, tail: Seq<u8>)
    requires
        a.len() == 4,
        no_digit_first(tail),
    ensures
        read_v4(v4_text(a) + tail) == Some((a, tail)),
{
    reveal(read_v4);
    let dot = seq![0x2eu8];
    let s3 = dec(a[3] as nat) + tail;
    let s2 = dec(a[2] as nat) + (dot + s3);
    let s1 = dec(a[1] as nat) + (dot + s2);
    let s0 = dec(a[0] as nat) + (dot + s1);
    assert(v4_text(a) + tail =~= s0);
    lemma_read_octet(a[0] as nat, dot + s1);
    lemma_read_octet(a[1] as nat, dot + s2);
    lemma_read_octet(a[2] as nat, dot + s3);
    lemma_read_octet(a[3] as nat, tail);
    assert((dot + s1).skip(1) =~= s1);
    assert((dot + s2).skip(1) =~= s2);
    assert((dot + s3).skip(1) =~= s3);
    assert(seq![a[0], a[1], a[2], a[3]] =~= a);
}

proof fn lemma_run_bound(s: Seq<u8>, base: nat)
    ensures
        digit_run(s, base) <= s.len(),
    decreases s.len(),
{
    if s.len() > 0 {
        lemma_run_bound(s.skip(1), base);
    }
}

proof fn lemma_no_dot_no_v4(s: Seq<u8>)
    requires
        no_dot(s),
    ensures
        read_v4(s) is None,
{
    reveal(read_v4);
    reveal(read_octet);
    reveal(read_digits);
    lemma_run_bound(s, 10);
    if let Some((_, rest)) = read_octet(s) {
        if rest.len() > 0 {
            assert(rest[0] == s[digit_run(s, 10) as int]);
        }
    }
}

/// Nothing that starts with another byte reads as a number.
proof fn lemma_no_digits(s: Seq<u8>)
    requires
        s.len() == 0 || s[0] == 0x3a || s[0] == 0x66,
    ensures
        read_v4(s) is None,
        s.len() == 0 || s[0] == 0x3a ==> read_digits(s, 16, 4) is None,
{
    reveal(read_v4);
    reveal(read_octet);
    reveal(read_digits);
}

proof fn lemma_read_group(n: nat, tail: Seq<u8>)
    requires
        n < 0x1_0000,
        no_digit_first(tail),
    ensures
        read_digits(hex(n) + tail, 16, 4) == Some((n, tail)),
{
    reveal(read_digits);
    text::lemma_hex_digits(n);
    let s = hex(n) + tail;
    text::lemma_digit_run(s, hex(n).len(), 16);
    assert(s.take(hex(n).len() as int) =~= hex(n));
    assert(s.skip(hex(n).len() as int) =~= tail);
}

proof fn lemma_colon_groups_no_dot(g: Seq<u16>)
    ensures
        no_dot(colon_groups(g)),
        no_digit_first(colon_groups(g)),
        g.len() > 0 ==> colon_groups(g)[0] == 0x3a,
    decreases g.len(),
{
    if g.len() > 0 {
        text::lemma_hex_digits(g[0] as nat);
        lemma_colon_groups_no_dot(g.skip(1));
    }
}

proof fn lemma_groups_no_dot(g: Seq<u16>)
    ensures
        no_dot(groups_text(g)),
{
    if g.len() > 0 {
        text::lemma_hex_digits(g[0] as nat);
        lemma_colon_groups_no_dot(g.skip(1));
    }
}

proof fn lemma_read_groups(g: Seq<u16>, i: nat, limit: nat, tail: Seq<u8>)
    requires
        i + g.len() <= limit,
        no_dot(tail),
        tail.len() > 0 ==> tail.len() > 1 && tail[0] == 0x3a && tail[1] == 0x3a,
    ensures
        read_groups((if i == 0 { groups_text(g) } else { colon_groups(g) }) + tail, i, limit) == (g, false, tail),
    decreases g.len(),
{
    let s = (if i == 0 { groups_text(g) } else { colon_groups(g) }) + tail;
    if g.len() == 0 {
        assert(s =~= tail);
        assert(g =~= Seq::<u16>::empty());
        lemma_no_digits(tail);
        if tail.len() > 0 {
            lemma_no_digits(tail.skip(1));
        }
    } else {
        let rest = colon_groups(g.skip(1)) + tail;
        let t = hex(g[0] as nat) + rest;
        assert(i == 0 ==> s =~= t);
        assert(i > 0 ==> s.skip(1) =~= t);
        lemma_colon_groups_no_dot(g.skip(1));
        text::lemma_hex_digits(g[0] as nat);
        assert(no_dot(t));
        lemma_no_dot_no_v4(t);
        lemma_read_group(g[0] as nat, rest);
        lemma_read_groups(g.skip(1), i + 1, limit, tail);
        assert(seq![g[0]] + g.skip(1) =~= g);
    }
}

pub proof fn lemma_zeros(g: Seq<u16>, i: int)
    requires
        0 <= i <= g.len(),
    ensures
        i + zeros_from(g, i) <= g.len(),
        forall|j: int| i <= j < i + zeros_from(g, i) ==> #[trigger] g[j] == 0,
    decreases g.len() - i,
{
    if i < g.len() && g[i] == 0 {
        lemma_zeros(g, i + 1);
    }
}

pub proof fn lemma_longest(g: Seq<u16>, i: int)
    requires
        0 <= i <= g.len(),
    ensures
        i <= longest_from(g, i) <= g.len(),
    decreases g.len() - i,
{
    if i < g.len() {
        lemma_longest(g, i + 1);
    }
}

proof fn lemma_read_v6(a: Seq<u8>)
    requires
        a.len() == 16,
        !is_mapped(a),
    ensures
        read_v6(v6_text(a)) == Some((segments(a), Seq::<u8>::empty())),
        read_v4(v6_text(a)) is None,
{
    let g = segments(a);
    let start = longest_from(g, 0);
    let len = zeros_from(g, start);
    lemma_longest(g, 0);
    lemma_zeros(g, start);
    let none = Seq::<u8>::empty();
    lemma_groups_no_dot(g);
    if len > 1 {
        let head = g.take(start);
        let back = g.skip(start + len);
        let tail = seq![0x3au8, 0x3a] + groups_text(back);
        lemma_groups_no_dot(head);
        lemma_groups_no_dot(back);
        assert(v6_text(a) =~= groups_text(head) + tail);
        lemma_no_dot_no_v4(v6_text(a));
        lemma_read_groups(head, 0, 8, tail);
        assert(tail.skip(2) =~= groups_text(back) + none);
        lemma_read_groups(back, 0, (7 - head.len()) as nat, none);
        assert(head + zero_groups(8 - head.len() - back.len()) + back =~= g);
    } else {
        assert(v6_text(a) =~= groups_text(g) + none);
        lemma_no_dot_no_v4(v6_text(a));
        lemma_read_groups(g, 0, 8, none);
    }
}

proof fn lemma_read_mapped(a: Seq<u8>)
    requires
        a.len() == 16,
        is_mapped(a),
    ensures
        read_v6(v6_text(a)) == Some((segments(a), Seq::<u8>::empty())),
        read_v4(v6_text(a)) is None,
{
    let s = v6_text(a);
    let o = a.subrange(12, 16);
    let none = Seq::<u8>::empty();
    let quad = v4_text(o) + none;
    assert(s[0] == 0x3a && s[1] == 0x3a);
    lemma_no_digits(s);
    assert(read_groups(s, 0, 8) == (Seq::<u16>::empty(), false, s));
    let t = s.skip(2);
    let rest = seq![0x3au8] + quad;
    assert(hex(0xffff) =~= seq![0x66u8, 0x66, 0x66, 0x66]) by {
        reveal_with_fuel(hex, 5);
    }
    assert(t =~= hex(0xffff) + rest);
    assert(t[0] == 0x66);
    lemma_no_digits(t);
    lemma_read_group(0xffff, rest);
    assert(rest.skip(1) =~= quad);
    lemma_read_v4(o, none);
    let pair = seq![(o[0] * 256 + o[1]) as u16, (o[2] * 256 + o[3]) as u16];
    assert(read_groups(rest, 1, 7) == (pair, true, none));
    let tail = seq![0xffffu16] + pair;
    assert(read_groups(t, 0, 7) == (tail, true, none));
    assert(Seq::<u16>::empty() + zero_groups(5) + tail =~= segments(a)) by {
        assert(a[0] == 0 && a[1] == 0 && a[2] == 0 && a[3] == 0 && a[4] == 0);
        assert(a[5] == 0 && a[6] == 0 && a[7] == 0 && a[8] == 0 && a[9] == 0);
    }
}

proof fn lemma_segments(a: Seq<u8>)
    requires
        a.len() == 16,
    ensures
        segment_octets(segments(a)) == a,
{
    assert(segment_octets(segments(a)) =~= a);
}

/// An address that is written as text reads back.
#[verifier::spinoff_prover]
#[verifier::rlimit(40)]
pub proof fn law_text_round_trip(a: Seq<u8>)
    requires
        a.len() == 4 || a.len() == 16,
    ensures
        ip_of_text(ip_text(a)) == Some(a),
{
    if a.len() == 4 {
        lemma_read_v4(a, Seq::empty());
        assert(v4_text(a) + Seq::<u8>::empty() =~= v4_text(a));
    } else {
        lemma_segments(a);
        if is_mapped(a) {
            lemma_read_mapped(a);
        } else {
            lemma_read_v6(a);
        }
    }
}

pub proof fn lemma_groups_count(s: Seq<u8>, i: nat, limit: nat)
    requires
        i <= limit,
    ensures
        i + read_groups(s, i, limit).0.len() <= limit,
    decreases limit - i,
{
    if let Some(t) = at_group(s, i) {
        if i < limit {
            if let Some((_, rest)) = read_digits(t, 16, 4) {
                lemma_groups_count(rest, i + 1, limit);
            }
        }
    }
}

/// What reads as an address has the octets of one.
pub proof fn lemma_text_len(s: Seq<u8>)
    ensures
        ip_of_text(s) matches Some(a) ==> a.len() == 4 || a.len() == 16,
{
    reveal(read_v4);
    lemma_groups_count(s, 0, 8);
    let (head, _, rest) = read_groups(s, 0, 8);
    if head.len() < 8 && rest.len() >= 2 {
        lemma_groups_count(rest.skip(2), 0, (7 - head.len()) as nat);
    }
}

} // verus!

//! Characters and strings: the small text operations the other modules share.
use crate::octets;
use vstd::prelude::*;
use vstd::utf8::*;

verus! {

/// A byte with an ASCII upper-case letter folded to lower case.
pub open spec fn lower(b: u8) -> u8 {
    if 0x41 <= b <= 0x5a {
        (b + 32) as u8
    } else {
        b
    }
}

pub fn to_lower(b: u8) -> (r: u8)
    ensures
        r == lower(b),
{
    if b >= 0x41 && b <= 0x5a {
        b + 32
    } else {
        b
    }
}

/// `std::str::from_utf8`: the text a byte string encodes, if the byte string
/// is UTF-8, and nothing otherwise.
#[verifier::external_body]
pub(crate) fn from_utf8(bytes: &[u8]) -> (r: Option<&str>)
    ensures
        r is Some <==> valid_utf8(bytes@),
        r is Some ==> r->0@ == decode_utf8(bytes@),
{
    std::str::from_utf8(bytes).ok()
}

/// Text is determined by its bytes.
pub proof fn lemma_bytes_determine_text(a: Seq<char>, b: Seq<char>)
    ensures
        encode_utf8(a) == encode_utf8(b) <==> a == b,
{
    encode_utf8_decode_utf8(a);
    encode_utf8_decode_utf8(b);
}

pub fn str_eq(a: &str, b: &str) -> (r: bool)
    ensures
        r == (a@ == b@),
{
    proof {
        lemma_bytes_determine_text(a@, b@);
    }
    octets::equal(a.as_bytes(), b.as_bytes())
}

/// ASCII bytes as characters.
pub open spec fn chars(b: Seq<u8>) -> Seq<char> {
    Seq::new(b.len(), |i: int| b[i] as char)
}

pub open spec fn is_ascii(b: Seq<u8>) -> bool {
    forall|i: int| 0 <= i < b.len() ==> #[trigger] b[i] < 0x80
}

pub proof fn lemma_ascii(b: Seq<u8>)
    requires
        is_ascii(b),
    ensures
        valid_utf8(b),
        encode_utf8(chars(b)) == b,
        decode_utf8(b) == chars(b),
{
    let c = chars(b);
    assert(is_ascii_chars(c));
    is_ascii_chars_encode_utf8(c);
    assert forall|i: int| 0 <= i < b.len() implies encode_utf8(c)[i] == b[i] by {
        assert(c[i] as u8 == encode_utf8(c)[i]);
    }
    assert(encode_utf8(c) =~= b);
    encode_utf8_valid_utf8(c);
    encode_utf8_decode_utf8(c);
}

/// ASCII bytes as a string.
pub fn ascii_string(b: &[u8]) -> (r: String)
    requires
        is_ascii(b@),
    ensures
        r@ == chars(b@),
        encode_utf8(r@) == b@,
{
    proof {
        lemma_ascii(b@);
    }
    match from_utf8(b) {
        Some(s) => s.to_owned(),
        None => String::new(),
    }
}

/// The byte of a digit below sixteen, in lower case.
pub open spec fn digit(d: nat) -> u8 {
    if d < 10 {
        (0x30 + d) as u8
    } else {
        (0x57 + d) as u8
    }
}

/// A number in decimal, without leading zeros.
pub open spec fn dec(n: nat) -> Seq<u8>
    decreases n,
{
    if n < 10 {
        seq![digit(n)]
    } else {
        dec(n / 10).push(digit(n % 10))
    }
}

/// A number in lower-case hexadecimal, without leading zeros.
pub open spec fn hex(n: nat) -> Seq<u8>
    decreases n,
{
    if n < 16 {
        seq![digit(n)]
    } else {
        hex(n / 16).push(digit(n % 16))
    }
}

pub proof fn lemma_dec_ascii(n: nat)
    ensures
        is_ascii(dec(n)),
        dec(n).len() >= 1,
    decreases n,
{
    if n >= 10 {
        lemma_dec_ascii(n / 10);
    }
}

pub proof fn lemma_hex_ascii(n: nat)
    ensures
        is_ascii(hex(n)),
        hex(n).len() >= 1,
    decreases n,
{
    if n >= 16 {
        lemma_hex_ascii(n / 16);
    }
}

pub fn push_dec(buf: &mut Vec<u8>, n: u64)
    ensures
        final(buf)@ == old(buf)@ + dec(n as nat),
    decreases n,
{
    if n < 10 {
        buf.push(0x30 + n as u8);
    } else {
        push_dec(buf, n / 10);
        buf.push(0x30 + (n % 10) as u8);
    }
    assert(buf@ =~= old(buf)@ + dec(n as nat));
}

pub fn push_hex(buf: &mut Vec<u8>, n: u16)
    ensures
        final(buf)@ == old(buf)@ + hex(n as nat),
    decreases n,
{
    let d: u8 = (n % 16) as u8;
    let c: u8 = if d < 10 {
        0x30 + d
    } else {
        0x57 + d
    };
    if n >= 16 {
        push_hex(buf, n / 16);
    }
    buf.push(c);
    assert(buf@ =~= old(buf)@ + hex(n as nat));
}

/// What a digit byte of the given base is worth.
pub open spec fn digit_value(b: u8, base: nat) -> Option<nat> {
    if 0x30 <= b <= 0x39 {
        Some((b - 0x30) as nat)
    } else if base == 16 && 0x61 <= b <= 0x66 {
        Some((b - 0x57) as nat)
    } else if base == 16 && 0x41 <= b <= 0x46 {
        Some((b - 0x37) as nat)
    } else {
        None
    }
}

/// How many digits a byte string starts with.
pub open spec fn digit_run(s: Seq<u8>, base: nat) -> nat
    decreases s.len(),
{
    if s.len() == 0 || digit_value(s[0], base) is None {
        0
    } else {
        1 + digit_run(s.skip(1), base)
    }
}

/// The number that a string of digits writes.
pub open spec fn digits_value(s: Seq<u8>, base: nat) -> nat
    decreases s.len(),
{
    if s.len() == 0 {
        0
    } else {
        digits_value(s.drop_last(), base) * base + digit_value(s.last(), base).unwrap_or(0)
    }
}

pub fn value_of_digit(b: u8, base: u64) -> (r: Option<u64>)
    ensures
        r is Some <==> digit_value(b, base as nat) is Some,
        r is Some ==> r->0 == digit_value(b, base as nat)->0 && r->0 < 16 && (base != 16 ==> r->0 < 10),
{
    if b >= 0x30 && b <= 0x39 {
        Some((b - 0x30) as u64)
    } else if base == 16 && b >= 0x61 && b <= 0x66 {
        Some((b - 0x57) as u64)
    } else if base == 16 && b >= 0x41 && b <= 0x46 {
        Some((b - 0x37) as u64)
    } else {
        None
    }
}

pub proof fn lemma_digit_run(s: Seq<u8>, k: nat, base: nat)
    requires
        k <= s.len(),
        forall|i: int| 0 <= i < k ==> digit_value(#[trigger] s[i], base) is Some,
        k < s.len() ==> digit_value(s[k as int], base) is None,
    ensures
        digit_run(s, base) == k,
    decreases k,
{
    if k > 0 {
        assert(s.skip(1)[k - 1] == s[k as int] || k == s.len());
        assert forall|i: int| 0 <= i < k - 1 implies digit_value(#[trigger] s.skip(1)[i], base) is Some by {
            assert(s.skip(1)[i] == s[i + 1]);
        }
        lemma_digit_run(s.skip(1), (k - 1) as nat, base);
    }
}

pub proof fn lemma_dec_digits(n: nat)
    ensures
        forall|i: int| 0 <= i < dec(n).len() ==> digit_value(#[trigger] dec(n)[i], 10) is Some,
        forall|i: int| 0 <= i < dec(n).len() ==> 0x30 <= #[trigger] dec(n)[i] <= 0x39,
        digits_value(dec(n), 10) == n,
        dec(n).len() >= 1,
        dec(n)[0] == 0x30 ==> dec(n).len() == 1,
        n < 1000 ==> dec(n).len() <= 3,
        n < 100 ==> dec(n).len() <= 2,
        n < 10 ==> dec(n).len() <= 1,
    decreases n,
{
    if n < 10 {
        reveal_with_fuel(digits_value, 2);
        assert(dec(n).drop_last() =~= Seq::<u8>::empty());
    } else {
        lemma_dec_digits(n / 10);
        assert(dec(n).drop_last() =~= dec(n / 10));
        assert(dec(n)[0] == dec(n / 10)[0]);
        if dec(n)[0] == 0x30 {
            assert(dec(n / 10).len() == 1);
            assert(dec(n / 10).drop_last() =~= Seq::<u8>::empty());
            reveal_with_fuel(digits_value, 2);
            assert(digits_value(dec(n / 10), 10) == 0);
        }
    }
}

pub proof fn lemma_hex_digits(n: nat)
    ensures
        forall|i: int| 0 <= i < hex(n).len() ==> digit_value(#[trigger] hex(n)[i], 16) is Some,
        forall|i: int|
            0 <= i < hex(n).len() ==> 0x30 <= #[trigger] hex(n)[i] <= 0x39 || 0x61 <= hex(n)[i] <= 0x66,
        digits_value(hex(n), 16) == n,
        hex(n).len() >= 1,
        n < 0x1_0000 ==> hex(n).len() <= 4,
        n < 0x1000 ==> hex(n).len() <= 3,
        n < 0x100 ==> hex(n).len() <= 2,
        n < 0x10 ==> hex(n).len() <= 1,
    decreases n,
{
    if n < 16 {
        reveal_with_fuel(digits_value, 2);
        assert(hex(n).drop_last() =~= Seq::<u8>::empty());
    } else {
        lemma_hex_digits(n / 16);
        assert(hex(n).drop_last() =~= hex(n / 16));
    }
}

/// The number that a text of decimal digits writes, a plus sign before them
/// allowed, where it is no more than `max`.
pub open spec fn uint_of(b: Seq<u8>, max: nat) -> Option<nat> {
    let d = if b.len() > 0 && b[0] == 0x2b {
        b.skip(1)
    } else {
        b
    };
    if d.len() == 0 || digit_run(d, 10) < d.len() || digits_value(d, 10) > max {
        None
    } else {
        Some(digits_value(d, 10))
    }
}

proof fn lemma_digits_value_grows(s: Seq<u8>, k: int)
    requires
        0 <= k <= s.len(),
    ensures
        digits_value(s.take(k), 10) <= digits_value(s, 10),
    decreases s.len() - k,
{
    if k == s.len() {
        assert(s.take(k) =~= s);
    } else {
        lemma_digits_value_grows(s.drop_last(), k);
        assert(s.drop_last().take(k) =~= s.take(k));
    }
}

proof fn lemma_run_bound(s: Seq<u8>, base: nat)
    ensures
        digit_run(s, base) <= s.len(),
        forall|i: int| 0 <= i < digit_run(s, base) ==> digit_value(#[trigger] s[i], base) is Some,
    decreases s.len(),
{
    if s.len() > 0 && digit_value(s[0], base) is Some {
        lemma_run_bound(s.skip(1), base);
        assert forall|i: int| 0 <= i < digit_run(s, base) implies digit_value(#[trigger] s[i], base) is Some by {
            if i > 0 {
                assert(s.skip(1)[i - 1] == s[i]);
            }
        }
    }
}

pub fn parse_uint(b: &[u8], max: u64) -> (r: Option<u64>)
    requires
        max <= 0xffff_ffff,
    ensures
        match uint_of(b@, max as nat) {
            Some(n) => r matches Some(v) && v == n,
            None => r is None,
        },
{
    let from: usize = if b.len() > 0 && b[0] == 0x2b {
        1
    } else {
        0
    };
    let ghost d = if b@.len() > 0 && b@[0] == 0x2b {
        b@.skip(1)
    } else {
        b@
    };
    if b.len() == from {
        return None;
    }
    let mut v: u64 = 0;
    let mut i: usize = from;
    while i < b.len()
        invariant
            from <= i <= b@.len(),
            d == if b@.len() > 0 && b@[0] == 0x2b {
                b@.skip(1)
            } else {
                b@
            },
            from <= 1,
            d.len() == b@.len() - from,
            forall|j: int| 0 <= j < d.len() ==> #[trigger] d[j] == b@[from + j],
            max <= 0xffff_ffff,
            v <= max,
            v == digits_value(d.take(i - from), 10),
            forall|j: int| 0 <= j < i - from ==> digit_value(#[trigger] d[j], 10) is Some,
        decreases b@.len() - i,
    {
        assert(d[i - from] == b@[i as int]);
        match value_of_digit(b[i], 10) {
            None => {
                proof {
                    lemma_run_bound(d, 10);
                }
                return None;
            },
            Some(x) => {
                assert(d.take(i - from + 1).drop_last() =~= d.take(i - from));
                v = v * 10 + x;
                if v > max {
                    proof {
                        lemma_digits_value_grows(d, i - from + 1);
                    }
                    return None;
                }
                i += 1;
            },
        }
    }
    proof {
        assert(d.take(i - from) =~= d);
        lemma_digit_run(d, d.len(), 10);
    }
    Some(v)
}

pub proof fn lemma_uint_of_dec(n: nat, max: nat)
    requires
        n <= max,
    ensures
        uint_of(dec(n), max) == Some(n),
{
    lemma_dec_digits(n);
    lemma_digit_run(dec(n), dec(n).len(), 10);
}

/// A number as a string of decimal digits.
pub fn dec_string(n: u64) -> (r: String)
    ensures
        r@ == chars(dec(n as nat)),
{
    let mut digits: Vec<u8> = Vec::new();
    push_dec(&mut digits, n);
    assert(digits@ =~= dec(n as nat));
    proof {
        lemma_dec_ascii(n as nat);
    }
    ascii_string(digits.as_slice())
}

/// A byte string with ASCII letters in upper case.
pub open spec fn upper(b: Seq<u8>) -> Seq<u8> {
    Seq::new(
        b.len(),
        |i: int|
            if 0x61 <= b[i] <= 0x7a {
                (b[i] - 32) as u8
            } else {
                b[i]
            },
    )
}

pub fn to_upper_bytes(b: &[u8]) -> (r: Vec<u8>)
    ensures
        r@ == upper(b@),
{
    let mut out: Vec<u8> = Vec::new();
    let mut i: usize = 0;
    while i < b.len()
        invariant
            i <= b@.len(),
            out@.len() == i,
            forall|j: int| 0 <= j < i ==> #[trigger] out@[j] == upper(b@)[j],
        decreases b@.len() - i,
    {
        let c: u8 = b[i];
        out.push(if c >= 0x61 && c <= 0x7a { c - 32 } else { c });
        i += 1;
    }
    assert(out@ =~= upper(b@));
    out
}

// Space around text.

/// Whether a character is white space: the `White_Space` property of Unicode.
pub open spec fn is_white(c: char) -> bool {
    let n = c as u32;
    ||| 0x9 <= n <= 0xd
    ||| n == 0x20
    ||| n == 0x85
    ||| n == 0xa0
    ||| n == 0x1680
    ||| 0x2000 <= n <= 0x200a
    ||| n == 0x2028
    ||| n == 0x2029
    ||| n == 0x202f
    ||| n == 0x205f
    ||| n == 0x3000
}

/// A text without the white space at its ends.
pub open spec fn trimmed(s: Seq<char>) -> Seq<char>
    decreases s.len(),
{
    if s.len() == 0 {
        s
    } else if is_white(s[0]) {
        trimmed(s.skip(1))
    } else if is_white(s.last()) {
        trimmed(s.drop_last())
    } else {
        s
    }
}

/// `str::trim`: the text without leading and trailing white space, which is
/// what Unicode's `White_Space` property says it is.
#[verifier::external_body]
pub(crate) fn trim(s: &str) -> (r: &str)
    ensures
        r@ == trimmed(s@),
{
    s.trim()
}

/// The text that a byte string encodes, if it encodes one.
pub open spec fn utf8_text(b: Seq<u8>) -> Option<Seq<char>> {
    if valid_utf8(b) {
        Some(decode_utf8(b))
    } else {
        None
    }
}

pub open spec fn opt_text(s: Option<String>) -> Option<Seq<char>> {
    match s {
        Some(s) => Some(s@),
        None => None,
    }
}

pub fn utf8_string(b: &[u8]) -> (r: Option<String>)
    ensures
        opt_text(r) == utf8_text(b@),
{
    match from_utf8(b) {
        Some(s) => Some(s.to_owned()),
        None => None,
    }
}

} // verus!

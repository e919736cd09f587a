//! Integers as byte strings, and byte strings in vectors.
use vstd::prelude::*;

verus! {

/// The number a big-endian byte string writes.
pub open spec fn be_value(s: Seq<u8>) -> nat
    decreases s.len(),
{
    if s.len() == 0 {
        0
    } else {
        be_value(s.drop_last()) * 256 + s.last() as nat
    }
}

/// The low `n` bytes of `v`, most significant first.
pub open spec fn be_bytes(v: nat, n: nat) -> Seq<u8>
    decreases n,
{
    if n == 0 {
        Seq::empty()
    } else {
        be_bytes(v / 256, (n - 1) as nat).push((v % 256) as u8)
    }
}

/// How many numbers `n` bytes can write.
pub open spec fn pow256(n: nat) -> nat
    decreases n,
{
    if n == 0 {
        1
    } else {
        256 * pow256((n - 1) as nat)
    }
}

pub proof fn lemma_pow256()
    ensures
        pow256(0) == 1,
        pow256(1) == 0x100,
        pow256(2) == 0x1_0000,
        pow256(4) == 0x1_0000_0000,
        pow256(8) == 0x1_0000_0000_0000_0000,
{
    reveal_with_fuel(pow256, 9);
}

pub proof fn lemma_pow256_monotonic(a: nat, b: nat)
    requires
        a <= b,
    ensures
        0 < pow256(a) <= pow256(b),
    decreases b,
{
    if a < b {
        lemma_pow256_monotonic(a, (b - 1) as nat);
    } else if b > 0 {
        lemma_pow256_monotonic((b - 1) as nat, (b - 1) as nat);
    }
}

pub proof fn lemma_be_value_bound(s: Seq<u8>)
    ensures
        be_value(s) < pow256(s.len()),
    decreases s.len(),
{
    if s.len() > 0 {
        lemma_be_value_bound(s.drop_last());
    }
}

/// Writing a number in enough bytes and reading it back gives the number.
pub proof fn lemma_be_round_trip(v: nat, n: nat)
    ensures
        be_bytes(v, n).len() == n,
        v < pow256(n) ==> be_value(be_bytes(v, n)) == v,
    decreases n,
{
    if n > 0 {
        lemma_be_round_trip(v / 256, (n - 1) as nat);
        assert(be_bytes(v, n).drop_last() =~= be_bytes(v / 256, (n - 1) as nat));
    }
}

/// Reading a byte string as a number and writing it back gives the string.
pub proof fn lemma_be_bytes_of_value(s: Seq<u8>)
    ensures
        be_bytes(be_value(s), s.len()) == s,
    decreases s.len(),
{
    if s.len() > 0 {
        lemma_be_bytes_of_value(s.drop_last());
        assert(be_value(s) / 256 == be_value(s.drop_last()));
        assert(be_value(s) % 256 == s.last() as nat);
        assert(s =~= s.drop_last().push(s.last()));
    } else {
        assert(be_bytes(be_value(s), 0) =~= s);
    }
}

/// Appends the low `n` bytes of `v`, most significant first.
pub fn push_be(buf: &mut Vec<u8>, v: u64, n: usize)
    ensures
        final(buf)@ == old(buf)@ + be_bytes(v as nat, n as nat),
    decreases n,
{
    if n > 0 {
        push_be(buf, v / 256, n - 1);
        buf.push((v % 256) as u8);
    }
    assert(buf@ =~= old(buf)@ + be_bytes(v as nat, n as nat));
}

/// The number a byte string of at most eight bytes writes, big-endian.
pub fn value_be(s: &[u8]) -> (v: u64)
    requires
        s@.len() <= 8,
    ensures
        v == be_value(s@),
{
    let mut v: u64 = 0;
    let mut i: usize = 0;
    while i < s.len()
        invariant
            i <= s@.len() <= 8,
            v == be_value(s@.take(i as int)),
        decreases s@.len() - i,
    {
        proof {
            lemma_be_value_bound(s@.take(i as int));
            lemma_pow256();
            lemma_pow256_monotonic(i as nat, 7);
            assert(pow256(8) == 256 * pow256(7));
            assert(s@.take(i + 1).drop_last() =~= s@.take(i as int));
        }
        v = v * 256 + s[i] as u64;
        i += 1;
    }
    assert(s@.take(i as int) =~= s@);
    v
}

/// Joining byte strings is associative.
pub broadcast proof fn lemma_join(a: Seq<u8>, b: Seq<u8>, c: Seq<u8>)
    ensures
        #[trigger] ((a + b) + c) == a + (b + c),
{
    assert((a + b) + c =~= a + (b + c));
}

/// Appends a byte string.
pub fn push_all(buf: &mut Vec<u8>, s: &[u8])
    ensures
        final(buf)@ == old(buf)@ + s@,
{
    buf.extend_from_slice(s);
    assert(buf@ =~= old(buf)@ + s@);
}

/// The bytes of `s` from `from` up to `to`.
pub fn copy_range(s: &[u8], from: usize, to: usize) -> (r: Vec<u8>)
    requires
        from <= to <= s@.len(),
    ensures
        r@ == s@.subrange(from as int, to as int),
{
    let mut r: Vec<u8> = Vec::new();
    push_all(&mut r, vstd::slice::slice_subrange(s, from, to));
    assert(r@ =~= s@.subrange(from as int, to as int));
    r
}

pub fn copy(s: &[u8]) -> (r: Vec<u8>)
    ensures
        r@ == s@,
{
    let mut r: Vec<u8> = Vec::new();
    push_all(&mut r, s);
    assert(r@ =~= s@);
    r
}

pub fn equal(a: &[u8], b: &[u8]) -> (r: bool)
    ensures
        r == (a@ == b@),
{
    if a.len() != b.len() {
        return false;
    }
    let mut i: usize = 0;
    while i < a.len()
        invariant
            i <= a@.len() == b@.len(),
            forall|j: int| 0 <= j < i ==> a@[j] == b@[j],
        decreases a@.len() - i,
    {
        if a[i] != b[i] {
            return false;
        }
        i += 1;
    }
    assert(a@ =~= b@);
    true
}

/// Byte strings, one by one.
pub open spec fn strings(v: Seq<Vec<u8>>) -> Seq<Seq<u8>> {
    Seq::new(v.len(), |i: int| v[i]@)
}

/// What stands between occurrences of a byte.
pub open spec fn split(b: Seq<u8>, by: u8) -> Seq<Seq<u8>>
    decreases b.len(),
{
    if b.len() == 0 {
        seq![Seq::empty()]
    } else {
        let before = split(b.drop_last(), by);
        if b.last() == by {
            before.push(Seq::empty())
        } else {
            before.drop_last().push(before.last().push(b.last()))
        }
    }
}

/// The parts of a byte string between occurrences of a byte.
pub fn split_by(b: &[u8], by: u8) -> (r: Vec<Vec<u8>>)
    ensures
        strings(r@) == split(b@, by),
{
    let mut out: Vec<Vec<u8>> = Vec::new();
    let mut part: Vec<u8> = Vec::new();
    let mut i: usize = 0;
    assert(part@ =~= Seq::<u8>::empty());
    assert(strings(out@).push(part@) =~= split(b@.take(0), by));
    while i < b.len()
        invariant
            i <= b@.len(),
            strings(out@).push(part@) == split(b@.take(i as int), by),
        decreases b@.len() - i,
    {
        assert(b@.take(i + 1).drop_last() =~= b@.take(i as int));
        let ghost before = strings(out@).push(part@);
        if b[i] == by {
            out.push(part);
            part = Vec::new();
            assert(part@ =~= Seq::<u8>::empty());
            assert(strings(out@) =~= before);
        } else {
            let ghost was = part@;
            part.push(b[i]);
            assert(before.drop_last() =~= strings(out@));
            assert(before.last() == was);
        }
        i += 1;
    }
    assert(b@.take(i as int) =~= b@);
    let ghost before = strings(out@).push(part@);
    out.push(part);
    assert(strings(out@) =~= before);
    out
}

} // verus!

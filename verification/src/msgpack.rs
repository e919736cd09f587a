//! A MessagePack codec: the subset that messages here use, that is nil, bool,
//! integers, strings, binary, arrays and maps. Total: every input decodes or
//! returns an error.
//!
//! What a writer appends is given by the `enc_*` functions. What a reader does
//! is given by functions of the same names as its methods, from the unread
//! input to the result and the input that is left.
use crate::octets::{
    be_bytes, be_value, copy, lemma_be_round_trip, lemma_be_value_bound, lemma_pow256, pow256, push_all,
    push_be, value_be,
};
use crate::text;
use vstd::prelude::*;
use vstd::slice::slice_subrange;
use vstd::utf8::*;

verus! {

#[derive(Debug, Clone, Copy, PartialEq, Eq, Structural)]
pub enum Error {
    Truncated,
    /// The next value is not of the type asked for.
    Type,
    /// A float or extension, which no message here carries.
    Unsupported,
    Utf8,
    /// A container nested deeper than a message may.
    Depth,
}

impl Error {
    pub open spec fn text(self) -> Seq<char> {
        match self {
            Error::Truncated => "truncated message"@,
            Error::Type => "unexpected value type"@,
            Error::Unsupported => "unsupported value type"@,
            Error::Utf8 => "string is not UTF-8"@,
            Error::Depth => "nested too deeply"@,
        }
    }

    /// What went wrong, for people.
    pub fn as_str(self) -> (r: &'static str)
        ensures
            r@ == self.text(),
    {
        match self {
            Error::Truncated => "truncated message",
            Error::Type => "unexpected value type",
            Error::Unsupported => "unsupported value type",
            Error::Utf8 => "string is not UTF-8",
            Error::Depth => "nested too deeply",
        }
    }
}

#[derive(Debug, Clone, Copy, PartialEq, Eq, Structural)]
pub enum Type {
    Nil,
    Bool,
    Int,
    Str,
    Bin,
    Array,
    Mapping,
    Other,
}

// What each value looks like on the wire.

#[verifier::opaque]
pub open spec fn enc_nil() -> Seq<u8> {
    seq![0xc0u8]
}

#[verifier::opaque]
pub open spec fn enc_bool(v: bool) -> Seq<u8> {
    if v {
        seq![0xc3u8]
    } else {
        seq![0xc2u8]
    }
}

#[verifier::opaque]
pub open spec fn enc_uint(v: nat) -> Seq<u8> {
    if v < 0x80 {
        seq![v as u8]
    } else if v <= 0xff {
        seq![0xccu8] + be_bytes(v, 1)
    } else if v <= 0xffff {
        seq![0xcdu8] + be_bytes(v, 2)
    } else if v <= 0xffff_ffff {
        seq![0xceu8] + be_bytes(v, 4)
    } else {
        seq![0xcfu8] + be_bytes(v, 8)
    }
}

pub open spec fn enc_int(v: int) -> Seq<u8> {
    if v >= 0 {
        enc_uint(v as nat)
    } else if v >= -32 {
        seq![(0x100 + v) as u8]
    } else if v >= -0x80 {
        seq![0xd0u8] + be_bytes((0x100 + v) as nat, 1)
    } else if v >= -0x8000 {
        seq![0xd1u8] + be_bytes((0x1_0000 + v) as nat, 2)
    } else if v >= -0x8000_0000 {
        seq![0xd2u8] + be_bytes((0x1_0000_0000 + v) as nat, 4)
    } else {
        seq![0xd3u8] + be_bytes((0x1_0000_0000_0000_0000 + v) as nat, 8)
    }
}

/// The bytes before a string of `n` bytes. A length of more than four bytes
/// is cut to its low four.
pub open spec fn enc_str_header(n: nat) -> Seq<u8> {
    if n < 32 {
        seq![(0xa0 + n) as u8]
    } else if n <= 0xff {
        seq![0xd9u8] + be_bytes(n, 1)
    } else if n <= 0xffff {
        seq![0xdau8] + be_bytes(n, 2)
    } else {
        seq![0xdbu8] + be_bytes(n, 4)
    }
}

#[verifier::opaque]
pub open spec fn enc_str(s: Seq<char>) -> Seq<u8> {
    enc_str_header(encode_utf8(s).len()) + encode_utf8(s)
}

pub open spec fn enc_bin_header(n: nat) -> Seq<u8> {
    if n <= 0xff {
        seq![0xc4u8] + be_bytes(n, 1)
    } else if n <= 0xffff {
        seq![0xc5u8] + be_bytes(n, 2)
    } else {
        seq![0xc6u8] + be_bytes(n, 4)
    }
}

#[verifier::opaque]
pub open spec fn enc_bin(b: Seq<u8>) -> Seq<u8> {
    enc_bin_header(b.len()) + b
}

#[verifier::opaque]
pub open spec fn enc_array(n: nat) -> Seq<u8> {
    if n < 16 {
        seq![(0x90 + n) as u8]
    } else if n <= 0xffff {
        seq![0xdcu8] + be_bytes(n, 2)
    } else {
        seq![0xddu8] + be_bytes(n, 4)
    }
}

#[verifier::opaque]
pub open spec fn enc_map(n: nat) -> Seq<u8> {
    if n < 16 {
        seq![(0x80 + n) as u8]
    } else if n <= 0xffff {
        seq![0xdeu8] + be_bytes(n, 2)
    } else {
        seq![0xdfu8] + be_bytes(n, 4)
    }
}

pub struct Writer {
    buf: Vec<u8>,
}

impl View for Writer {
    type V = Seq<u8>;

    closed spec fn view(&self) -> Seq<u8> {
        self.buf@
    }
}

impl Default for Writer {
    fn default() -> (r: Writer)
        ensures
            r@ == Seq::<u8>::empty(),
    {
        Writer { buf: Vec::new() }
    }
}

impl Writer {
    pub fn new() -> (r: Writer)
        ensures
            r@ == Seq::<u8>::empty(),
    {
        Writer { buf: Vec::with_capacity(256) }
    }

    pub fn write_nil(&mut self) -> (r: &mut Self)
        ensures
            r@ == old(self)@ + enc_nil(),
            *final(self) == *final(r),
    {
        reveal(enc_nil);
        self.buf.push(0xc0);
        assert(self.buf@ =~= old(self)@ + enc_nil());
        self
    }

    pub fn write_bool(&mut self, v: bool) -> (r: &mut Self)
        ensures
            r@ == old(self)@ + enc_bool(v),
            *final(self) == *final(r),
    {
        reveal(enc_bool);
        self.buf.push(if v { 0xc3 } else { 0xc2 });
        assert(self.buf@ =~= old(self)@ + enc_bool(v));
        self
    }

    fn tagged(&mut self, tag: u8, v: u64, n: usize)
        ensures
            final(self)@ == old(self)@ + (seq![tag] + be_bytes(v as nat, n as nat)),
    {
        self.buf.push(tag);
        push_be(&mut self.buf, v, n);
        assert(self.buf@ =~= old(self)@ + (seq![tag] + be_bytes(v as nat, n as nat)));
    }

    fn single(&mut self, b: u8)
        ensures
            final(self)@ == old(self)@ + seq![b],
    {
        self.buf.push(b);
        assert(self.buf@ =~= old(self)@ + seq![b]);
    }

    pub fn write_uint(&mut self, v: u64) -> (r: &mut Self)
        ensures
            r@ == old(self)@ + enc_uint(v as nat),
            *final(self) == *final(r),
    {
        reveal(enc_uint);
        if v < 0x80 {
            self.single(v as u8);
        } else if v <= 0xff {
            self.tagged(0xcc, v, 1);
        } else if v <= 0xffff {
            self.tagged(0xcd, v, 2);
        } else if v <= 0xffff_ffff {
            self.tagged(0xce, v, 4);
        } else {
            self.tagged(0xcf, v, 8);
        }
        self
    }

    pub fn write_int(&mut self, v: i64) -> (r: &mut Self)
        ensures
            r@ == old(self)@ + enc_int(v as int),
            *final(self) == *final(r),
    {
        if v >= 0 {
            return self.write_uint(v as u64);
        }
        // The two's complement of `v`, counted down from the top.
        let below: u64 = (-1 - v) as u64;
        if v >= -32 {
            self.single((0xff - below) as u8);
        } else if v >= -0x80 {
            self.tagged(0xd0, 0xff - below, 1);
        } else if v >= -0x8000 {
            self.tagged(0xd1, 0xffff - below, 2);
        } else if v >= -0x8000_0000 {
            self.tagged(0xd2, 0xffff_ffff - below, 4);
        } else {
            self.tagged(0xd3, 0xffff_ffff_ffff_ffff - below, 8);
        }
        self
    }

    pub fn write_str(&mut self, s: &str) -> (r: &mut Self)
        ensures
            r@ == old(self)@ + enc_str(s@),
            *final(self) == *final(r),
    {
        reveal(enc_str);
        let bytes = s.as_bytes();
        let n: usize = bytes.len();
        if n < 32 {
            self.single(0xa0 + n as u8);
        } else if n <= 0xff {
            self.tagged(0xd9, n as u64, 1);
        } else if n <= 0xffff {
            self.tagged(0xda, n as u64, 2);
        } else {
            self.tagged(0xdb, n as u64, 4);
        }
        push_all(&mut self.buf, bytes);
        assert(self.buf@ =~= old(self)@ + enc_str(s@));
        self
    }

    pub fn write_bin(&mut self, b: &[u8]) -> (r: &mut Self)
        ensures
            r@ == old(self)@ + enc_bin(b@),
            *final(self) == *final(r),
    {
        reveal(enc_bin);
        let n: usize = b.len();
        if n <= 0xff {
            self.tagged(0xc4, n as u64, 1);
        } else if n <= 0xffff {
            self.tagged(0xc5, n as u64, 2);
        } else {
            self.tagged(0xc6, n as u64, 4);
        }
        push_all(&mut self.buf, b);
        assert(self.buf@ =~= old(self)@ + enc_bin(b@));
        self
    }

    pub fn write_array(&mut self, count: u32) -> (r: &mut Self)
        ensures
            r@ == old(self)@ + enc_array(count as nat),
            *final(self) == *final(r),
    {
        reveal(enc_array);
        if count < 16 {
            self.single(0x90 + count as u8);
        } else if count <= 0xffff {
            self.tagged(0xdc, count as u64, 2);
        } else {
            self.tagged(0xdd, count as u64, 4);
        }
        self
    }

    pub fn write_map(&mut self, count: u32) -> (r: &mut Self)
        ensures
            r@ == old(self)@ + enc_map(count as nat),
            *final(self) == *final(r),
    {
        reveal(enc_map);
        if count < 16 {
            self.single(0x80 + count as u8);
        } else if count <= 0xffff {
            self.tagged(0xde, count as u64, 2);
        } else {
            self.tagged(0xdf, count as u64, 4);
        }
        self
    }

    pub fn to_bytes(&self) -> (r: Vec<u8>)
        ensures
            r@ == self@,
    {
        copy(self.buf.as_slice())
    }

    pub fn into_bytes(self) -> (r: Vec<u8>)
        ensures
            r@ == self@,
    {
        self.buf
    }
}

/// Containers inside one another that `skip` walks.
pub const MAX_DEPTH: u32 = 32;

/// What a reader has before it: the unread bytes, and how many containers
/// are open around them.
#[verifier::ext_equal]
pub struct Input {
    pub rest: Seq<u8>,
    pub depth: nat,
}

pub open spec fn input(rest: Seq<u8>, depth: nat) -> Input {
    Input { rest, depth }
}

// What each read does.

pub open spec fn byte(i: Input) -> (Result<u8, Error>, Input) {
    if i.rest.len() == 0 {
        (Err(Error::Truncated), i)
    } else {
        (Ok(i.rest[0]), input(i.rest.skip(1), i.depth))
    }
}

pub open spec fn take(i: Input, n: nat) -> (Result<Seq<u8>, Error>, Input) {
    if n > i.rest.len() {
        (Err(Error::Truncated), i)
    } else {
        (Ok(i.rest.take(n as int)), input(i.rest.skip(n as int), i.depth))
    }
}

/// An unsigned big-endian number of `n` bytes.
pub open spec fn number(i: Input, n: nat) -> (Result<nat, Error>, Input) {
    match take(i, n) {
        (Ok(s), j) => (Ok(be_value(s)), j),
        (Err(e), j) => (Err(e), j),
    }
}

/// An unsigned number of `n` bytes read as two's complement.
pub open spec fn signed(v: nat, n: nat) -> int {
    if 2 * v < pow256(n) {
        v as int
    } else {
        v - pow256(n)
    }
}

pub open spec fn type_of(b: u8) -> Type {
    if b == 0xc0 {
        Type::Nil
    } else if b == 0xc2 || b == 0xc3 {
        Type::Bool
    } else if b <= 0x7f || b >= 0xe0 || 0xcc <= b <= 0xd3 {
        Type::Int
    } else if 0xa0 <= b <= 0xbf || 0xd9 <= b <= 0xdb {
        Type::Str
    } else if 0xc4 <= b <= 0xc6 {
        Type::Bin
    } else if 0x90 <= b <= 0x9f || b == 0xdc || b == 0xdd {
        Type::Array
    } else if 0x80 <= b <= 0x8f || b == 0xde || b == 0xdf {
        Type::Mapping
    } else {
        Type::Other
    }
}

pub open spec fn peek(i: Input) -> Option<Type> {
    if i.rest.len() == 0 {
        None
    } else {
        Some(type_of(i.rest[0]))
    }
}

#[verifier::opaque]
pub open spec fn read_nil(i: Input) -> (Result<(), Error>, Input) {
    match byte(i) {
        (Ok(b), j) => (if b == 0xc0 { Ok(()) } else { Err(Error::Type) }, j),
        (Err(e), j) => (Err(e), j),
    }
}

#[verifier::opaque]
pub open spec fn read_bool(i: Input) -> (Result<bool, Error>, Input) {
    match byte(i) {
        (Ok(b), j) => (
            if b == 0xc2 {
                Ok(false)
            } else if b == 0xc3 {
                Ok(true)
            } else {
                Err(Error::Type)
            },
            j,
        ),
        (Err(e), j) => (Err(e), j),
    }
}

/// The width of the number after a tag that is the `k`th of its group.
pub open spec fn width(k: int) -> nat {
    if k == 0 {
        1
    } else if k == 1 {
        2
    } else if k == 2 {
        4
    } else {
        8
    }
}

/// An integer of either kind: all that the format holds, from the least signed
/// to the largest unsigned one.
#[verifier::opaque]
pub open spec fn integer(i: Input) -> (Result<int, Error>, Input) {
    match byte(i) {
        (Err(e), j) => (Err(e), j),
        (Ok(b), j) => if b <= 0x7f {
            (Ok(b as int), j)
        } else if b >= 0xe0 {
            (Ok(b - 0x100), j)
        } else if 0xcc <= b <= 0xcf {
            match number(j, width(b - 0xcc)) {
                (Err(e), k) => (Err(e), k),
                (Ok(v), k) => (Ok(v as int), k),
            }
        } else if 0xd0 <= b <= 0xd3 {
            match number(j, width(b - 0xd0)) {
                (Err(e), k) => (Err(e), k),
                (Ok(v), k) => (Ok(signed(v, width(b - 0xd0))), k),
            }
        } else {
            (Err(Error::Type), j)
        },
    }
}

/// A signed integer; a larger unsigned one is of another type.
#[verifier::opaque]
pub open spec fn read_int(i: Input) -> (Result<i64, Error>, Input) {
    match integer(i) {
        (Err(e), j) => (Err(e), j),
        (Ok(v), j) => if v <= i64::MAX {
            (Ok(v as i64), j)
        } else {
            (Err(Error::Type), j)
        },
    }
}

/// An unsigned integer; a negative one is of another type.
#[verifier::opaque]
pub open spec fn read_uint(i: Input) -> (Result<u64, Error>, Input) {
    match integer(i) {
        (Err(e), j) => (Err(e), j),
        (Ok(v), j) => if v >= 0 {
            (Ok(v as u64), j)
        } else {
            (Err(Error::Type), j)
        },
    }
}

/// A length: in the tag itself where the tag is from `base` up to
/// `base + short - 1`, else in the bytes after one of three tags from `long`,
/// the first of which is absent for containers.
pub open spec fn read_length(i: Input, base: int, short: int, long: int, skipped: int) -> (Result<
    nat,
    Error,
>, Input) {
    match byte(i) {
        (Err(e), j) => (Err(e), j),
        (Ok(b), j) => if base <= b < base + short {
            (Ok((b - base) as nat), j)
        } else if long + skipped <= b <= long + 2 {
            number(j, width(b - long))
        } else {
            (Err(Error::Type), j)
        },
    }
}

pub open spec fn read_str_bytes(i: Input) -> (Result<Seq<u8>, Error>, Input) {
    match read_length(i, 0xa0, 32, 0xd9, 0) {
        (Err(e), j) => (Err(e), j),
        (Ok(n), j) => take(j, n),
    }
}

#[verifier::opaque]
pub open spec fn read_str(i: Input) -> (Result<Seq<char>, Error>, Input) {
    match read_str_bytes(i) {
        (Err(e), j) => (Err(e), j),
        (Ok(s), j) => if valid_utf8(s) {
            (Ok(decode_utf8(s)), j)
        } else {
            (Err(Error::Utf8), j)
        },
    }
}

#[verifier::opaque]
pub open spec fn read_bin(i: Input) -> (Result<Seq<u8>, Error>, Input) {
    match read_length(i, 0, 0, 0xc4, 0) {
        (Err(e), j) => (Err(e), j),
        (Ok(n), j) => take(j, n),
    }
}

/// A count larger than the bytes left cannot be honest.
#[verifier::opaque]
pub open spec fn read_array(i: Input) -> (Result<nat, Error>, Input) {
    match read_length(i, 0x90, 16, 0xdb, 1) {
        (Err(e), j) => (Err(e), j),
        (Ok(n), j) => if n > j.rest.len() {
            (Err(Error::Truncated), j)
        } else {
            (Ok(n), j)
        },
    }
}

#[verifier::opaque]
pub open spec fn read_map(i: Input) -> (Result<nat, Error>, Input) {
    match read_length(i, 0x80, 16, 0xdd, 1) {
        (Err(e), j) => (Err(e), j),
        (Ok(n), j) => if 2 * n > j.rest.len() {
            (Err(Error::Truncated), j)
        } else {
            (Ok(n), j)
        },
    }
}

pub open spec fn no_value<T>(r: (Result<T, Error>, Input)) -> (Result<(), Error>, Seq<u8>) {
    match r {
        (Ok(_), j) => (Ok(()), j.rest),
        (Err(e), j) => (Err(e), j.rest),
    }
}

/// One value of any supported type, stepped over with `depth` containers open.
pub open spec fn skip_one(rest: Seq<u8>, depth: nat) -> (Result<(), Error>, Seq<u8>)
    decreases (MAX_DEPTH + 1 - depth), 0nat,
{
    let i = input(rest, depth);
    match peek(i) {
        None => (Err(Error::Truncated), rest),
        Some(Type::Nil) => no_value(read_nil(i)),
        Some(Type::Bool) => no_value(read_bool(i)),
        Some(Type::Int) => no_value(integer(i)),
        Some(Type::Str) => no_value(read_str(i)),
        Some(Type::Bin) => no_value(read_bin(i)),
        Some(Type::Array) => match read_array(i) {
            (Err(e), j) => (Err(e), j.rest),
            (Ok(n), j) => if depth >= MAX_DEPTH {
                (Err(Error::Depth), j.rest)
            } else {
                skip_many(j.rest, depth + 1, n)
            },
        },
        Some(Type::Mapping) => match read_map(i) {
            (Err(e), j) => (Err(e), j.rest),
            (Ok(n), j) => if depth >= MAX_DEPTH {
                (Err(Error::Depth), j.rest)
            } else {
                skip_many(j.rest, depth + 1, 2 * n)
            },
        },
        Some(Type::Other) => (Err(Error::Unsupported), rest),
    }
}

pub open spec fn skip_many(rest: Seq<u8>, depth: nat, n: nat) -> (Result<(), Error>, Seq<u8>)
    decreases (MAX_DEPTH + 1 - depth), n + 1,
{
    if n == 0 {
        (Ok(()), rest)
    } else {
        match skip_one(rest, depth) {
            (Ok(_), left) => skip_many(left, depth, (n - 1) as nat),
            (Err(e), left) => (Err(e), left),
        }
    }
}

/// A container that is one too deep stays counted as open.
pub open spec fn depth_after(r: Result<(), Error>, depth: nat) -> nat {
    if r == Err::<(), Error>(Error::Depth) && depth <= MAX_DEPTH {
        depth + 1
    } else {
        depth
    }
}

pub open spec fn skip(i: Input) -> (Result<(), Error>, Input) {
    let (r, left) = skip_one(i.rest, i.depth);
    (r, input(left, depth_after(r, i.depth)))
}

pub open spec fn str_view(r: Result<&str, Error>) -> Result<Seq<char>, Error> {
    match r {
        Ok(s) => Ok(s@),
        Err(e) => Err(e),
    }
}

pub open spec fn bytes_view(r: Result<&[u8], Error>) -> Result<Seq<u8>, Error> {
    match r {
        Ok(s) => Ok(s@),
        Err(e) => Err(e),
    }
}

pub open spec fn int_view(r: Result<i128, Error>) -> Result<int, Error> {
    match r {
        Ok(n) => Ok(n as int),
        Err(e) => Err(e),
    }
}

pub open spec fn count_view(r: Result<usize, Error>) -> Result<nat, Error> {
    match r {
        Ok(n) => Ok(n as nat),
        Err(e) => Err(e),
    }
}

pub struct Reader<'a> {
    buf: &'a [u8],
    pos: usize,
    depth: u32,
}

impl<'a> View for Reader<'a> {
    type V = Input;

    closed spec fn view(&self) -> Input {
        input(self.buf@.skip(self.pos as int), self.depth as nat)
    }
}

impl<'a> Reader<'a> {
    #[verifier::type_invariant]
    spec fn inside(&self) -> bool {
        self.pos <= self.buf@.len() && self.depth <= MAX_DEPTH + 1
    }

    pub fn new(buf: &'a [u8]) -> (r: Reader<'a>)
        ensures
            r@ == input(buf@, 0),
    {
        let r = Reader { buf, pos: 0, depth: 0 };
        assert(r@.rest =~= buf@);
        r
    }

    pub fn remaining(&self) -> (n: usize)
        ensures
            n == self@.rest.len(),
    {
        proof {
            use_type_invariant(self);
        }
        self.buf.len() - self.pos
    }

    fn byte(&mut self) -> (r: Result<u8, Error>)
        ensures
            (r, final(self)@) == byte(old(self)@),
    {
        proof {
            use_type_invariant(&*self);
        }
        if self.pos >= self.buf.len() {
            return Err(Error::Truncated);
        }
        let b = self.buf[self.pos];
        self.pos += 1;
        assert(self@.rest =~= old(self)@.rest.skip(1));
        Ok(b)
    }

    fn take(&mut self, n: usize) -> (r: Result<&'a [u8], Error>)
        ensures
            (bytes_view(r), final(self)@) == take(old(self)@, n as nat),
    {
        proof {
            use_type_invariant(&*self);
        }
        if n > self.buf.len() - self.pos {
            return Err(Error::Truncated);
        }
        let s = slice_subrange(self.buf, self.pos, self.pos + n);
        self.pos += n;
        assert(s@ =~= old(self)@.rest.take(n as int));
        assert(self@.rest =~= old(self)@.rest.skip(n as int));
        Ok(s)
    }

    fn be_u(&mut self, n: usize) -> (r: Result<u64, Error>)
        requires
            n <= 8,
        ensures
            match r {
                Ok(v) => (Ok::<nat, Error>(v as nat), final(self)@) == number(old(self)@, n as nat)
                    && v < pow256(n as nat),
                Err(e) => (Err::<nat, Error>(e), final(self)@) == number(old(self)@, n as nat),
            },
    {
        match self.take(n) {
            Ok(s) => {
                proof {
                    lemma_be_value_bound(s@);
                }
                Ok(value_be(s))
            },
            Err(e) => Err(e),
        }
    }

    pub fn peek(&self) -> (r: Option<Type>)
        ensures
            r == peek(self@),
    {
        proof {
            use_type_invariant(self);
        }
        if self.pos >= self.buf.len() {
            return None;
        }
        let b: u8 = self.buf[self.pos];
        Some(
            match b {
                0xc0 => Type::Nil,
                0xc2 | 0xc3 => Type::Bool,
                0x00..=0x7f | 0xe0..=0xff | 0xcc..=0xd3 => Type::Int,
                0xa0..=0xbf | 0xd9..=0xdb => Type::Str,
                0xc4..=0xc6 => Type::Bin,
                0x90..=0x9f | 0xdc | 0xdd => Type::Array,
                0x80..=0x8f | 0xde | 0xdf => Type::Mapping,
                _ => Type::Other,
            },
        )
    }

    pub fn read_nil(&mut self) -> (r: Result<(), Error>)
        ensures
            (r, final(self)@) == read_nil(old(self)@),
    {
        reveal(read_nil);
        match self.byte()? {
            0xc0 => Ok(()),
            _ => Err(Error::Type),
        }
    }

    pub fn read_bool(&mut self) -> (r: Result<bool, Error>)
        ensures
            (r, final(self)@) == read_bool(old(self)@),
    {
        reveal(read_bool);
        match self.byte()? {
            0xc2 => Ok(false),
            0xc3 => Ok(true),
            _ => Err(Error::Type),
        }
    }

    fn integer(&mut self) -> (r: Result<i128, Error>)
        ensures
            (int_view(r), final(self)@) == integer(old(self)@),
            r matches Ok(v) ==> i64::MIN <= v <= u64::MAX,
    {
        reveal(integer);
        proof {
            lemma_pow256();
        }
        let b: u8 = self.byte()?;
        if b <= 0x7f {
            Ok(b as i128)
        } else if b >= 0xe0 {
            Ok(b as i128 - 0x100)
        } else if b >= 0xcc && b <= 0xcf {
            let n: usize = if b == 0xcc { 1 } else if b == 0xcd { 2 } else if b == 0xce { 4 } else { 8 };
            let v: u64 = self.be_u(n)?;
            Ok(v as i128)
        } else if b == 0xd0 {
            let v: u64 = self.be_u(1)?;
            Ok(if v < 0x80 { v as i128 } else { v as i128 - 0x100 })
        } else if b == 0xd1 {
            let v: u64 = self.be_u(2)?;
            Ok(if v < 0x8000 { v as i128 } else { v as i128 - 0x1_0000 })
        } else if b == 0xd2 {
            let v: u64 = self.be_u(4)?;
            Ok(if v < 0x8000_0000 { v as i128 } else { v as i128 - 0x1_0000_0000 })
        } else if b == 0xd3 {
            let v: u64 = self.be_u(8)?;
            Ok(if v <= i64::MAX as u64 { v as i128 } else { v as i128 - 0x1_0000_0000_0000_0000 })
        } else {
            Err(Error::Type)
        }
    }

    pub fn read_int(&mut self) -> (r: Result<i64, Error>)
        ensures
            (r, final(self)@) == read_int(old(self)@),
    {
        reveal(read_int);
        let v: i128 = self.integer()?;
        if v <= i64::MAX as i128 {
            Ok(v as i64)
        } else {
            Err(Error::Type)
        }
    }

    pub fn read_uint(&mut self) -> (r: Result<u64, Error>)
        ensures
            (r, final(self)@) == read_uint(old(self)@),
    {
        reveal(read_uint);
        let v: i128 = self.integer()?;
        if v >= 0 {
            Ok(v as u64)
        } else {
            Err(Error::Type)
        }
    }

    fn read_length(&mut self, base: u8, short: u8, long: u8, skipped: u8) -> (r: Result<usize, Error>)
        requires
            base + short <= 0x100,
            skipped <= 2,
            long + 2 <= 0xff,
        ensures
            (count_view(r), final(self)@) == read_length(
                old(self)@,
                base as int,
                short as int,
                long as int,
                skipped as int,
            ),
    {
        proof {
            lemma_pow256();
        }
        let b: u8 = self.byte()?;
        if b >= base && b - base < short {
            Ok((b - base) as usize)
        } else if b >= long + skipped && b <= long + 2 {
            let n: usize = if b == long { 1 } else if b == long + 1 { 2 } else { 4 };
            let v: u64 = self.be_u(n)?;
            Ok(v as usize)
        } else {
            Err(Error::Type)
        }
    }

    pub fn read_str(&mut self) -> (r: Result<&'a str, Error>)
        ensures
            (str_view(r), final(self)@) == read_str(old(self)@),
    {
        reveal(read_str);
        let n: usize = self.read_length(0xa0, 32, 0xd9, 0)?;
        let bytes = self.take(n)?;
        match text::from_utf8(bytes) {
            Some(s) => Ok(s),
            None => Err(Error::Utf8),
        }
    }

    pub fn read_bin(&mut self) -> (r: Result<&'a [u8], Error>)
        ensures
            (bytes_view(r), final(self)@) == read_bin(old(self)@),
    {
        reveal(read_bin);
        let n: usize = self.read_length(0, 0, 0xc4, 0)?;
        self.take(n)
    }

    pub fn read_array(&mut self) -> (r: Result<usize, Error>)
        ensures
            (count_view(r), final(self)@) == read_array(old(self)@),
    {
        reveal(read_array);
        let n: usize = self.read_length(0x90, 16, 0xdb, 1)?;
        if n > self.remaining() {
            return Err(Error::Truncated);
        }
        Ok(n)
    }

    pub fn read_map(&mut self) -> (r: Result<usize, Error>)
        ensures
            (count_view(r), final(self)@) == read_map(old(self)@),
    {
        reveal(read_map);
        let n: usize = self.read_length(0x80, 16, 0xdd, 1)?;
        if n > self.remaining() / 2 {
            return Err(Error::Truncated);
        }
        Ok(n)
    }

    /// Skip one value of any supported type.
    pub fn skip(&mut self) -> (r: Result<(), Error>)
        ensures
            (r, final(self)@) == skip(old(self)@),
        decreases (MAX_DEPTH + 1 - old(self)@.depth), 1nat,
    {
        proof {
            reveal(read_nil);
            reveal(read_bool);
            reveal(integer);
            reveal(read_str);
            reveal(read_bin);
            reveal(read_array);
            reveal(read_map);
        }
        let kind = match self.peek() {
            Some(kind) => kind,
            None => return Err(Error::Truncated),
        };
        match kind {
            Type::Nil => self.read_nil(),
            Type::Bool => {
                self.read_bool()?;
                Ok(())
            },
            Type::Int => {
                self.integer()?;
                Ok(())
            },
            Type::Str => {
                self.read_str()?;
                Ok(())
            },
            Type::Bin => {
                self.read_bin()?;
                Ok(())
            },
            Type::Array => {
                let n: usize = self.read_array()?;
                self.nested(n, false)
            },
            Type::Mapping => {
                let n: usize = self.read_map()?;
                self.nested(n, true)
            },
            Type::Other => Err(Error::Unsupported),
        }
    }

    /// Skip the `n` members of a container, which are pairs in a map.
    fn nested(&mut self, n: usize, pairs: bool) -> (r: Result<(), Error>)
        ensures
            old(self)@.depth >= MAX_DEPTH ==> r == Err::<(), Error>(Error::Depth)
                && final(self)@.rest == old(self)@.rest,
            old(self)@.depth < MAX_DEPTH ==> (r, final(self)@.rest) == skip_many(
                old(self)@.rest,
                old(self)@.depth + 1,
                if pairs {
                    2 * n as nat
                } else {
                    n as nat
                },
            ),
            final(self)@.depth == depth_after(r, old(self)@.depth),
        decreases (MAX_DEPTH + 1 - old(self)@.depth), 0nat,
    {
        proof {
            use_type_invariant(&*self);
        }
        if self.depth >= MAX_DEPTH {
            self.depth = MAX_DEPTH + 1;
            return Err(Error::Depth);
        }
        self.depth += 1;
        let mut i: usize = 0;
        let mut r: Result<(), Error> = Ok(());
        let ghost start = self@;
        while i < n && r.is_ok()
            invariant
                i <= n,
                start.depth == old(self)@.depth + 1,
                start.rest == old(self)@.rest,
                start.depth <= MAX_DEPTH,
                self@.depth == depth_after(r, start.depth),
                match r {
                    Ok(_) => skip_many(
                        start.rest,
                        start.depth,
                        if pairs {
                            2 * n as nat
                        } else {
                            n as nat
                        },
                    ) == skip_many(
                        self@.rest,
                        start.depth,
                        if pairs {
                            2 * (n - i) as nat
                        } else {
                            (n - i) as nat
                        },
                    ),
                    Err(e) => skip_many(
                        start.rest,
                        start.depth,
                        if pairs {
                            2 * n as nat
                        } else {
                            n as nat
                        },
                    ) == (r, self@.rest),
                },
            decreases n - i,
        {
            proof {
                reveal_with_fuel(skip_many, 3);
            }
            r = self.skip();
            if pairs && r.is_ok() {
                r = self.skip();
            }
            i += 1;
        }
        proof {
            use_type_invariant(&*self);
            if r is Ok {
                assert(r->Ok_0 == ());
            }
        }
        self.depth -= 1;
        r
    }
}

// Reading gives back what was written, and leaves what follows.

proof fn lemma_byte(b: u8, tail: Seq<u8>, depth: nat)
    ensures
        byte(input(seq![b] + tail, depth)) == (Ok::<u8, Error>(b), input(tail, depth)),
{
    assert((seq![b] + tail).skip(1) =~= tail);
}

proof fn lemma_take(s: Seq<u8>, tail: Seq<u8>, depth: nat)
    ensures
        take(input(s + tail, depth), s.len()) == (Ok::<Seq<u8>, Error>(s), input(tail, depth)),
{
    assert((s + tail).take(s.len() as int) =~= s);
    assert((s + tail).skip(s.len() as int) =~= tail);
}

proof fn lemma_number(v: nat, n: nat, tail: Seq<u8>, depth: nat)
    requires
        v < pow256(n),
    ensures
        number(input(be_bytes(v, n) + tail, depth), n) == (Ok::<nat, Error>(v), input(tail, depth)),
{
    lemma_be_round_trip(v, n);
    lemma_take(be_bytes(v, n), tail, depth);
}

proof fn lemma_tagged(tag: u8, v: nat, n: nat, tail: Seq<u8>, depth: nat)
    requires
        v < pow256(n),
    ensures
        ({
            let i = input(seq![tag] + be_bytes(v, n) + tail, depth);
            let j = input(be_bytes(v, n) + tail, depth);
            byte(i) == (Ok::<u8, Error>(tag), j) && number(j, n) == (
                Ok::<nat, Error>(v),
                input(tail, depth),
            )
        }),
{
    assert(seq![tag] + be_bytes(v, n) + tail =~= seq![tag] + (be_bytes(v, n) + tail));
    lemma_byte(tag, be_bytes(v, n) + tail, depth);
    lemma_number(v, n, tail, depth);
}

/// A nil reads back.
pub proof fn law_nil(tail: Seq<u8>, depth: nat)
    ensures
        read_nil(input(enc_nil() + tail, depth)) == (Ok::<(), Error>(()), input(tail, depth)),
{
    reveal(enc_nil);
    reveal(read_nil);
    lemma_byte(0xc0, tail, depth);
}

/// A bool reads back.
pub proof fn law_bool(v: bool, tail: Seq<u8>, depth: nat)
    ensures
        read_bool(input(enc_bool(v) + tail, depth)) == (Ok::<bool, Error>(v), input(tail, depth)),
{
    reveal(enc_bool);
    reveal(read_bool);
    lemma_byte(if v { 0xc3 } else { 0xc2 }, tail, depth);
}

/// What an integer is written as is read as it, whichever kind it was written
/// as.
pub proof fn law_integer(v: int, tail: Seq<u8>, depth: nat)
    requires
        i64::MIN <= v <= u64::MAX,
    ensures
        integer(input(enc_int(v) + tail, depth)) == (Ok::<int, Error>(v), input(tail, depth)),
{
    reveal(enc_uint);
    reveal(integer);
    lemma_pow256();
    if v >= 0x80 {
        let tag: u8 = if v <= 0xff { 0xcc } else if v <= 0xffff { 0xcd } else if v <= 0xffff_ffff { 0xce } else { 0xcf };
        lemma_tagged(tag, v as nat, width(tag - 0xcc), tail, depth);
    } else if v >= -32 {
        lemma_byte(if v >= 0 { v as u8 } else { (0x100 + v) as u8 }, tail, depth);
    } else {
        let tag: u8 = if v >= -0x80 { 0xd0 } else if v >= -0x8000 { 0xd1 } else if v >= -0x8000_0000 { 0xd2 } else { 0xd3 };
        let n = width(tag - 0xd0);
        lemma_tagged(tag, (pow256(n) + v) as nat, n, tail, depth);
    }
}

/// Every integer reads back.
pub proof fn law_int(v: i64, tail: Seq<u8>, depth: nat)
    ensures
        read_int(input(enc_int(v as int) + tail, depth)) == (Ok::<i64, Error>(v), input(tail, depth)),
{
    reveal(read_int);
    law_integer(v as int, tail, depth);
}

/// Every unsigned integer reads back.
pub proof fn law_uint(v: u64, tail: Seq<u8>, depth: nat)
    ensures
        read_uint(input(enc_uint(v as nat) + tail, depth)) == (Ok::<u64, Error>(v), input(tail, depth)),
{
    reveal(read_uint);
    law_integer(v as int, tail, depth);
}

/// An integer may be written wider than it need be: behind an unsigned tag of
/// any width that holds it, or behind a signed one, it is read as itself.
pub proof fn law_wider_integers(v: int, k: int, tail: Seq<u8>, depth: nat)
    requires
        0 <= k < 4,
    ensures
        0 <= v < pow256(width(k)) ==> integer(
            input(seq![(0xcc + k) as u8] + be_bytes(v as nat, width(k)) + tail, depth),
        ) == (Ok::<int, Error>(v), input(tail, depth)),
        -pow256(width(k)) <= 2 * v < pow256(width(k)) ==> integer(
            input(
                seq![(0xd0 + k) as u8] + be_bytes(
                    (if v >= 0 {
                        v
                    } else {
                        pow256(width(k)) + v
                    }) as nat,
                    width(k),
                ) + tail,
                depth,
            ),
        ) == (Ok::<int, Error>(v), input(tail, depth)),
{
    reveal(integer);
    lemma_pow256();
    if 0 <= v < pow256(width(k)) {
        lemma_tagged((0xcc + k) as u8, v as nat, width(k), tail, depth);
    }
    if -pow256(width(k)) <= 2 * v < pow256(width(k)) {
        let written = (if v >= 0 {
            v
        } else {
            pow256(width(k)) + v
        }) as nat;
        lemma_tagged((0xd0 + k) as u8, written, width(k), tail, depth);
    }
}

/// A signed integer is not read where there is none: where there is a larger
/// unsigned one or a value of another type, nor where bytes are missing.
pub proof fn law_integers_are_refused(i: Input)
    ensures
        integer(i) matches (Ok(v), j) ==> (v > i64::MAX ==> read_int(i) == (Err::<i64, Error>(Error::Type), j)) && (v < 0
            ==> read_uint(i) == (Err::<u64, Error>(Error::Type), j)),
        i.rest.len() == 0 ==> read_int(i).0 == Err::<i64, Error>(Error::Truncated),
        i.rest.len() > 0 && type_of(i.rest[0]) != Type::Int ==> read_int(i).0 == Err::<i64, Error>(Error::Type),
        i.rest.len() > 0 && 0xcc <= i.rest[0] <= 0xcf && i.rest.len() - 1 < width(i.rest[0] - 0xcc) ==> read_int(i).0
            == Err::<i64, Error>(Error::Truncated),
        i.rest.len() > 0 && 0xd0 <= i.rest[0] <= 0xd3 && i.rest.len() - 1 < width(i.rest[0] - 0xd0) ==> read_int(i).0
            == Err::<i64, Error>(Error::Truncated),
{
    reveal(integer);
    reveal(read_int);
    reveal(read_uint);
}

/// A string reads back.
pub proof fn law_str(s: Seq<char>, tail: Seq<u8>, depth: nat)
    requires
        encode_utf8(s).len() <= u32::MAX,
    ensures
        read_str(input(enc_str(s) + tail, depth)) == (Ok::<Seq<char>, Error>(s), input(tail, depth)),
{
    reveal(enc_str);
    reveal(read_str);
    lemma_pow256();
    let b = encode_utf8(s);
    let n = b.len();
    assert(enc_str(s) + tail =~= enc_str_header(n) + (b + tail));
    if n < 32 {
        lemma_byte((0xa0 + n) as u8, b + tail, depth);
    } else {
        let tag: u8 = if n <= 0xff { 0xd9 } else if n <= 0xffff { 0xda } else { 0xdb };
        lemma_tagged(tag, n, width(tag - 0xd9), b + tail, depth);
    }
    lemma_take(b, tail, depth);
    encode_utf8_valid_utf8(s);
    encode_utf8_decode_utf8(s);
}

/// A byte string reads back.
pub proof fn law_bin(b: Seq<u8>, tail: Seq<u8>, depth: nat)
    requires
        b.len() <= u32::MAX,
    ensures
        read_bin(input(enc_bin(b) + tail, depth)) == (Ok::<Seq<u8>, Error>(b), input(tail, depth)),
{
    reveal(enc_bin);
    reveal(read_bin);
    lemma_pow256();
    let n = b.len();
    assert(enc_bin(b) + tail =~= enc_bin_header(n) + (b + tail));
    let tag: u8 = if n <= 0xff { 0xc4 } else if n <= 0xffff { 0xc5 } else { 0xc6 };
    lemma_tagged(tag, n, width(tag - 0xc4), b + tail, depth);
    lemma_take(b, tail, depth);
}

/// The count of an array reads back where so many values can follow.
pub proof fn law_array(n: nat, tail: Seq<u8>, depth: nat)
    requires
        n <= u32::MAX,
        n <= tail.len(),
    ensures
        read_array(input(enc_array(n) + tail, depth)) == (Ok::<nat, Error>(n), input(tail, depth)),
{
    reveal(enc_array);
    reveal(read_array);
    lemma_pow256();
    if n < 16 {
        lemma_byte((0x90 + n) as u8, tail, depth);
    } else {
        let tag: u8 = if n <= 0xffff { 0xdc } else { 0xdd };
        lemma_tagged(tag, n, width(tag - 0xdb), tail, depth);
    }
}

/// The count of a map reads back where so many pairs can follow.
pub proof fn law_map(n: nat, tail: Seq<u8>, depth: nat)
    requires
        n <= u32::MAX,
        2 * n <= tail.len(),
    ensures
        read_map(input(enc_map(n) + tail, depth)) == (Ok::<nat, Error>(n), input(tail, depth)),
{
    reveal(enc_map);
    reveal(read_map);
    lemma_pow256();
    if n < 16 {
        lemma_byte((0x80 + n) as u8, tail, depth);
    } else {
        let tag: u8 = if n <= 0xffff { 0xde } else { 0xdf };
        lemma_tagged(tag, n, width(tag - 0xdd), tail, depth);
    }
}

/// The count of an array is refused where it cannot be honest, each value taking
/// a byte; and where there is no array.
pub proof fn law_array_refused(n: nat, tail: Seq<u8>, i: Input, depth: nat)
    requires
        n <= u32::MAX,
        n > tail.len(),
    ensures
        read_array(input(enc_array(n) + tail, depth)) == (Err::<nat, Error>(Error::Truncated), input(tail, depth)),
        i.rest.len() > 0 && type_of(i.rest[0]) != Type::Array ==> read_array(i).0 == Err::<nat, Error>(Error::Type),
{
    reveal(enc_array);
    reveal(read_array);
    lemma_pow256();
    if n < 16 {
        lemma_byte((0x90 + n) as u8, tail, depth);
    } else {
        let tag: u8 = if n <= 0xffff { 0xdc } else { 0xdd };
        lemma_tagged(tag, n, width(tag - 0xdb), tail, depth);
    }
}

/// The count of a map is refused where it cannot be honest, each pair taking two
/// bytes; and where there is no map.
pub proof fn law_map_refused(n: nat, tail: Seq<u8>, i: Input, depth: nat)
    requires
        n <= u32::MAX,
        2 * n > tail.len(),
    ensures
        read_map(input(enc_map(n) + tail, depth)) == (Err::<nat, Error>(Error::Truncated), input(tail, depth)),
        i.rest.len() > 0 && type_of(i.rest[0]) != Type::Mapping ==> read_map(i).0 == Err::<nat, Error>(Error::Type),
{
    reveal(enc_map);
    reveal(read_map);
    lemma_pow256();
    if n < 16 {
        lemma_byte((0x80 + n) as u8, tail, depth);
    } else {
        let tag: u8 = if n <= 0xffff { 0xde } else { 0xdf };
        lemma_tagged(tag, n, width(tag - 0xdd), tail, depth);
    }
}

/// No read and no skip lengthens what is left to read: the bytes left are a
/// suffix of the bytes there were.
pub open spec fn suffix(left: Seq<u8>, rest: Seq<u8>) -> bool {
    left.len() <= rest.len() && left == rest.skip(rest.len() - left.len())
}

proof fn lemma_suffix_transitive(a: Seq<u8>, b: Seq<u8>, c: Seq<u8>)
    requires
        suffix(a, b),
        suffix(b, c),
    ensures
        suffix(a, c),
{
    assert(a =~= c.skip(c.len() - a.len()));
}

/// Skipping only moves forward.
pub proof fn law_skip_moves_forward(rest: Seq<u8>, depth: nat)
    ensures
        suffix(skip_one(rest, depth).1, rest),
    decreases (MAX_DEPTH + 1 - depth), 0nat,
{
    reveal(read_nil);
    reveal(read_bool);
    reveal(integer);
    reveal(read_str);
    reveal(read_bin);
    reveal(read_array);
    reveal(read_map);
    let i = input(rest, depth);
    assert(rest =~= rest.skip(0));
    assert forall|a: int, b: int|
        0 <= a && 0 <= b && a + b <= rest.len() implies #[trigger] rest.skip(a).skip(b) == rest.skip(a + b) by {
        assert(rest.skip(a).skip(b) =~= rest.skip(a + b));
    }
    assert forall|a: int, b: int, c: int|
        0 <= a && 0 <= b && 0 <= c && a + b + c <= rest.len() implies #[trigger] rest.skip(a).skip(b).skip(c)
        == rest.skip(a + b + c) by {
        assert(rest.skip(a).skip(b).skip(c) =~= rest.skip(a + b + c));
    }
    match read_array(i) {
        (Ok(n), j) => if depth < MAX_DEPTH {
            lemma_skip_many_moves_forward(j.rest, depth + 1, n);
            assert(suffix(j.rest, rest));
            lemma_suffix_transitive(skip_many(j.rest, depth + 1, n).1, j.rest, rest);
        },
        _ => {},
    }
    match read_map(i) {
        (Ok(n), j) => if depth < MAX_DEPTH {
            lemma_skip_many_moves_forward(j.rest, depth + 1, 2 * n);
            assert(suffix(j.rest, rest));
            lemma_suffix_transitive(skip_many(j.rest, depth + 1, 2 * n).1, j.rest, rest);
        },
        _ => {},
    }
}

pub proof fn lemma_skip_many_moves_forward(rest: Seq<u8>, depth: nat, n: nat)
    ensures
        suffix(skip_many(rest, depth, n).1, rest),
    decreases (MAX_DEPTH + 1 - depth), n + 1,
{
    assert(rest =~= rest.skip(0));
    if n > 0 {
        law_skip_moves_forward(rest, depth);
        let (r, left) = skip_one(rest, depth);
        lemma_skip_many_moves_forward(left, depth, (n - 1) as nat);
        lemma_suffix_transitive(skip_many(left, depth, (n - 1) as nat).1, left, rest);
    }
}

} // verus!

//! What holds of values as a whole: whatever is written is stepped over and
//! read back, and reading only moves forward.
use crate::msgpack::{
    enc_array, enc_bin, enc_bool, enc_int, enc_map, enc_nil, enc_str, enc_uint, input, integer, law_array, law_bin, law_bool,
    law_int, law_integer, law_map, law_nil, law_skip_moves_forward, law_str, law_uint, lemma_skip_many_moves_forward, peek,
    read_array, read_bin, read_bool, read_int, read_map, read_nil, read_str, read_uint, skip, skip_many, Error,
    Input, Type, MAX_DEPTH,
};
use vstd::prelude::*;
use vstd::utf8::*;

verus! {

/// One value, with all that it contains.
pub enum Value {
    Nil,
    Bool(bool),
    Int(i64),
    Uint(u64),
    Str(Seq<char>),
    Bin(Seq<u8>),
    Array(Seq<Value>),
    /// Keys and what they stand for, by turns.
    Mapping(Seq<Value>),
}

/// The bytes that a writer gives for a value.
pub open spec fn written(v: Value) -> Seq<u8>
    decreases v, 0nat,
{
    match v {
        Value::Nil => enc_nil(),
        Value::Bool(b) => enc_bool(b),
        Value::Int(n) => enc_int(n as int),
        Value::Uint(n) => enc_uint(n as nat),
        Value::Str(s) => enc_str(s),
        Value::Bin(b) => enc_bin(b),
        Value::Array(s) => enc_array(s.len()) + all_written(s, 0),
        Value::Mapping(s) => enc_map(s.len() / 2) + all_written(s, 0),
    }
}

/// The bytes of values from `i` on, one after the other.
pub open spec fn all_written(s: Seq<Value>, i: nat) -> Seq<u8>
    decreases s, s.len() - i,
{
    if i >= s.len() {
        Seq::empty()
    } else {
        written(s[i as int]) + all_written(s, i + 1)
    }
}

/// Whether a value can be written so that it is read back: what its lengths
/// and counts are kept in holds them, and containers are nested no deeper than
/// `room`.
pub open spec fn writable(v: Value, room: nat) -> bool
    decreases v,
{
    match v {
        Value::Str(s) => encode_utf8(s).len() <= u32::MAX,
        Value::Bin(b) => b.len() <= u32::MAX,
        Value::Array(s) => room > 0 && s.len() <= u32::MAX && forall|i: int|
            0 <= i < s.len() ==> writable(#[trigger] s[i], (room - 1) as nat),
        Value::Mapping(s) => room > 0 && s.len() % 2 == 0 && s.len() / 2 <= u32::MAX && forall|i: int|
            0 <= i < s.len() ==> writable(#[trigger] s[i], (room - 1) as nat),
        _ => true,
    }
}

pub open spec fn all_writable(s: Seq<Value>, room: nat) -> bool {
    forall|i: int| 0 <= i < s.len() ==> writable(#[trigger] s[i], room)
}

proof fn lemma_written_len(v: Value)
    ensures
        written(v).len() >= 1,
{
    reveal(enc_nil);
    reveal(enc_bool);
    reveal(enc_uint);
    reveal(enc_str);
    reveal(enc_bin);
    reveal(enc_array);
    reveal(enc_map);
}

proof fn lemma_all_written_len(s: Seq<Value>, i: nat)
    requires
        i <= s.len(),
    ensures
        all_written(s, i).len() >= s.len() - i,
    decreases s.len() - i,
{
    if i < s.len() {
        lemma_written_len(s[i as int]);
        lemma_all_written_len(s, i + 1);
    }
}

/// Skipping steps over one value, with all that it contains, and over nothing
/// else.
pub proof fn law_skip_value(v: Value, tail: Seq<u8>, depth: nat)
    requires
        depth <= MAX_DEPTH,
        writable(v, (MAX_DEPTH - depth) as nat),
    ensures
        skip(input(written(v) + tail, depth)) == (Ok::<(), Error>(()), input(tail, depth)),
    decreases v, 0nat,
{
    reveal(enc_nil);
    reveal(enc_bool);
    reveal(enc_uint);
    reveal(enc_str);
    reveal(enc_bin);
    reveal(enc_array);
    reveal(enc_map);
    let bytes = written(v) + tail;
    lemma_written_len(v);
    assert(bytes[0] == written(v)[0]);
    match v {
        Value::Nil => law_nil(tail, depth),
        Value::Bool(b) => law_bool(b, tail, depth),
        Value::Int(n) => law_integer(n as int, tail, depth),
        Value::Uint(n) => law_integer(n as int, tail, depth),
        Value::Str(s) => law_str(s, tail, depth),
        Value::Bin(b) => law_bin(b, tail, depth),
        Value::Array(s) => {
            let inner = all_written(s, 0);
            lemma_all_written_len(s, 0);
            assert(bytes =~= enc_array(s.len()) + (inner + tail));
            law_array(s.len(), inner + tail, depth);
            lemma_skip_values(s, 0, tail, depth + 1);
        },
        Value::Mapping(s) => {
            let inner = all_written(s, 0);
            lemma_all_written_len(s, 0);
            assert(bytes =~= enc_map(s.len() / 2) + (inner + tail));
            law_map(s.len() / 2, inner + tail, depth);
            lemma_skip_values(s, 0, tail, depth + 1);
        },
    }
}

proof fn lemma_skip_values(s: Seq<Value>, i: nat, tail: Seq<u8>, depth: nat)
    requires
        i <= s.len(),
        depth <= MAX_DEPTH,
        all_writable(s, (MAX_DEPTH - depth) as nat),
    ensures
        skip_many(all_written(s, i) + tail, depth, (s.len() - i) as nat) == (Ok::<(), Error>(()), tail),
    decreases s, s.len() - i,
{
    if i < s.len() {
        let rest = all_written(s, i + 1);
        law_skip_value(s[i as int], rest + tail, depth);
        assert(all_written(s, i) + tail =~= written(s[i as int]) + (rest + tail));
        lemma_skip_values(s, i + 1, tail, depth);
    } else {
        assert(all_written(s, i) + tail =~= tail);
    }
}

/// What is left after a value is read as the calls for it read it, where what
/// is read is that value.
pub open spec fn read_value(v: Value, i: Input) -> Option<Input>
    decreases v, 0nat,
{
    match v {
        Value::Nil => match read_nil(i) {
            (Ok(_), j) => Some(j),
            _ => None,
        },
        Value::Bool(b) => match read_bool(i) {
            (Ok(x), j) => if x == b {
                Some(j)
            } else {
                None
            },
            _ => None,
        },
        Value::Int(n) => match read_int(i) {
            (Ok(x), j) => if x == n {
                Some(j)
            } else {
                None
            },
            _ => None,
        },
        Value::Uint(n) => match read_uint(i) {
            (Ok(x), j) => if x == n {
                Some(j)
            } else {
                None
            },
            _ => None,
        },
        Value::Str(s) => match read_str(i) {
            (Ok(x), j) => if x == s {
                Some(j)
            } else {
                None
            },
            _ => None,
        },
        Value::Bin(b) => match read_bin(i) {
            (Ok(x), j) => if x == b {
                Some(j)
            } else {
                None
            },
            _ => None,
        },
        Value::Array(s) => match read_array(i) {
            (Ok(n), j) => if n == s.len() {
                read_values(s, 0, j)
            } else {
                None
            },
            _ => None,
        },
        Value::Mapping(s) => match read_map(i) {
            (Ok(n), j) => if 2 * n == s.len() {
                read_values(s, 0, j)
            } else {
                None
            },
            _ => None,
        },
    }
}

/// The same for values from `k` on, one after the other.
pub open spec fn read_values(s: Seq<Value>, k: nat, i: Input) -> Option<Input>
    decreases s, s.len() - k,
{
    if k >= s.len() {
        Some(i)
    } else {
        match read_value(s[k as int], i) {
            Some(j) => read_values(s, k + 1, j),
            None => None,
        }
    }
}

/// A value reads back, however deep it is, and what follows it is left.
pub proof fn law_value_reads_back(v: Value, room: nat, tail: Seq<u8>, depth: nat)
    requires
        writable(v, room),
    ensures
        read_value(v, input(written(v) + tail, depth)) == Some(input(tail, depth)),
    decreases v, 0nat,
{
    let bytes = written(v) + tail;
    match v {
        Value::Nil => law_nil(tail, depth),
        Value::Bool(b) => law_bool(b, tail, depth),
        Value::Int(n) => law_int(n, tail, depth),
        Value::Uint(n) => law_uint(n, tail, depth),
        Value::Str(s) => law_str(s, tail, depth),
        Value::Bin(b) => law_bin(b, tail, depth),
        Value::Array(s) => {
            lemma_all_written_len(s, 0);
            assert(bytes =~= enc_array(s.len()) + (all_written(s, 0) + tail));
            law_array(s.len(), all_written(s, 0) + tail, depth);
            lemma_values_read_back(s, 0, (room - 1) as nat, tail, depth);
        },
        Value::Mapping(s) => {
            lemma_all_written_len(s, 0);
            assert(bytes =~= enc_map(s.len() / 2) + (all_written(s, 0) + tail));
            law_map(s.len() / 2, all_written(s, 0) + tail, depth);
            lemma_values_read_back(s, 0, (room - 1) as nat, tail, depth);
        },
    }
}

proof fn lemma_values_read_back(s: Seq<Value>, k: nat, room: nat, tail: Seq<u8>, depth: nat)
    requires
        k <= s.len(),
        all_writable(s, room),
    ensures
        read_values(s, k, input(all_written(s, k) + tail, depth)) == Some(input(tail, depth)),
    decreases s, s.len() - k,
{
    if k < s.len() {
        let rest = all_written(s, k + 1);
        law_value_reads_back(s[k as int], room, rest + tail, depth);
        assert(all_written(s, k) + tail =~= written(s[k as int]) + (rest + tail));
        lemma_values_read_back(s, k + 1, room, tail, depth);
    } else {
        assert(all_written(s, k) + tail =~= tail);
    }
}

/// Once everything that was written is read back, in order, nothing is left.
pub proof fn law_nothing_is_left(s: Seq<Value>, room: nat)
    requires
        all_writable(s, room),
    ensures
        read_values(s, 0, input(all_written(s, 0), 0)) == Some(input(Seq::empty(), 0)),
{
    lemma_values_read_back(s, 0, room, Seq::empty(), 0);
    assert(all_written(s, 0) + Seq::<u8>::empty() =~= all_written(s, 0));
}

/// A call of a reader that takes something off what is left.
pub enum Call {
    Nil,
    Bool,
    Int,
    Uint,
    Str,
    Bin,
    Array,
    Mapping,
    Skip,
}

pub open spec fn outcome<T>(r: (Result<T, Error>, Input)) -> (bool, Input) {
    (r.0 is Ok, r.1)
}

/// Whether a call succeeds, and what it leaves.
pub open spec fn called(i: Input, c: Call) -> (bool, Input) {
    match c {
        Call::Nil => outcome(read_nil(i)),
        Call::Bool => outcome(read_bool(i)),
        Call::Int => outcome(read_int(i)),
        Call::Uint => outcome(read_uint(i)),
        Call::Str => outcome(read_str(i)),
        Call::Bin => outcome(read_bin(i)),
        Call::Array => outcome(read_array(i)),
        Call::Mapping => outcome(read_map(i)),
        Call::Skip => outcome(skip(i)),
    }
}

/// How many of the calls succeed, and what they leave.
pub open spec fn calls(i: Input, s: Seq<Call>) -> (nat, Input)
    decreases s.len(),
{
    if s.len() == 0 {
        (0, i)
    } else {
        let (n, j) = calls(i, s.drop_last());
        let (ok, k) = called(j, s.last());
        (if ok { n + 1 } else { n }, k)
    }
}

/// No call leaves more than there was, and one that succeeds leaves less.
pub proof fn law_calls_move_forward(i: Input, c: Call)
    ensures
        called(i, c).1.rest.len() <= i.rest.len(),
        called(i, c).0 ==> called(i, c).1.rest.len() < i.rest.len(),
{
    reveal(read_nil);
    reveal(read_bool);
    reveal(integer);
    reveal(read_int);
    reveal(read_uint);
    reveal(read_str);
    reveal(read_bin);
    reveal(read_array);
    reveal(read_map);
    if c is Skip {
        law_skip_moves_forward(i.rest, i.depth);
        let at = input(i.rest, i.depth);
        match peek(at) {
            Some(Type::Array) => match read_array(at) {
                (Ok(n), j) => lemma_skip_many_moves_forward(j.rest, i.depth + 1, n),
                _ => {},
            },
            Some(Type::Mapping) => match read_map(at) {
                (Ok(n), j) => lemma_skip_many_moves_forward(j.rest, i.depth + 1, 2 * n),
                _ => {},
            },
            _ => {},
        }
    }
}

/// Whatever is called, and in whatever order, what is left only shrinks, by a
/// byte at least for each call that succeeds.
pub proof fn law_what_is_left_shrinks(i: Input, s: Seq<Call>)
    ensures
        calls(i, s).1.rest.len() + calls(i, s).0 <= i.rest.len(),
    decreases s.len(),
{
    if s.len() > 0 {
        law_what_is_left_shrinks(i, s.drop_last());
        law_calls_move_forward(calls(i, s.drop_last()).1, s.last());
    }
}

} // verus!

//! What native messages look like: the bytes of each value, and the fields of
//! each message.
use crate::addr::{ip_of_text, ip_text};
use crate::dns::layout::{lemma_four_bytes, lemma_two_bytes};
use crate::msgpack::{
    enc_array, enc_bin, enc_bin_header, enc_bool, enc_int, enc_map, enc_nil, enc_str, enc_str_header, enc_uint, input,
    law_array, read_bool, read_str, read_uint, skip, skip_one, Error, Input,
};
use crate::msgpack_laws::{all_written, law_skip_value, writable, written, Value};
use crate::octets::be_bytes;
use crate::protocol::{
    ask_of, ask_start, ask_step, count32, enc_address, enc_address_list, enc_addresses, enc_answer, enc_ask,
    enc_counters, enc_record, enc_records, enc_reply, enc_scope, enc_scopes, enc_status, enc_str_list, enc_strs, field,
    frame, le32_value, reply_of, reply_start, unframe, AddressOutView, AddressesView, AnswerView, Ask, AskFields,
    Counters, Family, Fault, Outcome, RecordOutView, ReplyFieldsView, ReplyView, ScopeStatusView, StatusReportView,
    Validation,
};
use crate::text::chars;
use vstd::prelude::*;
use vstd::utf8::*;

verus! {

// Values.

proof fn lemma_one_byte(v: nat)
    requires
        v < 0x100,
    ensures
        be_bytes(v, 1) == seq![v as u8],
{
    reveal_with_fuel(be_bytes, 2);
    assert(be_bytes(v, 1) =~= seq![v as u8]);
}

proof fn lemma_eight_bytes(v: nat)
    requires
        v <= u64::MAX,
    ensures
        be_bytes(v, 8) == seq![
            (v / 0x100_0000_0000_0000) as u8,
            (v / 0x1_0000_0000_0000 % 256) as u8,
            (v / 0x100_0000_0000 % 256) as u8,
            (v / 0x1_0000_0000 % 256) as u8,
            (v / 0x100_0000 % 256) as u8,
            (v / 0x1_0000 % 256) as u8,
            (v / 256 % 256) as u8,
            (v % 256) as u8,
        ],
{
    let h = v / 0x1_0000_0000;
    lemma_four_bytes(h);
    assert(v / 256 / 256 == v / 0x1_0000);
    assert(v / 0x1_0000 / 256 == v / 0x100_0000);
    assert(v / 0x100_0000 / 256 == h);
    assert(be_bytes(v, 8) == be_bytes(v / 256, 7).push((v % 256) as u8));
    assert(be_bytes(v / 256, 7) == be_bytes(v / 0x1_0000, 6).push((v / 256 % 256) as u8));
    assert(be_bytes(v / 0x1_0000, 6) == be_bytes(v / 0x100_0000, 5).push((v / 0x1_0000 % 256) as u8));
    assert(be_bytes(v / 0x100_0000, 5) == be_bytes(h, 4).push((v / 0x100_0000 % 256) as u8));
    assert(h / 0x100_0000 == v / 0x100_0000_0000_0000);
    assert(h / 0x1_0000 == v / 0x1_0000_0000_0000);
    assert(h / 256 == v / 0x100_0000_0000);
    assert(be_bytes(v, 8) =~= seq![
        (v / 0x100_0000_0000_0000) as u8,
        (v / 0x1_0000_0000_0000 % 256) as u8,
        (v / 0x100_0000_0000 % 256) as u8,
        (v / 0x1_0000_0000 % 256) as u8,
        (v / 0x100_0000 % 256) as u8,
        (v / 0x1_0000 % 256) as u8,
        (v / 256 % 256) as u8,
        (v % 256) as u8,
    ]);
}

/// Nothing is one byte, 192; false is 194 and true is 195.
pub proof fn law_plain_values()
    ensures
        enc_nil() == seq![192u8],
        enc_bool(false) == seq![194u8],
        enc_bool(true) == seq![195u8],
{
    reveal(enc_nil);
    reveal(enc_bool);
}

/// A number is one byte where it is below 128, and is otherwise behind a byte that
/// says of how many it is, from 204 for one to 207 for eight, the first byte
/// counting most.
pub proof fn law_numbers(v: u64)
    ensures
        v < 0x80 ==> enc_uint(v as nat) == seq![v as u8],
        0x80 <= v < 0x100 ==> enc_uint(v as nat) == seq![204u8, v as u8],
        0x100 <= v < 0x1_0000 ==> enc_uint(v as nat) == seq![205u8, (v / 256) as u8, (v % 256) as u8],
        0x1_0000 <= v < 0x1_0000_0000 ==> enc_uint(v as nat) == seq![
            206u8,
            (v / 0x100_0000) as u8,
            (v / 0x1_0000 % 256) as u8,
            (v / 256 % 256) as u8,
            (v % 256) as u8,
        ],
        0x1_0000_0000 <= v ==> enc_uint(v as nat) == seq![
            207u8,
            (v / 0x100_0000_0000_0000) as u8,
            (v / 0x1_0000_0000_0000 % 256) as u8,
            (v / 0x100_0000_0000 % 256) as u8,
            (v / 0x1_0000_0000 % 256) as u8,
            (v / 0x100_0000 % 256) as u8,
            (v / 0x1_0000 % 256) as u8,
            (v / 256 % 256) as u8,
            (v % 256) as u8,
        ],
{
    reveal(enc_uint);
    let n = v as nat;
    if n < 0x80 {
    } else if n < 0x100 {
        lemma_one_byte(n);
        assert(enc_uint(n) =~= seq![204u8, v as u8]);
    } else if n < 0x1_0000 {
        lemma_two_bytes(n);
        assert(enc_uint(n) =~= seq![205u8, (v / 256) as u8, (v % 256) as u8]);
    } else if n < 0x1_0000_0000 {
        lemma_four_bytes(n);
        assert(enc_uint(n) =~= seq![
            206u8,
            (v / 0x100_0000) as u8,
            (v / 0x1_0000 % 256) as u8,
            (v / 256 % 256) as u8,
            (v % 256) as u8,
        ]);
    } else {
        lemma_eight_bytes(n);
        assert(enc_uint(n) =~= seq![
            207u8,
            (v / 0x100_0000_0000_0000) as u8,
            (v / 0x1_0000_0000_0000 % 256) as u8,
            (v / 0x100_0000_0000 % 256) as u8,
            (v / 0x1_0000_0000 % 256) as u8,
            (v / 0x100_0000 % 256) as u8,
            (v / 0x1_0000 % 256) as u8,
            (v / 256 % 256) as u8,
            (v % 256) as u8,
        ]);
    }
}

/// A negative number is one byte from 224 on down to -32, and is otherwise in two's
/// complement behind a byte from 208 for one byte to 211 for eight.
pub proof fn law_negative_numbers(v: i64)
    requires
        v < 0,
    ensures
        v >= -32 ==> enc_int(v as int) == seq![(256 + v) as u8],
        -0x80 <= v < -32 ==> enc_int(v as int) == seq![208u8, (256 + v) as u8],
        -0x8000 <= v < -0x80 ==> enc_int(v as int) == seq![
            209u8,
            ((0x1_0000 + v) / 256) as u8,
            ((0x1_0000 + v) % 256) as u8,
        ],
        -0x8000_0000 <= v < -0x8000 ==> ({
            let n = 0x1_0000_0000 + v;
            enc_int(v as int) == seq![
                210u8,
                (n / 0x100_0000) as u8,
                (n / 0x1_0000 % 256) as u8,
                (n / 256 % 256) as u8,
                (n % 256) as u8,
            ]
        }),
        v < -0x8000_0000 ==> ({
            let n = 0x1_0000_0000_0000_0000 + v;
            enc_int(v as int) == seq![
                211u8,
                (n / 0x100_0000_0000_0000) as u8,
                (n / 0x1_0000_0000_0000 % 256) as u8,
                (n / 0x100_0000_0000 % 256) as u8,
                (n / 0x1_0000_0000 % 256) as u8,
                (n / 0x100_0000 % 256) as u8,
                (n / 0x1_0000 % 256) as u8,
                (n / 256 % 256) as u8,
                (n % 256) as u8,
            ]
        }),
{
    if v >= -32 {
    } else if v >= -0x80 {
        lemma_one_byte((0x100 + v) as nat);
        assert(enc_int(v as int) =~= seq![208u8, (256 + v) as u8]);
    } else if v >= -0x8000 {
        lemma_two_bytes((0x1_0000 + v) as nat);
        assert(enc_int(v as int) =~= seq![209u8, ((0x1_0000 + v) / 256) as u8, ((0x1_0000 + v) % 256) as u8]);
    } else if v >= -0x8000_0000 {
        let n = 0x1_0000_0000 + v;
        lemma_four_bytes(n as nat);
        assert(enc_int(v as int) =~= seq![
            210u8,
            (n / 0x100_0000) as u8,
            (n / 0x1_0000 % 256) as u8,
            (n / 256 % 256) as u8,
            (n % 256) as u8,
        ]);
    } else {
        let n = 0x1_0000_0000_0000_0000 + v;
        lemma_eight_bytes(n as nat);
        assert(enc_int(v as int) =~= seq![
            211u8,
            (n / 0x100_0000_0000_0000) as u8,
            (n / 0x1_0000_0000_0000 % 256) as u8,
            (n / 0x100_0000_0000 % 256) as u8,
            (n / 0x1_0000_0000 % 256) as u8,
            (n / 0x100_0000 % 256) as u8,
            (n / 0x1_0000 % 256) as u8,
            (n / 256 % 256) as u8,
            (n % 256) as u8,
        ]);
    }
}

/// A length or count behind a byte that says of how many bytes it is.
pub open spec fn counted(tag: u8, n: nat) -> Seq<u8> {
    if n < 0x1_0000 {
        seq![tag, (n / 256) as u8, (n % 256) as u8]
    } else {
        seq![
            (tag + 1) as u8,
            (n / 0x100_0000) as u8,
            (n / 0x1_0000 % 256) as u8,
            (n / 256 % 256) as u8,
            (n % 256) as u8,
        ]
    }
}

proof fn lemma_counted(tag: u8, n: nat)
    requires
        n < 0x1_0000_0000,
        tag < 255,
    ensures
        counted(tag, n) == if n < 0x1_0000 {
            seq![tag] + be_bytes(n, 2)
        } else {
            seq![(tag + 1) as u8] + be_bytes(n, 4)
        },
{
    if n < 0x1_0000 {
        lemma_two_bytes(n);
        assert(counted(tag, n) =~= seq![tag] + be_bytes(n, 2));
    } else {
        lemma_four_bytes(n);
        assert(counted(tag, n) =~= seq![(tag + 1) as u8] + be_bytes(n, 4));
    }
}

/// A text is its UTF-8 behind its length: in a byte from 160 on below 32 bytes, and
/// behind 217, 218 or 219 in one, two or four bytes.
pub proof fn law_texts(s: Seq<char>)
    requires
        encode_utf8(s).len() <= u32::MAX,
    ensures
        ({
            let b = encode_utf8(s);
            let n = b.len();
            &&& n < 32 ==> enc_str(s) == seq![(160 + n) as u8] + b
            &&& 32 <= n < 256 ==> enc_str(s) == seq![217u8, n as u8] + b
            &&& 256 <= n ==> enc_str(s) == counted(218, n) + b
        }),
{
    reveal(enc_str);
    let n = encode_utf8(s).len();
    if 32 <= n < 256 {
        lemma_one_byte(n);
        assert(enc_str_header(n) =~= seq![217u8, n as u8]);
    } else if 256 <= n {
        lemma_counted(218, n);
    }
}

/// Bytes are as they are behind their length: behind 196, 197 or 198 in one, two or
/// four bytes.
pub proof fn law_byte_strings(b: Seq<u8>)
    requires
        b.len() <= u32::MAX,
    ensures
        b.len() < 256 ==> enc_bin(b) == seq![196u8, b.len() as u8] + b,
        256 <= b.len() ==> enc_bin(b) == counted(197, b.len()) + b,
{
    reveal(enc_bin);
    let n = b.len();
    if n < 256 {
        lemma_one_byte(n);
        assert(enc_bin_header(n) =~= seq![196u8, n as u8]);
    } else {
        lemma_counted(197, n);
    }
}

/// Before what a list holds stands how many it holds: in a byte from 144 on below
/// 16, and behind 220 or 221 in two or four bytes. Before what a map holds it is
/// how many keys, from 128 on and behind 222 or 223.
pub proof fn law_containers(n: nat)
    requires
        n <= u32::MAX,
    ensures
        n < 16 ==> enc_array(n) == seq![(144 + n) as u8] && enc_map(n) == seq![(128 + n) as u8],
        16 <= n ==> enc_array(n) == counted(220, n) && enc_map(n) == counted(222, n),
{
    reveal(enc_array);
    reveal(enc_map);
    lemma_counted(220, n);
    lemma_counted(222, n);
}

/// A list in a list, so many deep, with nothing in the last.
pub open spec fn nested(n: nat) -> Value
    decreases n,
{
    if n == 0 {
        Value::Nil
    } else {
        Value::Array(seq![nested((n - 1) as nat)])
    }
}

proof fn lemma_nested_is_writable(n: nat)
    ensures
        writable(nested(n), n),
    decreases n,
{
    if n > 0 {
        lemma_nested_is_writable((n - 1) as nat);
    }
}

proof fn lemma_too_deep(n: nat, tail: Seq<u8>, depth: nat)
    requires
        n > 0,
        depth <= 32,
        depth + n > 32,
    ensures
        skip_one(written(nested(n)) + tail, depth).0 == Err::<(), Error>(Error::Depth),
    decreases n,
{
    let inner = nested((n - 1) as nat);
    let one = seq![inner];
    assert(all_written(one, 1) =~= Seq::<u8>::empty());
    assert(all_written(one, 0) == written(one[0]) + all_written(one, 1));
    assert(written(one[0]) + Seq::<u8>::empty() =~= written(inner));
    let rest = written(inner) + tail;
    law_containers(1);
    let bytes = written(nested(n)) + tail;
    assert(bytes =~= seq![145u8] + rest);
    lemma_inner_is_there((n - 1) as nat);
    law_array(1, rest, depth);
    assert(bytes =~= enc_array(1) + rest);
    if depth < 32 {
        lemma_too_deep((n - 1) as nat, tail, depth + 1);
    }
}

proof fn lemma_inner_is_there(n: nat)
    ensures
        written(nested(n)).len() >= 1,
{
    reveal(enc_nil);
    reveal(enc_array);
}

/// Values are stepped over that are nested no more than 32 deep; deeper ones are
/// refused.
pub proof fn law_nesting(n: nat, tail: Seq<u8>)
    ensures
        n <= 32 ==> skip(input(written(nested(n)) + tail, 0)).0 is Ok,
        n > 32 ==> skip(input(written(nested(n)) + tail, 0)).0 == Err::<(), Error>(Error::Depth),
{
    if n <= 32 {
        lemma_nested_is_writable(n);
        lemma_writable_further(nested(n), n, 32);
        law_skip_value(nested(n), tail, 0);
    } else {
        lemma_too_deep(n, tail, 0);
    }
}

proof fn lemma_writable_further(v: Value, room: nat, more: nat)
    requires
        writable(v, room),
        room <= more,
    ensures
        writable(v, more),
    decreases v,
{
    match v {
        Value::Array(s) => {
            assert forall|i: int| 0 <= i < s.len() implies writable(#[trigger] s[i], (more - 1) as nat) by {
                lemma_writable_further(s[i], (room - 1) as nat, (more - 1) as nat);
            }
        },
        Value::Mapping(s) => {
            assert forall|i: int| 0 <= i < s.len() implies writable(#[trigger] s[i], (more - 1) as nat) by {
                lemma_writable_further(s[i], (room - 1) as nat, (more - 1) as nat);
            }
        },
        _ => {},
    }
}

// Messages.

/// Keys and what stands under each, by turns.
pub open spec fn pairs(f: Seq<(Seq<char>, Value)>) -> Seq<Value> {
    Seq::new(
        2 * f.len(),
        |i: int|
            if i % 2 == 0 {
                Value::Str(f[i / 2].0)
            } else {
                f[i / 2].1
            },
    )
}

/// A map of keys, in order.
pub open spec fn dict(f: Seq<(Seq<char>, Value)>) -> Value {
    Value::Mapping(pairs(f))
}

proof fn lemma_all_push(s: Seq<Value>, x: Value, i: nat)
    requires
        i <= s.len(),
    ensures
        all_written(s.push(x), i) == all_written(s, i) + written(x),
    decreases s.len() - i,
{
    let t = s.push(x);
    if i < s.len() {
        lemma_all_push(s, x, i + 1);
        assert(t[i as int] == s[i as int]);
        assert(written(s[i as int]) + (all_written(s, i + 1) + written(x)) =~= written(s[i as int]) + all_written(
            s,
            i + 1,
        ) + written(x));
    } else {
        assert(t[i as int] == x);
        assert(all_written(t, i + 1) =~= Seq::empty());
        assert(all_written(s, i) =~= Seq::empty());
        assert(written(x) + Seq::<u8>::empty() =~= Seq::<u8>::empty() + written(x));
    }
}

/// What one more field adds to the bytes of fields.
proof fn lemma_one_more(head: Seq<u8>, f: Seq<(Seq<char>, Value)>, k: Seq<char>, v: Value)
    ensures
        head + all_written(pairs(f.push((k, v))), 0) == head + all_written(pairs(f), 0) + field(k, written(v)),
{
    let p = pairs(f);
    let q = p.push(Value::Str(k));
    assert(pairs(f.push((k, v))) =~= q.push(v));
    lemma_all_push(p, Value::Str(k), 0);
    lemma_all_push(q, v, 0);
    assert(written(Value::Str(k)) == enc_str(k));
    assert(head + (all_written(p, 0) + enc_str(k) + written(v)) =~= head + all_written(p, 0) + (enc_str(k) + written(v)));
}

proof fn lemma_none(head: Seq<u8>)
    ensures
        head + all_written(pairs(Seq::<(Seq<char>, Value)>::empty()), 0) == head,
{
    assert(pairs(Seq::<(Seq<char>, Value)>::empty()) =~= Seq::<Value>::empty());
    assert(all_written(Seq::<Value>::empty(), 0) =~= Seq::empty());
    assert(head + Seq::<u8>::empty() =~= head);
}

proof fn lemma_dict(f: Seq<(Seq<char>, Value)>)
    ensures
        written(dict(f)) == enc_map(f.len()) + all_written(pairs(f), 0),
{
    assert(pairs(f).len() / 2 == f.len());
}

/// The bytes of a map of one field.
proof fn lemma_first(n: nat, k: Seq<char>, v: Value)
    ensures
        enc_map(n) + all_written(pairs(seq![(k, v)]), 0) == enc_map(n) + field(k, written(v)),
{
    let none = Seq::<(Seq<char>, Value)>::empty();
    lemma_none(enc_map(n));
    lemma_one_more(enc_map(n), none, k, v);
    assert(none.push((k, v)) =~= seq![(k, v)]);
}

/// The text of an address.
pub open spec fn address_value(a: Seq<u8>) -> Value {
    Value::Str(chars(ip_text(a)))
}

/// What a question says.
pub open spec fn ask_value(a: Ask) -> Value {
    match a {
        Ask::Resolve { name, rtype, no_cache } => dict(
            seq![
                ("query"@, Value::Str("resolve"@)),
                ("name"@, Value::Str(name)),
                ("type"@, Value::Uint(rtype as u64)),
                ("no_cache"@, Value::Bool(no_cache)),
            ],
        ),
        Ask::Lookup { name, family } => dict(
            seq![
                ("query"@, Value::Str("lookup"@)),
                ("name"@, Value::Str(name)),
                (
                    "family"@,
                    Value::Str(
                        match family {
                            Family::Any => "any"@,
                            Family::V4 => "inet"@,
                            Family::V6 => "inet6"@,
                        },
                    ),
                ),
            ],
        ),
        Ask::Reverse { address } => dict(seq![("query"@, Value::Str("reverse"@)), ("address"@, address_value(address))]),
        Ask::Status => dict(seq![("query"@, Value::Str("status"@))]),
        Ask::Flush => dict(seq![("query"@, Value::Str("flush"@))]),
    }
}

/// A question is written as the map of what it says.
pub proof fn law_requests_say_what_is_asked(a: Ask)
    ensures
        enc_ask(a) == written(ask_value(a)),
{
    match a {
        Ask::Resolve { name, rtype, no_cache } => {
            let h = enc_map(4);
            let f1 = seq![("query"@, Value::Str("resolve"@))];
            let f2 = f1.push(("name"@, Value::Str(name)));
            let f3 = f2.push(("type"@, Value::Uint(rtype as u64)));
            let f4 = f3.push(("no_cache"@, Value::Bool(no_cache)));
            lemma_first(4, "query"@, Value::Str("resolve"@));
            lemma_one_more(h, f1, "name"@, Value::Str(name));
            lemma_one_more(h, f2, "type"@, Value::Uint(rtype as u64));
            lemma_one_more(h, f3, "no_cache"@, Value::Bool(no_cache));
            lemma_dict(f4);
            assert(ask_value(a) == dict(f4)) by {
                assert(f4 =~= seq![
                    ("query"@, Value::Str("resolve"@)),
                    ("name"@, Value::Str(name)),
                    ("type"@, Value::Uint(rtype as u64)),
                    ("no_cache"@, Value::Bool(no_cache)),
                ]);
            }
        },
        Ask::Lookup { name, family } => {
            let h = enc_map(3);
            let word = match family {
                Family::Any => "any"@,
                Family::V4 => "inet"@,
                Family::V6 => "inet6"@,
            };
            let f1 = seq![("query"@, Value::Str("lookup"@))];
            let f2 = f1.push(("name"@, Value::Str(name)));
            let f3 = f2.push(("family"@, Value::Str(word)));
            lemma_first(3, "query"@, Value::Str("lookup"@));
            lemma_one_more(h, f1, "name"@, Value::Str(name));
            lemma_one_more(h, f2, "family"@, Value::Str(word));
            lemma_dict(f3);
            assert(ask_value(a) == dict(f3)) by {
                assert(f3 =~= seq![
                    ("query"@, Value::Str("lookup"@)),
                    ("name"@, Value::Str(name)),
                    ("family"@, Value::Str(word)),
                ]);
            }
        },
        Ask::Reverse { address } => {
            let f1 = seq![("query"@, Value::Str("reverse"@))];
            let f2 = f1.push(("address"@, address_value(address)));
            lemma_first(2, "query"@, Value::Str("reverse"@));
            lemma_one_more(enc_map(2), f1, "address"@, address_value(address));
            lemma_dict(f2);
            assert(f2 =~= seq![("query"@, Value::Str("reverse"@)), ("address"@, address_value(address))]);
        },
        Ask::Status => {
            lemma_first(1, "query"@, Value::Str("status"@));
            lemma_dict(seq![("query"@, Value::Str("status"@))]);
        },
        Ask::Flush => {
            lemma_first(1, "query"@, Value::Str("flush"@));
            lemma_dict(seq![("query"@, Value::Str("flush"@))]);
        },
    }
}

// Replies.

/// A list of texts.
pub open spec fn text_list(s: Seq<Seq<char>>) -> Value {
    Value::Array(s.map_values(|x: Seq<char>| Value::Str(x)))
}

proof fn lemma_texts(s: Seq<Seq<char>>)
    ensures
        all_written(s.map_values(|x: Seq<char>| Value::Str(x)), 0) == enc_strs(s),
    decreases s.len(),
{
    let f = |x: Seq<char>| Value::Str(x);
    if s.len() == 0 {
        assert(all_written(s.map_values(f), 0) =~= enc_strs(s));
    } else {
        lemma_texts(s.drop_last());
        lemma_all_push(s.drop_last().map_values(f), f(s.last()), 0);
        assert(s.map_values(f) =~= s.drop_last().map_values(f).push(f(s.last())));
    }
}

proof fn lemma_text_list(s: Seq<Seq<char>>)
    requires
        s.len() <= u32::MAX,
    ensures
        written(text_list(s)) == enc_str_list(s),
{
    lemma_texts(s);
}

/// A record as it is said.
pub open spec fn record_value(r: RecordOutView) -> Value {
    dict(
        seq![
            ("name"@, Value::Str(r.name)),
            ("type"@, Value::Uint(r.rtype as u64)),
            ("ttl"@, Value::Uint(r.ttl as u64)),
            ("data"@, Value::Bin(r.data)),
            ("text"@, Value::Str(r.text)),
        ],
    )
}

proof fn lemma_record(r: RecordOutView)
    ensures
        enc_record(r) == written(record_value(r)),
{
    let h = enc_map(5);
    let f1 = seq![("name"@, Value::Str(r.name))];
    let f2 = f1.push(("type"@, Value::Uint(r.rtype as u64)));
    let f3 = f2.push(("ttl"@, Value::Uint(r.ttl as u64)));
    let f4 = f3.push(("data"@, Value::Bin(r.data)));
    let f5 = f4.push(("text"@, Value::Str(r.text)));
    lemma_first(5, "name"@, Value::Str(r.name));
    lemma_one_more(h, f1, "type"@, Value::Uint(r.rtype as u64));
    lemma_one_more(h, f2, "ttl"@, Value::Uint(r.ttl as u64));
    lemma_one_more(h, f3, "data"@, Value::Bin(r.data));
    lemma_one_more(h, f4, "text"@, Value::Str(r.text));
    lemma_dict(f5);
    assert(f5 =~= seq![
        ("name"@, Value::Str(r.name)),
        ("type"@, Value::Uint(r.rtype as u64)),
        ("ttl"@, Value::Uint(r.ttl as u64)),
        ("data"@, Value::Bin(r.data)),
        ("text"@, Value::Str(r.text)),
    ]);
}

proof fn lemma_records(s: Seq<RecordOutView>)
    ensures
        all_written(s.map_values(|x: RecordOutView| record_value(x)), 0) == enc_records(s),
    decreases s.len(),
{
    let f = |x: RecordOutView| record_value(x);
    if s.len() == 0 {
        assert(all_written(s.map_values(f), 0) =~= enc_records(s));
    } else {
        lemma_records(s.drop_last());
        lemma_record(s.last());
        lemma_all_push(s.drop_last().map_values(f), f(s.last()), 0);
        assert(s.map_values(f) =~= s.drop_last().map_values(f).push(f(s.last())));
    }
}

/// An address as it is said.
pub open spec fn address_out_value(a: AddressOutView) -> Value {
    dict(seq![("address"@, address_value(a.address)), ("ttl"@, Value::Uint(a.ttl as u64))])
}

proof fn lemma_address(a: AddressOutView)
    ensures
        enc_address(a) == written(address_out_value(a)),
{
    let f1 = seq![("address"@, address_value(a.address))];
    let f2 = f1.push(("ttl"@, Value::Uint(a.ttl as u64)));
    lemma_first(2, "address"@, address_value(a.address));
    lemma_one_more(enc_map(2), f1, "ttl"@, Value::Uint(a.ttl as u64));
    lemma_dict(f2);
    assert(f2 =~= seq![("address"@, address_value(a.address)), ("ttl"@, Value::Uint(a.ttl as u64))]);
}

proof fn lemma_addresses(s: Seq<AddressOutView>)
    ensures
        all_written(s.map_values(|x: AddressOutView| address_out_value(x)), 0) == enc_address_list(s),
    decreases s.len(),
{
    let f = |x: AddressOutView| address_out_value(x);
    if s.len() == 0 {
        assert(all_written(s.map_values(f), 0) =~= enc_address_list(s));
    } else {
        lemma_addresses(s.drop_last());
        lemma_address(s.last());
        lemma_all_push(s.drop_last().map_values(f), f(s.last()), 0);
        assert(s.map_values(f) =~= s.drop_last().map_values(f).push(f(s.last())));
    }
}

/// The word for an outcome.
pub open spec fn outcome_word(o: Outcome) -> Seq<char> {
    match o {
        Outcome::Found => "found"@,
        Outcome::NotFound => "notfound"@,
        Outcome::Unavailable => "unavailable"@,
    }
}

/// The word for how far an answer was checked.
pub open spec fn validation_word(v: Validation) -> Seq<char> {
    match v {
        Validation::Unvalidated => "unvalidated"@,
        Validation::Secure => "secure"@,
        Validation::Insecure => "insecure"@,
        Validation::Bogus => "bogus"@,
    }
}

/// A text that may not be there.
pub open spec fn optional(s: Option<Seq<char>>) -> Value {
    match s {
        Some(s) => Value::Str(s),
        None => Value::Nil,
    }
}

/// What an answer says.
pub open spec fn answer_fields(a: AnswerView) -> Seq<(Seq<char>, Value)> {
    seq![
        ("ok"@, Value::Bool(true)),
        ("kind"@, Value::Str("answer"@)),
        ("outcome"@, Value::Str(outcome_word(a.outcome))),
        ("records"@, Value::Array(a.records.map_values(|x: RecordOutView| record_value(x)))),
        ("source"@, Value::Str(a.source)),
        ("server"@, optional(a.server)),
        ("interface"@, optional(a.interface)),
        ("validation"@, Value::Str(validation_word(a.validation))),
        ("rcode"@, Value::Uint(a.rcode as u64)),
    ]
}

/// What is found, and how, is said under its own key.
pub proof fn law_answers_say_what_was_found(a: AnswerView)
    requires
        a.records.len() <= u32::MAX,
    ensures
        enc_reply(ReplyView::Answer(a)) == written(dict(answer_fields(a))),
{
    let h = enc_map(9);
    let f = answer_fields(a);
    lemma_records(a.records);
    lemma_first(9, f[0].0, f[0].1);
    assert(f.take(1) =~= seq![f[0]]);
    lemma_next(h, f, 1);
    lemma_next(h, f, 2);
    lemma_next(h, f, 3);
    lemma_next(h, f, 4);
    lemma_next(h, f, 5);
    lemma_next(h, f, 6);
    lemma_next(h, f, 7);
    lemma_next(h, f, 8);
    assert(f.take(9) =~= f);
    lemma_dict(f);
    assert(written(f[3].1) == enc_array(count32(a.records.len())) + enc_records(a.records));
    assert(enc_answer(a) == h + all_written(pairs(f), 0));
}

proof fn lemma_next(head: Seq<u8>, f: Seq<(Seq<char>, Value)>, i: int)
    requires
        0 <= i < f.len(),
    ensures
        head + all_written(pairs(f.take(i + 1)), 0) == head + all_written(pairs(f.take(i)), 0) + field(
            f[i].0,
            written(f[i].1),
        ),
{
    assert(f.take(i + 1) =~= f.take(i).push(f[i]));
    lemma_one_more(head, f.take(i), f[i].0, f[i].1);
}

/// What a lookup of addresses says.
pub open spec fn addresses_fields(a: AddressesView) -> Seq<(Seq<char>, Value)> {
    seq![
        ("ok"@, Value::Bool(true)),
        ("kind"@, Value::Str("addresses"@)),
        ("outcome"@, Value::Str(outcome_word(a.outcome))),
        ("canonical"@, Value::Str(a.canonical)),
        ("addresses"@, Value::Array(a.addresses.map_values(|x: AddressOutView| address_out_value(x)))),
        ("source"@, Value::Str(a.source)),
        ("validation"@, Value::Str(validation_word(a.validation))),
    ]
}

/// The addresses of a name, likewise.
pub proof fn law_lookups_say_what_was_found(a: AddressesView)
    requires
        a.addresses.len() <= u32::MAX,
    ensures
        enc_reply(ReplyView::Addresses(a)) == written(dict(addresses_fields(a))),
{
    let h = enc_map(7);
    let f = addresses_fields(a);
    lemma_addresses(a.addresses);
    lemma_first(7, f[0].0, f[0].1);
    assert(f.take(1) =~= seq![f[0]]);
    lemma_next(h, f, 1);
    lemma_next(h, f, 2);
    lemma_next(h, f, 3);
    lemma_next(h, f, 4);
    lemma_next(h, f, 5);
    lemma_next(h, f, 6);
    assert(f.take(7) =~= f);
    lemma_dict(f);
    assert(written(f[4].1) == enc_array(count32(a.addresses.len())) + enc_address_list(a.addresses));
    assert(enc_addresses(a) == h + all_written(pairs(f), 0));
}

/// An interface as it is said.
pub open spec fn scope_fields(s: ScopeStatusView) -> Seq<(Seq<char>, Value)> {
    seq![
        ("interface"@, Value::Str(s.interface)),
        ("servers"@, text_list(s.servers)),
        ("domains"@, text_list(s.domains)),
        ("default_route"@, Value::Bool(s.default_route)),
        ("exclusive"@, Value::Bool(s.exclusive)),
        ("metric"@, Value::Uint(s.metric as u64)),
        ("subnets"@, text_list(s.subnets)),
        ("demoted"@, text_list(s.demoted)),
    ]
}

/// Whether the lists of an interface can be counted in four bytes.
pub open spec fn countable(s: ScopeStatusView) -> bool {
    &&& s.servers.len() <= u32::MAX
    &&& s.domains.len() <= u32::MAX
    &&& s.subnets.len() <= u32::MAX
    &&& s.demoted.len() <= u32::MAX
}

proof fn lemma_scope(s: ScopeStatusView)
    requires
        countable(s),
    ensures
        enc_scope(s) == written(dict(scope_fields(s))),
{
    let h = enc_map(8);
    let f = scope_fields(s);
    lemma_text_list(s.servers);
    lemma_text_list(s.domains);
    lemma_text_list(s.subnets);
    lemma_text_list(s.demoted);
    lemma_first(8, f[0].0, f[0].1);
    assert(f.take(1) =~= seq![f[0]]);
    lemma_next(h, f, 1);
    lemma_next(h, f, 2);
    lemma_next(h, f, 3);
    lemma_next(h, f, 4);
    lemma_next(h, f, 5);
    lemma_next(h, f, 6);
    lemma_next(h, f, 7);
    assert(f.take(8) =~= f);
    lemma_dict(f);
    assert(enc_scope(s) == h + all_written(pairs(f), 0));
}

proof fn lemma_scopes(s: Seq<ScopeStatusView>)
    requires
        forall|i: int| 0 <= i < s.len() ==> countable(#[trigger] s[i]),
    ensures
        all_written(s.map_values(|x: ScopeStatusView| dict(scope_fields(x))), 0) == enc_scopes(s),
    decreases s.len(),
{
    let f = |x: ScopeStatusView| dict(scope_fields(x));
    if s.len() == 0 {
        assert(all_written(s.map_values(f), 0) =~= enc_scopes(s));
    } else {
        assert forall|i: int| 0 <= i < s.drop_last().len() implies countable(#[trigger] s.drop_last()[i]) by {
            assert(s.drop_last()[i] == s[i]);
        }
        lemma_scopes(s.drop_last());
        assert(s.last() == s[s.len() - 1]);
        lemma_scope(s.last());
        lemma_all_push(s.drop_last().map_values(f), f(s.last()), 0);
        assert(s.map_values(f) =~= s.drop_last().map_values(f).push(f(s.last())));
    }
}

/// The counts as they are said.
pub open spec fn count_fields(c: Counters) -> Seq<(Seq<char>, Value)> {
    seq![
        ("queries"@, Value::Uint(c.queries)),
        ("synthetic"@, Value::Uint(c.synthetic)),
        ("cache_hits"@, Value::Uint(c.cache_hits)),
        ("upstream_sent"@, Value::Uint(c.upstream_sent)),
        ("upstream_answered"@, Value::Uint(c.upstream_answered)),
        ("upstream_failed"@, Value::Uint(c.upstream_failed)),
        ("refused"@, Value::Uint(c.refused)),
    ]
}

proof fn lemma_counts(c: Counters)
    ensures
        enc_counters(c) == written(dict(count_fields(c))),
{
    let h = enc_map(7);
    let f = count_fields(c);
    lemma_first(7, f[0].0, f[0].1);
    assert(f.take(1) =~= seq![f[0]]);
    lemma_next(h, f, 1);
    lemma_next(h, f, 2);
    lemma_next(h, f, 3);
    lemma_next(h, f, 4);
    lemma_next(h, f, 5);
    lemma_next(h, f, 6);
    assert(f.take(7) =~= f);
    lemma_dict(f);
    assert(enc_counters(c) == h + all_written(pairs(f), 0));
}

/// What the state of the resolver says.
pub open spec fn status_fields(s: StatusReportView) -> Seq<(Seq<char>, Value)> {
    seq![
        ("ok"@, Value::Bool(true)),
        ("kind"@, Value::Str("status"@)),
        ("hostname"@, Value::Str(s.hostname)),
        ("netd"@, Value::Bool(s.netd)),
        ("scopes"@, Value::Array(s.scopes.map_values(|x: ScopeStatusView| dict(scope_fields(x))))),
        ("fallback_servers"@, text_list(s.fallback_servers)),
        ("cache_entries"@, Value::Uint(s.cache_entries)),
        ("counters"@, dict(count_fields(s.counters))),
    ]
}

/// The state of the resolver, likewise.
pub proof fn law_status_says_how_things_are(s: StatusReportView)
    requires
        s.scopes.len() <= u32::MAX,
        s.fallback_servers.len() <= u32::MAX,
        forall|i: int| 0 <= i < s.scopes.len() ==> countable(#[trigger] s.scopes[i]),
    ensures
        enc_reply(ReplyView::Status(s)) == written(dict(status_fields(s))),
{
    let h = enc_map(8);
    let f = status_fields(s);
    lemma_scopes(s.scopes);
    lemma_text_list(s.fallback_servers);
    lemma_counts(s.counters);
    lemma_first(8, f[0].0, f[0].1);
    assert(f.take(1) =~= seq![f[0]]);
    lemma_next(h, f, 1);
    lemma_next(h, f, 2);
    lemma_next(h, f, 3);
    lemma_next(h, f, 4);
    lemma_next(h, f, 5);
    lemma_next(h, f, 6);
    lemma_next(h, f, 7);
    assert(f.take(8) =~= f);
    lemma_dict(f);
    assert(written(f[4].1) == enc_array(count32(s.scopes.len())) + enc_scopes(s.scopes));
    assert(enc_status(s) == h + all_written(pairs(f), 0));
}

/// That something was done is said alone, and what went wrong is said under a key
/// of its own.
pub proof fn law_other_replies(m: Seq<char>)
    ensures
        enc_reply(ReplyView::Okay) == written(dict(seq![("ok"@, Value::Bool(true))])),
        enc_reply(ReplyView::Error(m)) == written(dict(seq![("ok"@, Value::Bool(false)), ("error"@, Value::Str(m))])),
{
    lemma_first(1, "ok"@, Value::Bool(true));
    lemma_dict(seq![("ok"@, Value::Bool(true))]);
    let f1 = seq![("ok"@, Value::Bool(false))];
    let f2 = f1.push(("error"@, Value::Str(m)));
    lemma_first(2, "ok"@, Value::Bool(false));
    lemma_one_more(enc_map(2), f1, "error"@, Value::Str(m));
    lemma_dict(f2);
    assert(f2 =~= seq![("ok"@, Value::Bool(false)), ("error"@, Value::Str(m))]);
}

// Reading.

/// What a question has to say: what it asks, and the name, the type or the address
/// that goes with that. Without a family it asks for both, and without a word on
/// the cache it may be answered from it.
pub proof fn law_requests_are_read(f: AskFields, name: Seq<char>, rtype: u16, address: Seq<char>)
    ensures
        f.query is None ==> ask_of(f) is Err,
        f.query == Some("resolve"@) ==> {
            &&& f.name == Some(name) && f.rtype == Some(rtype) ==> ask_of(f) == Ok::<Ask, Fault>(
                Ask::Resolve { name, rtype, no_cache: f.no_cache },
            )
            &&& f.name is None || f.rtype is None ==> ask_of(f) is Err
        },
        f.query == Some("lookup"@) ==> {
            &&& f.name == Some(name) && f.family is None ==> ask_of(f) == Ok::<Ask, Fault>(
                Ask::Lookup { name, family: Family::Any },
            )
            &&& f.name == Some(name) && f.family is Some ==> ask_of(f) == Ok::<Ask, Fault>(
                Ask::Lookup { name, family: f.family->0 },
            )
            &&& f.name is None ==> ask_of(f) is Err
        },
        f.query == Some("reverse"@) ==> {
            &&& f.address is None ==> ask_of(f) is Err
            &&& f.address == Some(address) ==> match ip_of_text(encode_utf8(address)) {
                Some(a) => ask_of(f) == Ok::<Ask, Fault>(Ask::Reverse { address: a }),
                None => ask_of(f) is Err,
            }
        },
        ask_start().query is None && ask_start().name is None && ask_start().rtype is None,
        !ask_start().no_cache && ask_start().family is None && ask_start().address is None,
{
    reveal_strlit("resolve");
    reveal_strlit("lookup");
    reveal_strlit("reverse");
    assert("resolve"@.len() == 7 && "lookup"@.len() == 6 && "reverse"@.len() == 7);
    assert("resolve"@[2] == 's');
    assert("reverse"@[2] == 'v');
}

/// What stands under a key of a question is taken for that key, and for no other.
pub proof fn law_request_fields(v: AskFields, i: Input, s: Seq<char>, n: u64, b: bool, j: Input)
    ensures
        read_str(i) == (Ok::<Seq<char>, Error>(s), j) ==> {
            &&& ask_step(v, "query"@, i) == Ok::<(AskFields, Input), Fault>((AskFields { query: Some(s), ..v }, j))
            &&& ask_step(v, "name"@, i) == Ok::<(AskFields, Input), Fault>(
                (AskFields { name: Some(s), ..v }, j),
            )
            &&& ask_step(v, "address"@, i) == Ok::<(AskFields, Input), Fault>(
                (AskFields { address: Some(s), ..v }, j),
            )
            &&& s == "any"@ ==> ask_step(v, "family"@, i) == Ok::<(AskFields, Input), Fault>(
                (AskFields { family: Some(Family::Any), ..v }, j),
            )
            &&& s == "inet"@ ==> ask_step(v, "family"@, i) == Ok::<(AskFields, Input), Fault>(
                (AskFields { family: Some(Family::V4), ..v }, j),
            )
            &&& s == "inet6"@ ==> ask_step(v, "family"@, i) == Ok::<(AskFields, Input), Fault>(
                (AskFields { family: Some(Family::V6), ..v }, j),
            )
        },
        read_uint(i) == (Ok::<u64, Error>(n), j) ==> {
            &&& n <= 65535 ==> ask_step(v, "type"@, i) == Ok::<(AskFields, Input), Fault>(
                (AskFields { rtype: Some(n as u16), ..v }, j),
            )
            &&& n > 65535 ==> ask_step(v, "type"@, i) is Err
        },
        read_bool(i) == (Ok::<bool, Error>(b), j) ==> ask_step(v, "no_cache"@, i) == Ok::<
            (AskFields, Input),
            Fault,
        >((AskFields { no_cache: b, ..v }, j)),
{
    reveal(ask_step);
    lemma_keys();
}

/// Whether the keys of a question are told apart.
pub open spec fn keys_differ() -> bool {
    &&& "query"@ != "name"@ && "query"@ != "type"@ && "query"@ != "no_cache"@ && "query"@ != "family"@
    &&& "query"@ != "address"@ && "name"@ != "type"@ && "name"@ != "no_cache"@ && "name"@ != "family"@
    &&& "name"@ != "address"@ && "type"@ != "no_cache"@ && "type"@ != "family"@ && "type"@ != "address"@
    &&& "no_cache"@ != "family"@ && "no_cache"@ != "address"@ && "family"@ != "address"@
    &&& "any"@ != "inet"@ && "any"@ != "inet6"@ && "inet"@ != "inet6"@
}

proof fn lemma_keys()
    ensures
        keys_differ(),
{
    reveal_strlit("query");
    reveal_strlit("name");
    reveal_strlit("type");
    reveal_strlit("no_cache");
    reveal_strlit("family");
    reveal_strlit("address");
    reveal_strlit("any");
    reveal_strlit("inet");
    reveal_strlit("inet6");
    assert("query"@.len() == 5 && "name"@.len() == 4 && "type"@.len() == 4 && "no_cache"@.len() == 8);
    assert("family"@.len() == 6 && "address"@.len() == 7);
    assert("any"@.len() == 3 && "inet"@.len() == 4 && "inet6"@.len() == 5);
    assert("name"@[0] == 'n');
    assert("type"@[0] == 't');
}

/// A reply that is not well is an error, under its own words where it has some; one
/// that is well is of the kind that it says, and says no more where it says none.
pub proof fn law_replies_are_read(f: ReplyFieldsView, e: Seq<char>)
    ensures
        f.ok is None ==> reply_of(f) is Err,
        f.ok == Some(false) && f.error == Some(e) ==> reply_of(f) == Ok::<ReplyView, Fault>(ReplyView::Error(e)),
        f.ok == Some(false) && f.error is None ==> reply_of(f) == Ok::<ReplyView, Fault>(
            ReplyView::Error("unspecified error"@),
        ),
        f.ok == Some(true) && f.kind is None ==> reply_of(f) == Ok::<ReplyView, Fault>(ReplyView::Okay),
        f.ok == Some(true) && f.kind == Some("answer"@) ==> reply_of(f) == Ok::<ReplyView, Fault>(
            ReplyView::Answer(f.answer),
        ),
        f.ok == Some(true) && f.kind == Some("addresses"@) ==> reply_of(f) == Ok::<
            ReplyView,
            Fault,
        >(ReplyView::Addresses(f.addresses)),
        f.ok == Some(true) && f.kind == Some("status"@)
            ==> reply_of(f) == Ok::<ReplyView, Fault>(ReplyView::Status(f.status)),
        reply_start().answer.outcome == Outcome::Unavailable && reply_start().answer.records.len() == 0,
        reply_start().addresses.outcome == Outcome::Unavailable && reply_start().addresses.addresses.len() == 0,
        reply_start().answer.validation == Validation::Unvalidated,
        reply_start().addresses.validation == Validation::Unvalidated,
        reply_start().ok is None && reply_start().kind is None && reply_start().error is None,
{
    reveal_strlit("answer");
    reveal_strlit("addresses");
    reveal_strlit("status");
    assert("answer"@.len() == 6 && "addresses"@.len() == 9 && "status"@.len() == 6);
    assert("answer"@[0] == 'a');
    assert("status"@[0] == 's');
}

// Frames.

/// A message goes behind its length in four bytes, the first counting least.
pub proof fn law_frames_are_counted(payload: Seq<u8>)
    requires
        payload.len() <= u32::MAX,
    ensures
        ({
            let f = frame(payload);
            &&& f.len() == payload.len() + 4
            &&& f[0] + f[1] * 256 + f[2] * 65536 + f[3] * 16777216 == payload.len()
            &&& f.skip(4) == payload
        }),
{
    let f = frame(payload);
    let n = payload.len();
    assert(f.skip(4) =~= payload);
    assert(f[0] == n % 256 && f[1] == n / 256 % 256 && f[2] == n / 65536 % 256 && f[3] == n / 16777216 % 256);
}

/// A message is read where it is all there behind its length, and what follows it
/// is left; none of more than 65536 bytes is.
pub proof fn law_frames_are_read(b: Seq<u8>)
    requires
        b.len() >= 4,
    ensures
        ({
            let n = b[0] + b[1] * 256 + b[2] * 65536 + b[3] * 16777216;
            &&& n > 65536 ==> unframe(b).0 == Err::<Seq<u8>, Fault>(Fault::TooLarge(n as nat))
            &&& n <= 65536 && b.len() >= 4 + n ==> unframe(b) == (
                Ok::<Seq<u8>, Fault>(b.subrange(4, 4 + n)),
                b.skip(4 + n),
            )
            &&& n <= 65536 && b.len() < 4 + n ==> unframe(b).0 is Err
        }),
{
    let n = b[0] + b[1] * 256 + b[2] * 65536 + b[3] * 16777216;
    assert(le32_value(b) == n);
    if n <= 65536 && b.len() >= 4 + n {
        assert(b.skip(4).take(n) =~= b.subrange(4, 4 + n));
        assert(b.skip(4).skip(n) =~= b.skip(4 + n));
    }
}

} // verus!

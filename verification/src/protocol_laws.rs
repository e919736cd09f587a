//! What the local wire promises as a whole: every request and every reply
//! reads back as it was written.
use crate::addr::{ip_of_text, ip_text, law_text_round_trip, lemma_ip_text_ascii};
use crate::msgpack;
use crate::msgpack::{
    enc_array, enc_bin, enc_bool, enc_map, enc_nil, enc_str, enc_uint, input, law_array, law_bin, law_bool, law_map, law_nil,
    law_str, law_uint, Input,
};
use crate::octets;
use crate::protocol::{
    array_of, ask_of, ask_start, ask_step, address_step, addresses_step, answer_step, count32, count_step,
    record_step, reply_step, scope_step, status_step, dec_ask, dec_reply, enc_address, enc_address_list, enc_ask,
    enc_counters, enc_ip, enc_opt_str, enc_record, enc_records, enc_reply, enc_scope, enc_scopes, enc_str_list,
    enc_strs, field, fields, kept, map_of, maps, no_answer, no_addresses, no_counts, no_record, no_scope, no_status,
    opt_str, reply_start, reply_of, str_list, strs, AddressFields, AddressFieldsView, AddressOutView, AddressesView,
    AnswerView, Ask, AskFields, Counters, Family, Fault, FieldVisitor, Outcome, RecordOut, RecordOutView,
    ReplyFields, ReplyFieldsView, ReplyView, RequestFields, ScopeStatus, ScopeStatusView, StatusReportView,
    Validation,
};
use crate::text;
use vstd::prelude::*;
use vstd::utf8::*;

verus! {

// Names of fields.

/// What tells the names of fields apart.
#[verifier::opaque]
spec fn mark(k: Seq<char>) -> int {
    k.len() + 100 * (k[0] as int) + 100_000 * (k[(k.len() / 2) as int] as int)
}

spec fn named(k: Seq<char>, m: int) -> bool {
    mark(k) == m && fits(k)
}

/// Whether a string's length can be written.
pub open spec fn fits(s: Seq<char>) -> bool {
    encode_utf8(s).len() <= u32::MAX
}

proof fn lemma_utf8_len(s: Seq<char>)
    ensures
        encode_utf8(s).len() <= 4 * s.len(),
    decreases s.len(),
{
    if s.len() > 0 {
        lemma_utf8_len(s.drop_first());
    }
}

proof fn lemma_named(k: Seq<char>, len: nat, first: char, middle: char)
    requires
        k.len() == len,
        0 < len < 100,
        k[0] == first,
        k[(len / 2) as int] == middle,
    ensures
        named(k, len + 100 * (first as int) + 100_000 * (middle as int)),
{
    reveal(mark);
    lemma_utf8_len(k);
}

proof fn lemma_ask_names()
    ensures
        named("query"@, 10111305),
        named("name"@, 10911004),
        named("type"@, 11211604),
        named("no_cache"@, 9711008),
        named("family"@, 10510206),
        named("address"@, 11409707),
{
    reveal_strlit("query");
    reveal_strlit("name");
    reveal_strlit("type");
    reveal_strlit("no_cache");
    reveal_strlit("family");
    reveal_strlit("address");
    lemma_named("query"@, 5, 'q', 'e');
    lemma_named("name"@, 4, 'n', 'm');
    lemma_named("type"@, 4, 't', 'p');
    lemma_named("no_cache"@, 8, 'n', 'a');
    lemma_named("family"@, 6, 'f', 'i');
    lemma_named("address"@, 7, 'a', 'r');
}

proof fn lemma_ask_words()
    ensures
        named("resolve"@, 11111407),
        named("lookup"@, 10710806),
        named("reverse"@, 10111407),
        named("status"@, 11611506),
        named("flush"@, 11710205),
{
    reveal_strlit("resolve");
    reveal_strlit("lookup");
    reveal_strlit("reverse");
    reveal_strlit("status");
    reveal_strlit("flush");
    lemma_named("resolve"@, 7, 'r', 'o');
    lemma_named("lookup"@, 6, 'l', 'k');
    lemma_named("reverse"@, 7, 'r', 'e');
    lemma_named("status"@, 6, 's', 't');
    lemma_named("flush"@, 5, 'f', 'u');
}

proof fn lemma_record_names()
    ensures
        named("name"@, 10911004),
        named("type"@, 11211604),
        named("ttl"@, 11611603),
        named("data"@, 11610004),
        named("text"@, 12011604),
{
    reveal_strlit("name");
    reveal_strlit("type");
    reveal_strlit("ttl");
    reveal_strlit("data");
    reveal_strlit("text");
    lemma_named("name"@, 4, 'n', 'm');
    lemma_named("type"@, 4, 't', 'p');
    lemma_named("ttl"@, 3, 't', 't');
    lemma_named("data"@, 4, 'd', 't');
    lemma_named("text"@, 4, 't', 'x');
}

proof fn lemma_address_names()
    ensures
        named("address"@, 11409707),
        named("ttl"@, 11611603),
{
    reveal_strlit("address");
    reveal_strlit("ttl");
    lemma_named("address"@, 7, 'a', 'r');
    lemma_named("ttl"@, 3, 't', 't');
}

proof fn lemma_scope_names()
    ensures
        named("interface"@, 11410509),
        named("servers"@, 11811507),
        named("domains"@, 9710007),
        named("default_route"@, 11610013),
        named("exclusive"@, 11710109),
        named("metric"@, 11410906),
        named("subnets"@, 11011507),
        named("demoted"@, 11110007),
{
    reveal_strlit("interface");
    reveal_strlit("servers");
    reveal_strlit("domains");
    reveal_strlit("default_route");
    reveal_strlit("exclusive");
    reveal_strlit("metric");
    reveal_strlit("subnets");
    reveal_strlit("demoted");
    lemma_named("interface"@, 9, 'i', 'r');
    lemma_named("servers"@, 7, 's', 'v');
    lemma_named("domains"@, 7, 'd', 'a');
    lemma_named("default_route"@, 13, 'd', 't');
    lemma_named("exclusive"@, 9, 'e', 'u');
    lemma_named("metric"@, 6, 'm', 'r');
    lemma_named("subnets"@, 7, 's', 'n');
    lemma_named("demoted"@, 7, 'd', 'o');
}

proof fn lemma_counter_names()
    ensures
        named("queries"@, 11411307),
        named("synthetic"@, 10411509),
        named("cache_hits"@, 9509910),
        named("upstream_sent"@, 9711713),
        named("upstream_answered"@, 9511717),
        named("upstream_failed"@, 10911715),
        named("refused"@, 11711407),
{
    reveal_strlit("queries");
    reveal_strlit("synthetic");
    reveal_strlit("cache_hits");
    reveal_strlit("upstream_sent");
    reveal_strlit("upstream_answered");
    reveal_strlit("upstream_failed");
    reveal_strlit("refused");
    lemma_named("queries"@, 7, 'q', 'r');
    lemma_named("synthetic"@, 9, 's', 'h');
    lemma_named("cache_hits"@, 10, 'c', '_');
    lemma_named("upstream_sent"@, 13, 'u', 'a');
    lemma_named("upstream_answered"@, 17, 'u', '_');
    lemma_named("upstream_failed"@, 15, 'u', 'm');
    lemma_named("refused"@, 7, 'r', 'u');
}

proof fn lemma_reply_names()
    ensures
        named("ok"@, 10711102),
        named("error"@, 11410105),
        named("kind"@, 11010704),
        named("outcome"@, 9911107),
        named("validation"@, 9711810),
        named("source"@, 11411506),
        named("server"@, 11811506),
        named("interface"@, 11410509),
        named("rcode"@, 11111405),
        named("records"@, 11111407),
        named("canonical"@, 11009909),
        named("addresses"@, 10109709),
        named("hostname"@, 11010408),
        named("netd"@, 11611004),
        named("fallback_servers"@, 9510216),
        named("cache_entries"@, 10109913),
        named("scopes"@, 11211506),
        named("counters"@, 11609908),
{
    reveal_strlit("ok");
    reveal_strlit("error");
    reveal_strlit("kind");
    reveal_strlit("outcome");
    reveal_strlit("validation");
    reveal_strlit("source");
    reveal_strlit("server");
    reveal_strlit("interface");
    reveal_strlit("rcode");
    reveal_strlit("records");
    reveal_strlit("canonical");
    reveal_strlit("addresses");
    reveal_strlit("hostname");
    reveal_strlit("netd");
    reveal_strlit("fallback_servers");
    reveal_strlit("cache_entries");
    reveal_strlit("scopes");
    reveal_strlit("counters");
    lemma_named("ok"@, 2, 'o', 'k');
    lemma_named("error"@, 5, 'e', 'r');
    lemma_named("kind"@, 4, 'k', 'n');
    lemma_named("outcome"@, 7, 'o', 'c');
    lemma_named("validation"@, 10, 'v', 'a');
    lemma_named("source"@, 6, 's', 'r');
    lemma_named("server"@, 6, 's', 'v');
    lemma_named("interface"@, 9, 'i', 'r');
    lemma_named("rcode"@, 5, 'r', 'o');
    lemma_named("records"@, 7, 'r', 'o');
    lemma_named("canonical"@, 9, 'c', 'n');
    lemma_named("addresses"@, 9, 'a', 'e');
    lemma_named("hostname"@, 8, 'h', 'n');
    lemma_named("netd"@, 4, 'n', 't');
    lemma_named("fallback_servers"@, 16, 'f', '_');
    lemma_named("cache_entries"@, 13, 'c', 'e');
    lemma_named("scopes"@, 6, 's', 'p');
    lemma_named("counters"@, 8, 'c', 't');
}

proof fn lemma_reply_kinds()
    ensures
        named("answer"@, 11909706),
        named("addresses"@, 10109709),
        named("status"@, 11611506),
{
    reveal_strlit("answer");
    reveal_strlit("addresses");
    reveal_strlit("status");
    lemma_named("answer"@, 6, 'a', 'w');
    lemma_named("addresses"@, 9, 'a', 'e');
    lemma_named("status"@, 6, 's', 't');
}

// One field.

proof fn lemma_field<V: FieldVisitor>(
    n: nat,
    seen: Seq<Seq<char>>,
    v: V::V,
    key: Seq<char>,
    value: Seq<u8>,
    tail: Seq<u8>,
    v2: V::V,
)
    requires
        n > 0,
        fits(key),
        !seen.contains(key),
        V::step(v, key, input(value + tail, 0)) == Ok::<(V::V, Input), Fault>((v2, input(tail, 0))),
    ensures
        fields::<V>(n, seen, v, input(field(key, value) + tail, 0)) == fields::<V>(
            (n - 1) as nat,
            seen.push(key),
            v2,
            input(tail, 0),
        ),
{
    octets::lemma_join(msgpack::enc_str(key), value, tail);
    law_str(key, value + tail, 0);
}

proof fn lemma_field_len(key: Seq<char>, value: Seq<u8>)
    requires
        value.len() >= 1,
    ensures
        field(key, value).len() >= 2,
{
    reveal(enc_str);
    octets::lemma_be_round_trip(encode_utf8(key).len(), 1);
    octets::lemma_be_round_trip(encode_utf8(key).len(), 2);
    octets::lemma_be_round_trip(encode_utf8(key).len(), 4);
}

proof fn lemma_str_len(s: Seq<char>)
    ensures
        enc_str(s).len() >= 1,
{
    lemma_field_len(s, seq![0u8]);
}

proof fn lemma_uint_len(v: nat)
    ensures
        enc_uint(v).len() >= 1,
{
    reveal(enc_uint);
}

proof fn lemma_bool_len(v: bool)
    ensures
        enc_bool(v).len() >= 1,
{
    reveal(enc_bool);
}

// Requests.

/// What a request must be so that every length in it can be written.
pub open spec fn ask_fits(a: Ask) -> bool {
    match a {
        Ask::Resolve { name, .. } => fits(name),
        Ask::Lookup { name, .. } => fits(name),
        Ask::Reverse { address } => address.len() == 4 || address.len() == 16,
        _ => true,
    }
}

proof fn lemma_family_fits(f: Family)
    ensures
        fits(f.text()),
{
    lemma_utf8_len(f.text());
    reveal_strlit("any");
    reveal_strlit("inet");
    reveal_strlit("inet6");
    assert("any"@.len() == 3);
    assert("inet"@.len() == 4);
    assert("inet6"@.len() == 5);
}

proof fn lemma_dec_len(n: nat)
    requires
        n < 256,
    ensures
        text::dec(n).len() <= 3,
{
    text::lemma_dec_digits(n);
}

proof fn lemma_groups_len(g: Seq<u16>)
    ensures
        crate::addr::colon_groups(g).len() <= 5 * g.len(),
        crate::addr::groups_text(g).len() <= 5 * g.len(),
    decreases g.len(),
{
    if g.len() > 0 {
        text::lemma_hex_digits(g[0] as nat);
        lemma_groups_len(g.skip(1));
    }
}

/// An address is written in few bytes, and the text is what is read back.
proof fn lemma_ip_text(a: Seq<u8>)
    requires
        a.len() == 4 || a.len() == 16,
    ensures
        fits(text::chars(ip_text(a))),
        encode_utf8(text::chars(ip_text(a))) == ip_text(a),
        ip_of_text(encode_utf8(text::chars(ip_text(a)))) == Some(a),
{
    lemma_ip_text_ascii(a);
    text::lemma_ascii(ip_text(a));
    law_text_round_trip(a);
    lemma_ip_text_len(a);
}

proof fn lemma_ip_text_len(a: Seq<u8>)
    requires
        a.len() == 4 || a.len() == 16,
    ensures
        ip_text(a).len() <= 100,
{
    let g = crate::addr::segments(a);
    let start = crate::addr::longest_from(g, 0);
    let len = crate::addr::zeros_from(g, start);
    let o = if a.len() == 4 { a } else { a.subrange(12, 16) };
    lemma_dec_len(o[0] as nat);
    lemma_dec_len(o[1] as nat);
    lemma_dec_len(o[2] as nat);
    lemma_dec_len(o[3] as nat);
    crate::addr::lemma_longest(g, 0);
    crate::addr::lemma_zeros(g, start);
    lemma_groups_len(g);
    lemma_groups_len(g.take(start));
    lemma_groups_len(g.skip(start + len));
}

proof fn lemma_resolve(name: Seq<char>, rtype: u16, no_cache: bool)
    requires
        fits(name),
    ensures
        ({
            let a = (Ask::Resolve { name, rtype, no_cache });
            dec_ask(enc_ask(a)) == Ok::<Ask, Fault>(a)
        }),
{
    lemma_ask_names();
    lemma_ask_words();
    let tail = Seq::<u8>::empty();
    let b = enc_ask((Ask::Resolve { name, rtype, no_cache }));
    assert(b + tail =~= b);
    let s4 = tail;
    let s3 = field("no_cache"@, enc_bool(no_cache)) + s4;
    let s2 = field("type"@, enc_uint(rtype as nat)) + s3;
    let s1 = field("name"@, enc_str(name)) + s2;
    let s0 = field("query"@, enc_str("resolve"@)) + s1;
    assert(b + tail == enc_map(4) + s0) by {
        broadcast use octets::lemma_join;

    }
    assert(s0.len() >= 8) by {
        lemma_str_len("resolve"@);
        lemma_field_len("query"@, enc_str("resolve"@));
        lemma_str_len(name);
        lemma_field_len("name"@, enc_str(name));
        lemma_uint_len(rtype as nat);
        lemma_field_len("type"@, enc_uint(rtype as nat));
        lemma_bool_len(no_cache);
        lemma_field_len("no_cache"@, enc_bool(no_cache));
    }
    law_map(4, s0, 0);
    let v0 = ask_start();
    let seen0 = Seq::<Seq<char>>::empty();
    let v1 = AskFields { query: Some("resolve"@), ..v0 };
    assert(RequestFields::step(v0, "query"@, input(enc_str("resolve"@) + s1, 0))
        == Ok::<(AskFields, Input), Fault>((v1, input(s1, 0)))) by {
        reveal(ask_step);
        law_str("resolve"@, s1, 0);
    }
    lemma_field::<RequestFields>(4, seen0, v0, "query"@, enc_str("resolve"@), s1, v1);
    let seen1 = seen0.push("query"@);
    let v2 = AskFields { name: Some(name), ..v1 };
    assert(RequestFields::step(v1, "name"@, input(enc_str(name) + s2, 0))
        == Ok::<(AskFields, Input), Fault>((v2, input(s2, 0)))) by {
        reveal(ask_step);
        law_str(name, s2, 0);
    }
    lemma_field::<RequestFields>(3, seen1, v1, "name"@, enc_str(name), s2, v2);
    let seen2 = seen1.push("name"@);
    let v3 = AskFields { rtype: Some(rtype), ..v2 };
    assert(RequestFields::step(v2, "type"@, input(enc_uint(rtype as nat) + s3, 0))
        == Ok::<(AskFields, Input), Fault>((v3, input(s3, 0)))) by {
        reveal(ask_step);
        law_uint(rtype as u64, s3, 0);
    }
    lemma_field::<RequestFields>(2, seen2, v2, "type"@, enc_uint(rtype as nat), s3, v3);
    let seen3 = seen2.push("type"@);
    let v4 = AskFields { no_cache, ..v3 };
    assert(RequestFields::step(v3, "no_cache"@, input(enc_bool(no_cache) + s4, 0))
        == Ok::<(AskFields, Input), Fault>((v4, input(s4, 0)))) by {
        reveal(ask_step);
        law_bool(no_cache, s4, 0);
    }
    lemma_field::<RequestFields>(1, seen3, v3, "no_cache"@, enc_bool(no_cache), s4, v4);
    let seen4 = seen3.push("no_cache"@);
}

proof fn lemma_lookup(name: Seq<char>, family: Family)
    requires
        fits(name),
    ensures
        ({
            let a = (Ask::Lookup { name, family });
            dec_ask(enc_ask(a)) == Ok::<Ask, Fault>(a)
        }),
{
    lemma_ask_names();
    lemma_ask_words();
    let tail = Seq::<u8>::empty();
    let b = enc_ask((Ask::Lookup { name, family }));
    assert(b + tail =~= b);
    let s3 = tail;
    let s2 = field("family"@, enc_str(family.text())) + s3;
    let s1 = field("name"@, enc_str(name)) + s2;
    let s0 = field("query"@, enc_str("lookup"@)) + s1;
    assert(b + tail == enc_map(3) + s0) by {
        broadcast use octets::lemma_join;

    }
    assert(s0.len() >= 6) by {
        lemma_str_len("lookup"@);
        lemma_field_len("query"@, enc_str("lookup"@));
        lemma_str_len(name);
        lemma_field_len("name"@, enc_str(name));
        lemma_str_len(family.text());
        lemma_field_len("family"@, enc_str(family.text()));
    }
    law_map(3, s0, 0);
    let v0 = ask_start();
    let seen0 = Seq::<Seq<char>>::empty();
    let v1 = AskFields { query: Some("lookup"@), ..v0 };
    assert(RequestFields::step(v0, "query"@, input(enc_str("lookup"@) + s1, 0))
        == Ok::<(AskFields, Input), Fault>((v1, input(s1, 0)))) by {
        reveal(ask_step);
        law_str("lookup"@, s1, 0);
    }
    lemma_field::<RequestFields>(3, seen0, v0, "query"@, enc_str("lookup"@), s1, v1);
    let seen1 = seen0.push("query"@);
    let v2 = AskFields { name: Some(name), ..v1 };
    assert(RequestFields::step(v1, "name"@, input(enc_str(name) + s2, 0))
        == Ok::<(AskFields, Input), Fault>((v2, input(s2, 0)))) by {
        reveal(ask_step);
        law_str(name, s2, 0);
    }
    lemma_field::<RequestFields>(2, seen1, v1, "name"@, enc_str(name), s2, v2);
    let seen2 = seen1.push("name"@);
    let v3 = AskFields { family: Some(family), ..v2 };
    assert(RequestFields::step(v2, "family"@, input(enc_str(family.text()) + s3, 0))
        == Ok::<(AskFields, Input), Fault>((v3, input(s3, 0)))) by {
        reveal(ask_step);
        family.law_text();
        lemma_family_fits(family);
        law_str(family.text(), s3, 0);
    }
    lemma_field::<RequestFields>(1, seen2, v2, "family"@, enc_str(family.text()), s3, v3);
    let seen3 = seen2.push("family"@);
}

proof fn lemma_reverse(address: Seq<u8>)
    requires
        address.len() == 4 || address.len() == 16,
    ensures
        ({
            let a = (Ask::Reverse { address });
            dec_ask(enc_ask(a)) == Ok::<Ask, Fault>(a)
        }),
{
    lemma_ask_names();
    lemma_ask_words();
    let tail = Seq::<u8>::empty();
    let b = enc_ask((Ask::Reverse { address }));
    assert(b + tail =~= b);
    lemma_ip_text(address);
    let s2 = tail;
    let s1 = field("address"@, enc_ip(address)) + s2;
    let s0 = field("query"@, enc_str("reverse"@)) + s1;
    assert(b + tail == enc_map(2) + s0) by {
        broadcast use octets::lemma_join;

    }
    assert(s0.len() >= 4) by {
        lemma_str_len("reverse"@);
        lemma_field_len("query"@, enc_str("reverse"@));
        lemma_str_len(text::chars(ip_text(address)));
        lemma_field_len("address"@, enc_ip(address));
    }
    law_map(2, s0, 0);
    let v0 = ask_start();
    let seen0 = Seq::<Seq<char>>::empty();
    let v1 = AskFields { query: Some("reverse"@), ..v0 };
    assert(RequestFields::step(v0, "query"@, input(enc_str("reverse"@) + s1, 0))
        == Ok::<(AskFields, Input), Fault>((v1, input(s1, 0)))) by {
        reveal(ask_step);
        law_str("reverse"@, s1, 0);
    }
    lemma_field::<RequestFields>(2, seen0, v0, "query"@, enc_str("reverse"@), s1, v1);
    let seen1 = seen0.push("query"@);
    let v2 = AskFields { address: Some(text::chars(ip_text(address))), ..v1 };
    assert(RequestFields::step(v1, "address"@, input(enc_ip(address) + s2, 0))
        == Ok::<(AskFields, Input), Fault>((v2, input(s2, 0)))) by {
        reveal(ask_step);
        lemma_ip_text(address);
        law_str(text::chars(ip_text(address)), s2, 0);
    }
    lemma_field::<RequestFields>(1, seen1, v1, "address"@, enc_ip(address), s2, v2);
    let seen2 = seen1.push("address"@);
}

proof fn lemma_status()
    ensures
        ({
            let a = Ask::Status;
            dec_ask(enc_ask(a)) == Ok::<Ask, Fault>(a)
        }),
{
    lemma_ask_names();
    lemma_ask_words();
    let tail = Seq::<u8>::empty();
    let b = enc_ask(Ask::Status);
    assert(b + tail =~= b);
    let s1 = tail;
    let s0 = field("query"@, enc_str("status"@)) + s1;
    assert(b + tail == enc_map(1) + s0) by {
        broadcast use octets::lemma_join;

    }
    assert(s0.len() >= 2) by {
        lemma_str_len("status"@);
        lemma_field_len("query"@, enc_str("status"@));
    }
    law_map(1, s0, 0);
    let v0 = ask_start();
    let seen0 = Seq::<Seq<char>>::empty();
    let v1 = AskFields { query: Some("status"@), ..v0 };
    assert(RequestFields::step(v0, "query"@, input(enc_str("status"@) + s1, 0))
        == Ok::<(AskFields, Input), Fault>((v1, input(s1, 0)))) by {
        reveal(ask_step);
        law_str("status"@, s1, 0);
    }
    lemma_field::<RequestFields>(1, seen0, v0, "query"@, enc_str("status"@), s1, v1);
    let seen1 = seen0.push("query"@);
}

proof fn lemma_flush()
    ensures
        ({
            let a = Ask::Flush;
            dec_ask(enc_ask(a)) == Ok::<Ask, Fault>(a)
        }),
{
    lemma_ask_names();
    lemma_ask_words();
    let tail = Seq::<u8>::empty();
    let b = enc_ask(Ask::Flush);
    assert(b + tail =~= b);
    let s1 = tail;
    let s0 = field("query"@, enc_str("flush"@)) + s1;
    assert(b + tail == enc_map(1) + s0) by {
        broadcast use octets::lemma_join;

    }
    assert(s0.len() >= 2) by {
        lemma_str_len("flush"@);
        lemma_field_len("query"@, enc_str("flush"@));
    }
    law_map(1, s0, 0);
    let v0 = ask_start();
    let seen0 = Seq::<Seq<char>>::empty();
    let v1 = AskFields { query: Some("flush"@), ..v0 };
    assert(RequestFields::step(v0, "query"@, input(enc_str("flush"@) + s1, 0))
        == Ok::<(AskFields, Input), Fault>((v1, input(s1, 0)))) by {
        reveal(ask_step);
        law_str("flush"@, s1, 0);
    }
    lemma_field::<RequestFields>(1, seen0, v0, "query"@, enc_str("flush"@), s1, v1);
    let seen1 = seen0.push("query"@);
}

/// A request reads back as it was written.
pub proof fn law_request_round_trip(a: Ask)
    requires
        ask_fits(a),
    ensures
        dec_ask(enc_ask(a)) == Ok::<Ask, Fault>(a),
{
    match a {
        Ask::Resolve { name, rtype, no_cache } => lemma_resolve(name, rtype, no_cache),
        Ask::Lookup { name, family } => lemma_lookup(name, family),
        Ask::Reverse { address } => lemma_reverse(address),
        Ask::Status => lemma_status(),
        Ask::Flush => lemma_flush(),
    }
}

// Replies.

proof fn lemma_bin_len(b: Seq<u8>)
    ensures
        enc_bin(b).len() >= 1,
{
    reveal(enc_bin);
}

proof fn lemma_opt_len(s: Option<Seq<char>>)
    ensures
        enc_opt_str(s).len() >= 1,
{
    reveal(enc_nil);
    if let Some(s) = s {
        lemma_str_len(s);
    }
}

proof fn lemma_array_len(n: nat, members: Seq<u8>)
    ensures
        (enc_array(count32(n)) + members).len() >= 1,
{
    reveal(enc_array);
}

pub open spec fn all_fit(s: Seq<Seq<char>>) -> bool {
    s.len() <= u32::MAX && forall|i: int| 0 <= i < s.len() ==> fits(#[trigger] s[i])
}

pub open spec fn opt_fits(s: Option<Seq<char>>) -> bool {
    match s {
        Some(s) => fits(s),
        None => true,
    }
}

proof fn lemma_opt_str(s: Option<Seq<char>>, tail: Seq<u8>)
    requires
        opt_fits(s),
    ensures
        opt_str(input(enc_opt_str(s) + tail, 0)) == Ok::<(Option<Seq<char>>, Input), Fault>((s, input(tail, 0))),
{
    match s {
        None => {
            law_nil(tail, 0);
            reveal(enc_nil);
        },
        Some(s) => {
            law_str(s, tail, 0);
            reveal(enc_str);
        },
    }
}

proof fn lemma_strs_front(s: Seq<Seq<char>>)
    requires
        s.len() > 0,
    ensures
        enc_strs(s) == enc_str(s[0]) + enc_strs(s.skip(1)),
    decreases s.len(),
{
    if s.len() > 1 {
        lemma_strs_front(s.drop_last());
        assert(s.drop_last().skip(1) =~= s.skip(1).drop_last());
        octets::lemma_join(enc_str(s[0]), enc_strs(s.skip(1).drop_last()), enc_str(s.last()));
    } else {
        assert(s.drop_last() =~= Seq::empty());
        assert(s.skip(1) =~= Seq::empty());
        assert(Seq::<u8>::empty() + enc_str(s[0]) =~= enc_str(s[0]) + Seq::<u8>::empty());
    }
}

proof fn lemma_strs_len(s: Seq<Seq<char>>)
    ensures
        enc_strs(s).len() >= s.len(),
    decreases s.len(),
{
    if s.len() > 0 {
        lemma_strs_len(s.drop_last());
        lemma_str_len(s.last());
    }
}

proof fn lemma_strs(s: Seq<Seq<char>>, tail: Seq<u8>)
    requires
        forall|i: int| 0 <= i < s.len() ==> fits(#[trigger] s[i]),
    ensures
        strs(s.len(), input(enc_strs(s) + tail, 0)) == Ok::<(Seq<Seq<char>>, Input), Fault>((s, input(tail, 0))),
    decreases s.len(),
{
    if s.len() > 0 {
        let rest = s.skip(1);
        lemma_strs_front(s);
        octets::lemma_join(enc_str(s[0]), enc_strs(rest), tail);
        law_str(s[0], enc_strs(rest) + tail, 0);
        assert forall|i: int| 0 <= i < rest.len() implies fits(#[trigger] rest[i]) by {
            assert(rest[i] == s[i + 1]);
        }
        lemma_strs(rest, tail);
        assert(seq![s[0]] + rest =~= s);
    } else {
        assert(enc_strs(s) + tail =~= tail);
        assert(s =~= Seq::empty());
    }
}

proof fn lemma_str_list(s: Seq<Seq<char>>, tail: Seq<u8>)
    requires
        all_fit(s),
    ensures
        str_list(input(enc_str_list(s) + tail, 0)) == Ok::<(Seq<Seq<char>>, Input), Fault>((s, input(tail, 0))),
{
    octets::lemma_join(enc_array(count32(s.len())), enc_strs(s), tail);
    lemma_strs_len(s);
    law_array(s.len(), enc_strs(s) + tail, 0);
    lemma_strs(s, tail);
}

pub open spec fn record_fits(r: RecordOutView) -> bool {
    fits(r.name) && fits(r.text) && r.data.len() <= u32::MAX
}

proof fn lemma_record(r: RecordOutView, tail: Seq<u8>)
    requires
        record_fits(r),
    ensures
        map_of::<RecordOut>(Seq::empty(), no_record(), input(enc_record(r) + tail, 0))
            matches Ok((v, _, i)) && v == r && i == input(
            tail,
            0,
        ),
{
    lemma_record_names();
    let s5 = tail;
    let s4 = field("text"@, enc_str(r.text)) + s5;
    let s3 = field("data"@, enc_bin(r.data)) + s4;
    let s2 = field("ttl"@, enc_uint(r.ttl as nat)) + s3;
    let s1 = field("type"@, enc_uint(r.rtype as nat)) + s2;
    let s0 = field("name"@, enc_str(r.name)) + s1;
    assert(enc_record(r) + tail == enc_map(5) + s0) by {
        broadcast use octets::lemma_join;

    }
    assert(s0.len() >= 10) by {
        lemma_str_len(r.name);
        lemma_field_len("name"@, enc_str(r.name));
        lemma_uint_len(r.rtype as nat);
        lemma_field_len("type"@, enc_uint(r.rtype as nat));
        lemma_uint_len(r.ttl as nat);
        lemma_field_len("ttl"@, enc_uint(r.ttl as nat));
        lemma_bin_len(r.data);
        lemma_field_len("data"@, enc_bin(r.data));
        lemma_str_len(r.text);
        lemma_field_len("text"@, enc_str(r.text));
    }
    law_map(5, s0, 0);
    let v0 = no_record();
    let seen0 = Seq::<Seq<char>>::empty();
    let v1 = RecordOutView { name: r.name, ..v0 };
    assert(RecordOut::step(v0, "name"@, input(enc_str(r.name) + s1, 0))
        == Ok::<(RecordOutView, Input), Fault>((v1, input(s1, 0)))) by {
        reveal(record_step);
        law_str(r.name, s1, 0);
    }
    lemma_field::<RecordOut>(5, seen0, v0, "name"@, enc_str(r.name), s1, v1);
    let seen1 = seen0.push("name"@);
    let v2 = RecordOutView { rtype: r.rtype, ..v1 };
    assert(RecordOut::step(v1, "type"@, input(enc_uint(r.rtype as nat) + s2, 0))
        == Ok::<(RecordOutView, Input), Fault>((v2, input(s2, 0)))) by {
        reveal(record_step);
        law_uint(r.rtype as u64, s2, 0);
    }
    lemma_field::<RecordOut>(4, seen1, v1, "type"@, enc_uint(r.rtype as nat), s2, v2);
    let seen2 = seen1.push("type"@);
    let v3 = RecordOutView { ttl: r.ttl, ..v2 };
    assert(RecordOut::step(v2, "ttl"@, input(enc_uint(r.ttl as nat) + s3, 0))
        == Ok::<(RecordOutView, Input), Fault>((v3, input(s3, 0)))) by {
        reveal(record_step);
        law_uint(r.ttl as u64, s3, 0);
    }
    lemma_field::<RecordOut>(3, seen2, v2, "ttl"@, enc_uint(r.ttl as nat), s3, v3);
    let seen3 = seen2.push("ttl"@);
    let v4 = RecordOutView { data: r.data, ..v3 };
    assert(RecordOut::step(v3, "data"@, input(enc_bin(r.data) + s4, 0))
        == Ok::<(RecordOutView, Input), Fault>((v4, input(s4, 0)))) by {
        reveal(record_step);
        law_bin(r.data, s4, 0);
    }
    lemma_field::<RecordOut>(2, seen3, v3, "data"@, enc_bin(r.data), s4, v4);
    let seen4 = seen3.push("data"@);
    let v5 = RecordOutView { text: r.text, ..v4 };
    assert(RecordOut::step(v4, "text"@, input(enc_str(r.text) + s5, 0))
        == Ok::<(RecordOutView, Input), Fault>((v5, input(s5, 0)))) by {
        reveal(record_step);
        law_str(r.text, s5, 0);
    }
    lemma_field::<RecordOut>(1, seen4, v4, "text"@, enc_str(r.text), s5, v5);
    let seen5 = seen4.push("text"@);
}

proof fn lemma_records_front(s: Seq<RecordOutView>)
    requires
        s.len() > 0,
    ensures
        enc_records(s) == enc_record(s[0]) + enc_records(s.skip(1)),
    decreases s.len(),
{
    if s.len() > 1 {
        lemma_records_front(s.drop_last());
        assert(s.drop_last().skip(1) =~= s.skip(1).drop_last());
        octets::lemma_join(enc_record(s[0]), enc_records(s.skip(1).drop_last()), enc_record(s.last()));
    } else {
        assert(s.drop_last() =~= Seq::empty());
        assert(s.skip(1) =~= Seq::empty());
        assert(Seq::<u8>::empty() + enc_record(s[0]) =~= enc_record(s[0]) + Seq::<u8>::empty());
    }
}

proof fn lemma_records_len(s: Seq<RecordOutView>)
    ensures
        enc_records(s).len() >= s.len(),
    decreases s.len(),
{
    if s.len() > 0 {
        lemma_records_len(s.drop_last());
        reveal(enc_map);
    }
}

proof fn lemma_records(s: Seq<RecordOutView>, tail: Seq<u8>)
    requires
        forall|i: int| 0 <= i < s.len() ==> record_fits(#[trigger] s[i]),
    ensures
        maps::<RecordOut>(s.len(), input(enc_records(s) + tail, 0)) == Ok::<(Seq<RecordOutView>, Input), Fault>(
            (s, input(tail, 0)),
        ),
    decreases s.len(),
{
    if s.len() > 0 {
        let rest = s.skip(1);
        lemma_records_front(s);
        octets::lemma_join(enc_record(s[0]), enc_records(rest), tail);
        lemma_record(s[0], enc_records(rest) + tail);
        assert forall|i: int| 0 <= i < rest.len() implies record_fits(#[trigger] rest[i]) by {
            assert(rest[i] == s[i + 1]);
        }
        lemma_records(rest, tail);
        assert(seq![s[0]] + rest =~= s);
    } else {
        assert(enc_records(s) + tail =~= tail);
        assert(s =~= Seq::empty());
    }
}

proof fn lemma_record_list(s: Seq<RecordOutView>, tail: Seq<u8>)
    requires
        s.len() <= u32::MAX,
        forall|i: int| 0 <= i < s.len() ==> record_fits(#[trigger] s[i]),
    ensures
        array_of::<RecordOut>(input(enc_array(count32(s.len())) + enc_records(s) + tail, 0)) == Ok::<
            (Seq<RecordOutView>, Input),
            Fault,
        >((s, input(tail, 0))),
{
    octets::lemma_join(enc_array(count32(s.len())), enc_records(s), tail);
    lemma_records_len(s);
    law_array(s.len(), enc_records(s) + tail, 0);
    lemma_records(s, tail);
}

pub open spec fn scope_fits(s: ScopeStatusView) -> bool {
    fits(s.interface) && all_fit(s.servers) && all_fit(s.domains) && all_fit(s.subnets) && all_fit(s.demoted)
}

proof fn lemma_scope(s: ScopeStatusView, tail: Seq<u8>)
    requires
        scope_fits(s),
    ensures
        map_of::<ScopeStatus>(Seq::empty(), no_scope(), input(enc_scope(s) + tail, 0))
            matches Ok((v, _, i)) && v == s && i == input(
            tail,
            0,
        ),
{
    lemma_scope_names();
    let s8 = tail;
    let s7 = field("demoted"@, enc_str_list(s.demoted)) + s8;
    let s6 = field("subnets"@, enc_str_list(s.subnets)) + s7;
    let s5 = field("metric"@, enc_uint(s.metric as nat)) + s6;
    let s4 = field("exclusive"@, enc_bool(s.exclusive)) + s5;
    let s3 = field("default_route"@, enc_bool(s.default_route)) + s4;
    let s2 = field("domains"@, enc_str_list(s.domains)) + s3;
    let s1 = field("servers"@, enc_str_list(s.servers)) + s2;
    let s0 = field("interface"@, enc_str(s.interface)) + s1;
    assert(enc_scope(s) + tail == enc_map(8) + s0) by {
        broadcast use octets::lemma_join;

    }
    assert(s0.len() >= 16) by {
        lemma_str_len(s.interface);
        lemma_field_len("interface"@, enc_str(s.interface));
        lemma_array_len(s.servers.len(), enc_strs(s.servers));
        lemma_field_len("servers"@, enc_str_list(s.servers));
        lemma_array_len(s.domains.len(), enc_strs(s.domains));
        lemma_field_len("domains"@, enc_str_list(s.domains));
        lemma_bool_len(s.default_route);
        lemma_field_len("default_route"@, enc_bool(s.default_route));
        lemma_bool_len(s.exclusive);
        lemma_field_len("exclusive"@, enc_bool(s.exclusive));
        lemma_uint_len(s.metric as nat);
        lemma_field_len("metric"@, enc_uint(s.metric as nat));
        lemma_array_len(s.subnets.len(), enc_strs(s.subnets));
        lemma_field_len("subnets"@, enc_str_list(s.subnets));
        lemma_array_len(s.demoted.len(), enc_strs(s.demoted));
        lemma_field_len("demoted"@, enc_str_list(s.demoted));
    }
    law_map(8, s0, 0);
    let v0 = no_scope();
    let seen0 = Seq::<Seq<char>>::empty();
    let v1 = ScopeStatusView { interface: s.interface, ..v0 };
    assert(ScopeStatus::step(v0, "interface"@, input(enc_str(s.interface) + s1, 0))
        == Ok::<(ScopeStatusView, Input), Fault>((v1, input(s1, 0)))) by {
        reveal(scope_step);
        law_str(s.interface, s1, 0);
    }
    lemma_field::<ScopeStatus>(8, seen0, v0, "interface"@, enc_str(s.interface), s1, v1);
    let seen1 = seen0.push("interface"@);
    let v2 = ScopeStatusView { servers: s.servers, ..v1 };
    assert(ScopeStatus::step(v1, "servers"@, input(enc_str_list(s.servers) + s2, 0))
        == Ok::<(ScopeStatusView, Input), Fault>((v2, input(s2, 0)))) by {
        reveal(scope_step);
        lemma_str_list(s.servers, s2);
    }
    lemma_field::<ScopeStatus>(7, seen1, v1, "servers"@, enc_str_list(s.servers), s2, v2);
    let seen2 = seen1.push("servers"@);
    let v3 = ScopeStatusView { domains: s.domains, ..v2 };
    assert(ScopeStatus::step(v2, "domains"@, input(enc_str_list(s.domains) + s3, 0))
        == Ok::<(ScopeStatusView, Input), Fault>((v3, input(s3, 0)))) by {
        reveal(scope_step);
        lemma_str_list(s.domains, s3);
    }
    lemma_field::<ScopeStatus>(6, seen2, v2, "domains"@, enc_str_list(s.domains), s3, v3);
    let seen3 = seen2.push("domains"@);
    let v4 = ScopeStatusView { default_route: s.default_route, ..v3 };
    assert(ScopeStatus::step(v3, "default_route"@, input(enc_bool(s.default_route) + s4, 0))
        == Ok::<(ScopeStatusView, Input), Fault>((v4, input(s4, 0)))) by {
        reveal(scope_step);
        law_bool(s.default_route, s4, 0);
    }
    lemma_field::<ScopeStatus>(5, seen3, v3, "default_route"@, enc_bool(s.default_route), s4, v4);
    let seen4 = seen3.push("default_route"@);
    let v5 = ScopeStatusView { exclusive: s.exclusive, ..v4 };
    assert(ScopeStatus::step(v4, "exclusive"@, input(enc_bool(s.exclusive) + s5, 0))
        == Ok::<(ScopeStatusView, Input), Fault>((v5, input(s5, 0)))) by {
        reveal(scope_step);
        law_bool(s.exclusive, s5, 0);
    }
    lemma_field::<ScopeStatus>(4, seen4, v4, "exclusive"@, enc_bool(s.exclusive), s5, v5);
    let seen5 = seen4.push("exclusive"@);
    let v6 = ScopeStatusView { metric: s.metric, ..v5 };
    assert(ScopeStatus::step(v5, "metric"@, input(enc_uint(s.metric as nat) + s6, 0))
        == Ok::<(ScopeStatusView, Input), Fault>((v6, input(s6, 0)))) by {
        reveal(scope_step);
        law_uint(s.metric as u64, s6, 0);
    }
    lemma_field::<ScopeStatus>(3, seen5, v5, "metric"@, enc_uint(s.metric as nat), s6, v6);
    let seen6 = seen5.push("metric"@);
    let v7 = ScopeStatusView { subnets: s.subnets, ..v6 };
    assert(ScopeStatus::step(v6, "subnets"@, input(enc_str_list(s.subnets) + s7, 0))
        == Ok::<(ScopeStatusView, Input), Fault>((v7, input(s7, 0)))) by {
        reveal(scope_step);
        lemma_str_list(s.subnets, s7);
    }
    lemma_field::<ScopeStatus>(2, seen6, v6, "subnets"@, enc_str_list(s.subnets), s7, v7);
    let seen7 = seen6.push("subnets"@);
    let v8 = ScopeStatusView { demoted: s.demoted, ..v7 };
    assert(ScopeStatus::step(v7, "demoted"@, input(enc_str_list(s.demoted) + s8, 0))
        == Ok::<(ScopeStatusView, Input), Fault>((v8, input(s8, 0)))) by {
        reveal(scope_step);
        lemma_str_list(s.demoted, s8);
    }
    lemma_field::<ScopeStatus>(1, seen7, v7, "demoted"@, enc_str_list(s.demoted), s8, v8);
    let seen8 = seen7.push("demoted"@);
}

proof fn lemma_scopes_front(s: Seq<ScopeStatusView>)
    requires
        s.len() > 0,
    ensures
        enc_scopes(s) == enc_scope(s[0]) + enc_scopes(s.skip(1)),
    decreases s.len(),
{
    if s.len() > 1 {
        lemma_scopes_front(s.drop_last());
        assert(s.drop_last().skip(1) =~= s.skip(1).drop_last());
        octets::lemma_join(enc_scope(s[0]), enc_scopes(s.skip(1).drop_last()), enc_scope(s.last()));
    } else {
        assert(s.drop_last() =~= Seq::empty());
        assert(s.skip(1) =~= Seq::empty());
        assert(Seq::<u8>::empty() + enc_scope(s[0]) =~= enc_scope(s[0]) + Seq::<u8>::empty());
    }
}

proof fn lemma_scopes_len(s: Seq<ScopeStatusView>)
    ensures
        enc_scopes(s).len() >= s.len(),
    decreases s.len(),
{
    if s.len() > 0 {
        lemma_scopes_len(s.drop_last());
        reveal(enc_map);
    }
}

proof fn lemma_scopes(s: Seq<ScopeStatusView>, tail: Seq<u8>)
    requires
        forall|i: int| 0 <= i < s.len() ==> scope_fits(#[trigger] s[i]),
    ensures
        maps::<ScopeStatus>(s.len(), input(enc_scopes(s) + tail, 0)) == Ok::<(Seq<ScopeStatusView>, Input), Fault>(
            (s, input(tail, 0)),
        ),
    decreases s.len(),
{
    if s.len() > 0 {
        let rest = s.skip(1);
        lemma_scopes_front(s);
        octets::lemma_join(enc_scope(s[0]), enc_scopes(rest), tail);
        lemma_scope(s[0], enc_scopes(rest) + tail);
        assert forall|i: int| 0 <= i < rest.len() implies scope_fits(#[trigger] rest[i]) by {
            assert(rest[i] == s[i + 1]);
        }
        lemma_scopes(rest, tail);
        assert(seq![s[0]] + rest =~= s);
    } else {
        assert(enc_scopes(s) + tail =~= tail);
        assert(s =~= Seq::empty());
    }
}

proof fn lemma_scope_list(s: Seq<ScopeStatusView>, tail: Seq<u8>)
    requires
        s.len() <= u32::MAX,
        forall|i: int| 0 <= i < s.len() ==> scope_fits(#[trigger] s[i]),
    ensures
        array_of::<ScopeStatus>(input(enc_array(count32(s.len())) + enc_scopes(s) + tail, 0)) == Ok::<
            (Seq<ScopeStatusView>, Input),
            Fault,
        >((s, input(tail, 0))),
{
    octets::lemma_join(enc_array(count32(s.len())), enc_scopes(s), tail);
    lemma_scopes_len(s);
    law_array(s.len(), enc_scopes(s) + tail, 0);
    lemma_scopes(s, tail);
}

proof fn lemma_counters(c: Counters, tail: Seq<u8>)
    ensures
        map_of::<Counters>(Seq::empty(), no_counts(), input(enc_counters(c) + tail, 0))
            matches Ok((v, _, i)) && v == c && i == input(
            tail,
            0,
        ),
{
    lemma_counter_names();
    let s7 = tail;
    let s6 = field("refused"@, enc_uint(c.refused as nat)) + s7;
    let s5 = field("upstream_failed"@, enc_uint(c.upstream_failed as nat)) + s6;
    let s4 = field("upstream_answered"@, enc_uint(c.upstream_answered as nat)) + s5;
    let s3 = field("upstream_sent"@, enc_uint(c.upstream_sent as nat)) + s4;
    let s2 = field("cache_hits"@, enc_uint(c.cache_hits as nat)) + s3;
    let s1 = field("synthetic"@, enc_uint(c.synthetic as nat)) + s2;
    let s0 = field("queries"@, enc_uint(c.queries as nat)) + s1;
    assert(enc_counters(c) + tail == enc_map(7) + s0) by {
        broadcast use octets::lemma_join;

    }
    assert(s0.len() >= 14) by {
        lemma_uint_len(c.queries as nat);
        lemma_field_len("queries"@, enc_uint(c.queries as nat));
        lemma_uint_len(c.synthetic as nat);
        lemma_field_len("synthetic"@, enc_uint(c.synthetic as nat));
        lemma_uint_len(c.cache_hits as nat);
        lemma_field_len("cache_hits"@, enc_uint(c.cache_hits as nat));
        lemma_uint_len(c.upstream_sent as nat);
        lemma_field_len("upstream_sent"@, enc_uint(c.upstream_sent as nat));
        lemma_uint_len(c.upstream_answered as nat);
        lemma_field_len("upstream_answered"@, enc_uint(c.upstream_answered as nat));
        lemma_uint_len(c.upstream_failed as nat);
        lemma_field_len("upstream_failed"@, enc_uint(c.upstream_failed as nat));
        lemma_uint_len(c.refused as nat);
        lemma_field_len("refused"@, enc_uint(c.refused as nat));
    }
    law_map(7, s0, 0);
    let v0 = no_counts();
    let seen0 = Seq::<Seq<char>>::empty();
    let v1 = Counters { queries: c.queries, ..v0 };
    assert(Counters::step(v0, "queries"@, input(enc_uint(c.queries as nat) + s1, 0))
        == Ok::<(Counters, Input), Fault>((v1, input(s1, 0)))) by {
        reveal(count_step);
        law_uint(c.queries as u64, s1, 0);
    }
    lemma_field::<Counters>(7, seen0, v0, "queries"@, enc_uint(c.queries as nat), s1, v1);
    let seen1 = seen0.push("queries"@);
    let v2 = Counters { synthetic: c.synthetic, ..v1 };
    assert(Counters::step(v1, "synthetic"@, input(enc_uint(c.synthetic as nat) + s2, 0))
        == Ok::<(Counters, Input), Fault>((v2, input(s2, 0)))) by {
        reveal(count_step);
        law_uint(c.synthetic as u64, s2, 0);
    }
    lemma_field::<Counters>(6, seen1, v1, "synthetic"@, enc_uint(c.synthetic as nat), s2, v2);
    let seen2 = seen1.push("synthetic"@);
    let v3 = Counters { cache_hits: c.cache_hits, ..v2 };
    assert(Counters::step(v2, "cache_hits"@, input(enc_uint(c.cache_hits as nat) + s3, 0))
        == Ok::<(Counters, Input), Fault>((v3, input(s3, 0)))) by {
        reveal(count_step);
        law_uint(c.cache_hits as u64, s3, 0);
    }
    lemma_field::<Counters>(5, seen2, v2, "cache_hits"@, enc_uint(c.cache_hits as nat), s3, v3);
    let seen3 = seen2.push("cache_hits"@);
    let v4 = Counters { upstream_sent: c.upstream_sent, ..v3 };
    assert(Counters::step(v3, "upstream_sent"@, input(enc_uint(c.upstream_sent as nat) + s4, 0))
        == Ok::<(Counters, Input), Fault>((v4, input(s4, 0)))) by {
        reveal(count_step);
        law_uint(c.upstream_sent as u64, s4, 0);
    }
    lemma_field::<Counters>(4, seen3, v3, "upstream_sent"@, enc_uint(c.upstream_sent as nat), s4, v4);
    let seen4 = seen3.push("upstream_sent"@);
    let v5 = Counters { upstream_answered: c.upstream_answered, ..v4 };
    assert(Counters::step(v4, "upstream_answered"@, input(enc_uint(c.upstream_answered as nat) + s5, 0))
        == Ok::<(Counters, Input), Fault>((v5, input(s5, 0)))) by {
        reveal(count_step);
        law_uint(c.upstream_answered as u64, s5, 0);
    }
    lemma_field::<Counters>(3, seen4, v4, "upstream_answered"@, enc_uint(c.upstream_answered as nat), s5, v5);
    let seen5 = seen4.push("upstream_answered"@);
    let v6 = Counters { upstream_failed: c.upstream_failed, ..v5 };
    assert(Counters::step(v5, "upstream_failed"@, input(enc_uint(c.upstream_failed as nat) + s6, 0))
        == Ok::<(Counters, Input), Fault>((v6, input(s6, 0)))) by {
        reveal(count_step);
        law_uint(c.upstream_failed as u64, s6, 0);
    }
    lemma_field::<Counters>(2, seen5, v5, "upstream_failed"@, enc_uint(c.upstream_failed as nat), s6, v6);
    let seen6 = seen5.push("upstream_failed"@);
    let v7 = Counters { refused: c.refused, ..v6 };
    assert(Counters::step(v6, "refused"@, input(enc_uint(c.refused as nat) + s7, 0))
        == Ok::<(Counters, Input), Fault>((v7, input(s7, 0)))) by {
        reveal(count_step);
        law_uint(c.refused as u64, s7, 0);
    }
    lemma_field::<Counters>(1, seen6, v6, "refused"@, enc_uint(c.refused as nat), s7, v7);
    let seen7 = seen6.push("refused"@);
}

proof fn lemma_counters_len(c: Counters)
    ensures
        enc_counters(c).len() >= 1,
{
    reveal(enc_map);
}

pub open spec fn address_fits(a: AddressOutView) -> bool {
    a.address.len() == 4 || a.address.len() == 16
}

spec fn given(a: AddressOutView) -> AddressFieldsView {
    AddressFieldsView { address: Some(a.address), ttl: a.ttl }
}

proof fn lemma_address(a: AddressOutView, tail: Seq<u8>)
    requires
        address_fits(a),
    ensures
        map_of::<AddressFields>(Seq::empty(), (AddressFieldsView { address: None, ttl: 0 }), input(enc_address(a) + tail, 0))
            matches Ok((v, _, i)) && v == given(a) && i == input(
            tail,
            0,
        ),
{
    lemma_address_names();
    let s2 = tail;
    let s1 = field("ttl"@, enc_uint(a.ttl as nat)) + s2;
    let s0 = field("address"@, enc_ip(a.address)) + s1;
    assert(enc_address(a) + tail == enc_map(2) + s0) by {
        broadcast use octets::lemma_join;

    }
    assert(s0.len() >= 4) by {
        lemma_str_len(text::chars(ip_text(a.address)));
        lemma_field_len("address"@, enc_ip(a.address));
        lemma_uint_len(a.ttl as nat);
        lemma_field_len("ttl"@, enc_uint(a.ttl as nat));
    }
    law_map(2, s0, 0);
    let v0 = (AddressFieldsView { address: None, ttl: 0 });
    let seen0 = Seq::<Seq<char>>::empty();
    let v1 = AddressFieldsView { address: Some(a.address), ..v0 };
    assert(AddressFields::step(v0, "address"@, input(enc_ip(a.address) + s1, 0))
        == Ok::<(AddressFieldsView, Input), Fault>((v1, input(s1, 0)))) by {
        reveal(address_step);
        lemma_ip_text(a.address);
        law_str(text::chars(ip_text(a.address)), s1, 0);
    }
    lemma_field::<AddressFields>(2, seen0, v0, "address"@, enc_ip(a.address), s1, v1);
    let seen1 = seen0.push("address"@);
    let v2 = AddressFieldsView { ttl: a.ttl, ..v1 };
    assert(AddressFields::step(v1, "ttl"@, input(enc_uint(a.ttl as nat) + s2, 0))
        == Ok::<(AddressFieldsView, Input), Fault>((v2, input(s2, 0)))) by {
        reveal(address_step);
        law_uint(a.ttl as u64, s2, 0);
    }
    lemma_field::<AddressFields>(1, seen1, v1, "ttl"@, enc_uint(a.ttl as nat), s2, v2);
    let seen2 = seen1.push("ttl"@);
}

proof fn lemma_kept(s: Seq<AddressOutView>)
    ensures
        kept(s.map_values(|a: AddressOutView| given(a))) == s,
    decreases s.len(),
{
    let m = s.map_values(|a: AddressOutView| given(a));
    if s.len() > 0 {
        lemma_kept(s.drop_last());
        assert(m.drop_last() =~= s.drop_last().map_values(|a: AddressOutView| given(a)));
        assert(s.drop_last().push(s.last()) =~= s);
    } else {
        assert(s =~= Seq::empty());
    }
}

proof fn lemma_addresses_front(s: Seq<AddressOutView>)
    requires
        s.len() > 0,
    ensures
        enc_address_list(s) == enc_address(s[0]) + enc_address_list(s.skip(1)),
    decreases s.len(),
{
    if s.len() > 1 {
        lemma_addresses_front(s.drop_last());
        assert(s.drop_last().skip(1) =~= s.skip(1).drop_last());
        octets::lemma_join(enc_address(s[0]), enc_address_list(s.skip(1).drop_last()), enc_address(s.last()));
    } else {
        assert(s.drop_last() =~= Seq::empty());
        assert(s.skip(1) =~= Seq::empty());
        assert(Seq::<u8>::empty() + enc_address(s[0]) =~= enc_address(s[0]) + Seq::<u8>::empty());
    }
}

proof fn lemma_addresses_len(s: Seq<AddressOutView>)
    ensures
        enc_address_list(s).len() >= s.len(),
    decreases s.len(),
{
    if s.len() > 0 {
        lemma_addresses_len(s.drop_last());
        reveal(enc_map);
    }
}

proof fn lemma_addresses(s: Seq<AddressOutView>, tail: Seq<u8>)
    requires
        forall|i: int| 0 <= i < s.len() ==> address_fits(#[trigger] s[i]),
    ensures
        maps::<AddressFields>(s.len(), input(enc_address_list(s) + tail, 0)) == Ok::<
            (Seq<AddressFieldsView>, Input),
            Fault,
        >((s.map_values(|a: AddressOutView| given(a)), input(tail, 0))),
    decreases s.len(),
{
    if s.len() > 0 {
        let rest = s.skip(1);
        lemma_addresses_front(s);
        octets::lemma_join(enc_address(s[0]), enc_address_list(rest), tail);
        lemma_address(s[0], enc_address_list(rest) + tail);
        assert forall|i: int| 0 <= i < rest.len() implies address_fits(#[trigger] rest[i]) by {
            assert(rest[i] == s[i + 1]);
        }
        lemma_addresses(rest, tail);
        assert(seq![given(s[0])] + rest.map_values(|a: AddressOutView| given(a)) =~= s.map_values(
            |a: AddressOutView| given(a),
        ));
    } else {
        assert(enc_address_list(s) + tail =~= tail);
        assert(s.map_values(|a: AddressOutView| given(a)) =~= Seq::empty());
    }
}

proof fn lemma_address_list(s: Seq<AddressOutView>, tail: Seq<u8>)
    requires
        s.len() <= u32::MAX,
        forall|i: int| 0 <= i < s.len() ==> address_fits(#[trigger] s[i]),
    ensures
        array_of::<AddressFields>(
            input(enc_array(count32(s.len())) + enc_address_list(s) + tail, 0),
        ) matches Ok((x, i)) && kept(x) == s && i == input(tail, 0),
{
    lemma_kept(s);
    octets::lemma_join(enc_array(count32(s.len())), enc_address_list(s), tail);
    lemma_addresses_len(s);
    law_array(s.len(), enc_address_list(s) + tail, 0);
    lemma_addresses(s, tail);
}

pub open spec fn answer_fits(a: AnswerView) -> bool {
    &&& a.records.len() <= u32::MAX
    &&& forall|i: int| 0 <= i < a.records.len() ==> record_fits(#[trigger] a.records[i])
    &&& fits(a.source)
    &&& opt_fits(a.server)
    &&& opt_fits(a.interface)
}

pub open spec fn addresses_fit(a: AddressesView) -> bool {
    &&& a.addresses.len() <= u32::MAX
    &&& forall|i: int| 0 <= i < a.addresses.len() ==> address_fits(#[trigger] a.addresses[i])
    &&& fits(a.canonical)
    &&& fits(a.source)
}

pub open spec fn status_fits(s: StatusReportView) -> bool {
    &&& s.scopes.len() <= u32::MAX
    &&& forall|i: int| 0 <= i < s.scopes.len() ==> scope_fits(#[trigger] s.scopes[i])
    &&& fits(s.hostname)
    &&& all_fit(s.fallback_servers)
}

/// What a reply must be so that every length in it can be written.
pub open spec fn reply_fits(r: ReplyView) -> bool {
    match r {
        ReplyView::Okay => true,
        ReplyView::Error(m) => fits(m),
        ReplyView::Answer(a) => answer_fits(a),
        ReplyView::Addresses(a) => addresses_fit(a),
        ReplyView::Status(s) => status_fits(s),
    }
}

proof fn lemma_words_fit()
    ensures
        forall|o: Outcome| fits(#[trigger] o.text()),
        forall|v: Validation| fits(#[trigger] v.text()),
{
    reveal_strlit("found");
    assert("found"@.len() == 5);
    lemma_utf8_len("found"@);
    reveal_strlit("notfound");
    assert("notfound"@.len() == 8);
    lemma_utf8_len("notfound"@);
    reveal_strlit("unavailable");
    assert("unavailable"@.len() == 11);
    lemma_utf8_len("unavailable"@);
    reveal_strlit("unvalidated");
    assert("unvalidated"@.len() == 11);
    lemma_utf8_len("unvalidated"@);
    reveal_strlit("secure");
    assert("secure"@.len() == 6);
    lemma_utf8_len("secure"@);
    reveal_strlit("insecure");
    assert("insecure"@.len() == 8);
    lemma_utf8_len("insecure"@);
    reveal_strlit("bogus");
    assert("bogus"@.len() == 5);
    lemma_utf8_len("bogus"@);
}

proof fn lemma_step_ok(x: bool, v: ReplyFieldsView, tail: Seq<u8>)
    ensures
        ReplyFields::step(v, "ok"@, input(enc_bool(x) + tail, 0)) == Ok::<(ReplyFieldsView, Input), Fault>(
            (ReplyFieldsView { ok: Some(x), ..v }, input(tail, 0)),
        ),
{
    reveal(reply_step);
    reveal(answer_step);
    lemma_reply_names();
    law_bool(x, tail, 0);
}

proof fn lemma_step_error(x: Seq<char>, v: ReplyFieldsView, tail: Seq<u8>)
    requires
        fits(x),
    ensures
        ReplyFields::step(v, "error"@, input(enc_str(x) + tail, 0)) == Ok::<(ReplyFieldsView, Input), Fault>(
            (ReplyFieldsView { error: Some(x), ..v }, input(tail, 0)),
        ),
{
    reveal(reply_step);
    reveal(answer_step);
    lemma_reply_names();
    law_str(x, tail, 0);
}

proof fn lemma_step_kind(x: Seq<char>, v: ReplyFieldsView, tail: Seq<u8>)
    requires
        fits(x),
    ensures
        ReplyFields::step(v, "kind"@, input(enc_str(x) + tail, 0)) == Ok::<(ReplyFieldsView, Input), Fault>(
            (ReplyFieldsView { kind: Some(x), ..v }, input(tail, 0)),
        ),
{
    reveal(reply_step);
    reveal(answer_step);
    lemma_reply_names();
    law_str(x, tail, 0);
}

proof fn lemma_step_outcome(x: Outcome, v: ReplyFieldsView, tail: Seq<u8>)
    ensures
        ReplyFields::step(v, "outcome"@, input(enc_str(x.text()) + tail, 0)) == Ok::<(ReplyFieldsView, Input), Fault>(
            (
                ReplyFieldsView {
                    answer: AnswerView { outcome: x, ..v.answer },
                    addresses: AddressesView { outcome: x, ..v.addresses },
                    ..v
                },
                input(tail, 0),
            ),
        ),
{
    reveal(reply_step);
    reveal(answer_step);
    lemma_reply_names();
    lemma_words_fit();
    x.law_text();
    law_str(x.text(), tail, 0);
}

proof fn lemma_step_validation(x: Validation, v: ReplyFieldsView, tail: Seq<u8>)
    ensures
        ReplyFields::step(v, "validation"@, input(enc_str(x.text()) + tail, 0))
            == Ok::<(ReplyFieldsView, Input), Fault>(
            (
                ReplyFieldsView {
                    answer: AnswerView { validation: x, ..v.answer },
                    addresses: AddressesView { validation: x, ..v.addresses },
                    ..v
                },
                input(tail, 0),
            ),
        ),
{
    reveal(reply_step);
    reveal(answer_step);
    lemma_reply_names();
    lemma_words_fit();
    x.law_text();
    law_str(x.text(), tail, 0);
}

proof fn lemma_step_source(x: Seq<char>, v: ReplyFieldsView, tail: Seq<u8>)
    requires
        fits(x),
    ensures
        ReplyFields::step(v, "source"@, input(enc_str(x) + tail, 0)) == Ok::<(ReplyFieldsView, Input), Fault>(
            (
                ReplyFieldsView {
                    answer: AnswerView { source: x, ..v.answer },
                    addresses: AddressesView { source: x, ..v.addresses },
                    ..v
                },
                input(tail, 0),
            ),
        ),
{
    reveal(reply_step);
    reveal(answer_step);
    lemma_reply_names();
    law_str(x, tail, 0);
}

proof fn lemma_step_server(x: Option<Seq<char>>, v: ReplyFieldsView, tail: Seq<u8>)
    requires
        opt_fits(x),
    ensures
        ReplyFields::step(v, "server"@, input(enc_opt_str(x) + tail, 0)) == Ok::<(ReplyFieldsView, Input), Fault>(
            (ReplyFieldsView { answer: AnswerView { server: x, ..v.answer }, ..v }, input(tail, 0)),
        ),
{
    reveal(reply_step);
    reveal(answer_step);
    lemma_reply_names();
    lemma_opt_str(x, tail);
}

proof fn lemma_step_interface(x: Option<Seq<char>>, v: ReplyFieldsView, tail: Seq<u8>)
    requires
        opt_fits(x),
    ensures
        ReplyFields::step(v, "interface"@, input(enc_opt_str(x) + tail, 0)) == Ok::<(ReplyFieldsView, Input), Fault>(
            (ReplyFieldsView { answer: AnswerView { interface: x, ..v.answer }, ..v }, input(tail, 0)),
        ),
{
    reveal(reply_step);
    reveal(answer_step);
    lemma_reply_names();
    lemma_opt_str(x, tail);
}

proof fn lemma_step_rcode(x: u16, v: ReplyFieldsView, tail: Seq<u8>)
    ensures
        ReplyFields::step(v, "rcode"@, input(enc_uint(x as nat) + tail, 0)) == Ok::<(ReplyFieldsView, Input), Fault>(
            (ReplyFieldsView { answer: AnswerView { rcode: x, ..v.answer }, ..v }, input(tail, 0)),
        ),
{
    reveal(reply_step);
    reveal(answer_step);
    lemma_reply_names();
    law_uint(x as u64, tail, 0);
}

proof fn lemma_step_records(x: Seq<RecordOutView>, v: ReplyFieldsView, tail: Seq<u8>)
    requires
        x.len() <= u32::MAX,
        forall|i: int| 0 <= i < x.len() ==> record_fits(#[trigger] x[i]),
    ensures
        ReplyFields::step(v, "records"@, input(enc_array(count32(x.len())) + enc_records(x) + tail, 0))
            == Ok::<(ReplyFieldsView, Input), Fault>(
            (ReplyFieldsView { answer: AnswerView { records: v.answer.records + x, ..v.answer }, ..v }, input(tail, 0)),
        ),
{
    reveal(reply_step);
    reveal(answer_step);
    lemma_reply_names();
    lemma_record_list(x, tail);
}

proof fn lemma_step_canonical(x: Seq<char>, v: ReplyFieldsView, tail: Seq<u8>)
    requires
        fits(x),
    ensures
        ReplyFields::step(v, "canonical"@, input(enc_str(x) + tail, 0)) == Ok::<(ReplyFieldsView, Input), Fault>(
            (ReplyFieldsView { addresses: AddressesView { canonical: x, ..v.addresses }, ..v }, input(tail, 0)),
        ),
{
    reveal(reply_step);
    reveal(answer_step);
    reveal(addresses_step);
    lemma_reply_names();
    law_str(x, tail, 0);
}

proof fn lemma_step_addresses(x: Seq<AddressOutView>, v: ReplyFieldsView, tail: Seq<u8>)
    requires
        x.len() <= u32::MAX,
        forall|i: int| 0 <= i < x.len() ==> address_fits(#[trigger] x[i]),
    ensures
        ReplyFields::step(v, "addresses"@, input(enc_array(count32(x.len())) + enc_address_list(x) + tail, 0))
            == Ok::<(ReplyFieldsView, Input), Fault>(
            (
                ReplyFieldsView {
                    addresses: AddressesView { addresses: v.addresses.addresses + x, ..v.addresses },
                    ..v
                },
                input(tail, 0),
            ),
        ),
{
    reveal(reply_step);
    reveal(answer_step);
    reveal(addresses_step);
    lemma_reply_names();
    lemma_address_list(x, tail);
}

proof fn lemma_step_hostname(x: Seq<char>, v: ReplyFieldsView, tail: Seq<u8>)
    requires
        fits(x),
    ensures
        ReplyFields::step(v, "hostname"@, input(enc_str(x) + tail, 0)) == Ok::<(ReplyFieldsView, Input), Fault>(
            (ReplyFieldsView { status: StatusReportView { hostname: x, ..v.status }, ..v }, input(tail, 0)),
        ),
{
    reveal(reply_step);
    reveal(answer_step);
    reveal(addresses_step);
    reveal(status_step);
    lemma_reply_names();
    law_str(x, tail, 0);
}

proof fn lemma_step_netd(x: bool, v: ReplyFieldsView, tail: Seq<u8>)
    ensures
        ReplyFields::step(v, "netd"@, input(enc_bool(x) + tail, 0)) == Ok::<(ReplyFieldsView, Input), Fault>(
            (ReplyFieldsView { status: StatusReportView { netd: x, ..v.status }, ..v }, input(tail, 0)),
        ),
{
    reveal(reply_step);
    reveal(answer_step);
    reveal(addresses_step);
    reveal(status_step);
    lemma_reply_names();
    law_bool(x, tail, 0);
}

proof fn lemma_step_fallback_servers(x: Seq<Seq<char>>, v: ReplyFieldsView, tail: Seq<u8>)
    requires
        all_fit(x),
    ensures
        ReplyFields::step(v, "fallback_servers"@, input(enc_str_list(x) + tail, 0))
            == Ok::<(ReplyFieldsView, Input), Fault>(
            (ReplyFieldsView { status: StatusReportView { fallback_servers: x, ..v.status }, ..v }, input(tail, 0)),
        ),
{
    reveal(reply_step);
    reveal(answer_step);
    reveal(addresses_step);
    reveal(status_step);
    lemma_reply_names();
    lemma_str_list(x, tail);
}

proof fn lemma_step_cache_entries(x: u64, v: ReplyFieldsView, tail: Seq<u8>)
    ensures
        ReplyFields::step(v, "cache_entries"@, input(enc_uint(x as nat) + tail, 0))
            == Ok::<(ReplyFieldsView, Input), Fault>(
            (ReplyFieldsView { status: StatusReportView { cache_entries: x, ..v.status }, ..v }, input(tail, 0)),
        ),
{
    reveal(reply_step);
    reveal(answer_step);
    reveal(addresses_step);
    reveal(status_step);
    lemma_reply_names();
    law_uint(x, tail, 0);
}

proof fn lemma_step_scopes(x: Seq<ScopeStatusView>, v: ReplyFieldsView, tail: Seq<u8>)
    requires
        x.len() <= u32::MAX,
        forall|i: int| 0 <= i < x.len() ==> scope_fits(#[trigger] x[i]),
    ensures
        ReplyFields::step(v, "scopes"@, input(enc_array(count32(x.len())) + enc_scopes(x) + tail, 0))
            == Ok::<(ReplyFieldsView, Input), Fault>(
            (ReplyFieldsView { status: StatusReportView { scopes: v.status.scopes + x, ..v.status }, ..v }, input(tail, 0)),
        ),
{
    reveal(reply_step);
    reveal(answer_step);
    reveal(addresses_step);
    reveal(status_step);
    lemma_reply_names();
    lemma_scope_list(x, tail);
}

proof fn lemma_step_counters(x: Counters, v: ReplyFieldsView, tail: Seq<u8>)
    requires
        v.status.counters == no_counts(),
    ensures
        ReplyFields::step(v, "counters"@, input(enc_counters(x) + tail, 0)) == Ok::<(ReplyFieldsView, Input), Fault>(
            (ReplyFieldsView { status: StatusReportView { counters: x, ..v.status }, ..v }, input(tail, 0)),
        ),
{
    reveal(reply_step);
    reveal(answer_step);
    reveal(addresses_step);
    reveal(status_step);
    lemma_reply_names();
    lemma_counters(x, tail);
}

proof fn lemma_ok()
    ensures
        dec_reply(enc_reply(ReplyView::Okay)) == Ok::<ReplyView, Fault>(ReplyView::Okay),
{
    lemma_reply_names();
    lemma_reply_kinds();
    let tail = Seq::<u8>::empty();
    let b = enc_reply(ReplyView::Okay);
    assert(b + tail =~= b);
    let s1 = tail;
    let s0 = field("ok"@, enc_bool(true)) + s1;
    assert(b + tail == enc_map(1) + s0) by {
        broadcast use octets::lemma_join;

    }
    assert(s0.len() >= 2) by {
        lemma_bool_len(true);
        lemma_field_len("ok"@, enc_bool(true));
    }
    law_map(1, s0, 0);
    let v0 = reply_start();
    let seen0 = Seq::<Seq<char>>::empty();
    let v1 = ReplyFieldsView { ok: Some(true), ..v0 };
    lemma_step_ok(true, v0, s1);
    lemma_field::<ReplyFields>(1, seen0, v0, "ok"@, enc_bool(true), s1, v1);
    let seen1 = seen0.push("ok"@);
}

proof fn lemma_error(m: Seq<char>)
    requires
        fits(m),
    ensures
        dec_reply(enc_reply(ReplyView::Error(m))) == Ok::<ReplyView, Fault>(ReplyView::Error(m)),
{
    lemma_reply_names();
    lemma_reply_kinds();
    let tail = Seq::<u8>::empty();
    let b = enc_reply(ReplyView::Error(m));
    assert(b + tail =~= b);
    let s2 = tail;
    let s1 = field("error"@, enc_str(m)) + s2;
    let s0 = field("ok"@, enc_bool(false)) + s1;
    assert(b + tail == enc_map(2) + s0) by {
        broadcast use octets::lemma_join;

    }
    assert(s0.len() >= 4) by {
        lemma_bool_len(false);
        lemma_field_len("ok"@, enc_bool(false));
        lemma_str_len(m);
        lemma_field_len("error"@, enc_str(m));
    }
    law_map(2, s0, 0);
    let v0 = reply_start();
    let seen0 = Seq::<Seq<char>>::empty();
    let v1 = ReplyFieldsView { ok: Some(false), ..v0 };
    lemma_step_ok(false, v0, s1);
    lemma_field::<ReplyFields>(2, seen0, v0, "ok"@, enc_bool(false), s1, v1);
    let seen1 = seen0.push("ok"@);
    let v2 = ReplyFieldsView { error: Some(m), ..v1 };
    lemma_step_error(m, v1, s2);
    lemma_field::<ReplyFields>(1, seen1, v1, "error"@, enc_str(m), s2, v2);
    let seen2 = seen1.push("error"@);
}

proof fn lemma_answer(a: AnswerView)
    requires
        answer_fits(a),
    ensures
        dec_reply(enc_reply(ReplyView::Answer(a))) == Ok::<ReplyView, Fault>(ReplyView::Answer(a)),
{
    lemma_reply_names();
    lemma_reply_kinds();
    assert(no_answer().records + a.records =~= a.records);
    let tail = Seq::<u8>::empty();
    let b = enc_reply(ReplyView::Answer(a));
    assert(b + tail =~= b);
    let s9 = tail;
    let s8 = field("rcode"@, enc_uint(a.rcode as nat)) + s9;
    let s7 = field("validation"@, enc_str(a.validation.text())) + s8;
    let s6 = field("interface"@, enc_opt_str(a.interface)) + s7;
    let s5 = field("server"@, enc_opt_str(a.server)) + s6;
    let s4 = field("source"@, enc_str(a.source)) + s5;
    let s3 = field("records"@, enc_array(count32(a.records.len())) + enc_records(a.records)) + s4;
    let s2 = field("outcome"@, enc_str(a.outcome.text())) + s3;
    let s1 = field("kind"@, enc_str("answer"@)) + s2;
    let s0 = field("ok"@, enc_bool(true)) + s1;
    assert(b + tail == enc_map(9) + s0) by {
        broadcast use octets::lemma_join;

    }
    assert(s0.len() >= 18) by {
        lemma_bool_len(true);
        lemma_field_len("ok"@, enc_bool(true));
        lemma_str_len("answer"@);
        lemma_field_len("kind"@, enc_str("answer"@));
        lemma_str_len(a.outcome.text());
        lemma_field_len("outcome"@, enc_str(a.outcome.text()));
        lemma_array_len(a.records.len(), enc_records(a.records));
        lemma_field_len("records"@, enc_array(count32(a.records.len())) + enc_records(a.records));
        lemma_str_len(a.source);
        lemma_field_len("source"@, enc_str(a.source));
        lemma_opt_len(a.server);
        lemma_field_len("server"@, enc_opt_str(a.server));
        lemma_opt_len(a.interface);
        lemma_field_len("interface"@, enc_opt_str(a.interface));
        lemma_str_len(a.validation.text());
        lemma_field_len("validation"@, enc_str(a.validation.text()));
        lemma_uint_len(a.rcode as nat);
        lemma_field_len("rcode"@, enc_uint(a.rcode as nat));
    }
    law_map(9, s0, 0);
    let v0 = reply_start();
    let seen0 = Seq::<Seq<char>>::empty();
    let v1 = ReplyFieldsView { ok: Some(true), ..v0 };
    lemma_step_ok(true, v0, s1);
    lemma_field::<ReplyFields>(9, seen0, v0, "ok"@, enc_bool(true), s1, v1);
    let seen1 = seen0.push("ok"@);
    let v2 = ReplyFieldsView { kind: Some("answer"@), ..v1 };
    lemma_step_kind("answer"@, v1, s2);
    lemma_field::<ReplyFields>(8, seen1, v1, "kind"@, enc_str("answer"@), s2, v2);
    let seen2 = seen1.push("kind"@);
    let v3 = ReplyFieldsView {
        answer: AnswerView { outcome: a.outcome, ..v2.answer },
        addresses: AddressesView { outcome: a.outcome, ..v2.addresses },
        ..v2
    };
    lemma_step_outcome(a.outcome, v2, s3);
    lemma_field::<ReplyFields>(7, seen2, v2, "outcome"@, enc_str(a.outcome.text()), s3, v3);
    let seen3 = seen2.push("outcome"@);
    let v4 = ReplyFieldsView { answer: AnswerView { records: v3.answer.records + a.records, ..v3.answer }, ..v3 };
    lemma_step_records(a.records, v3, s4);
    lemma_field::<ReplyFields>(6, seen3, v3, "records"@, enc_array(count32(a.records.len())) + enc_records(a.records), s4, v4);
    let seen4 = seen3.push("records"@);
    let v5 = ReplyFieldsView {
        answer: AnswerView { source: a.source, ..v4.answer },
        addresses: AddressesView { source: a.source, ..v4.addresses },
        ..v4
    };
    lemma_step_source(a.source, v4, s5);
    lemma_field::<ReplyFields>(5, seen4, v4, "source"@, enc_str(a.source), s5, v5);
    let seen5 = seen4.push("source"@);
    let v6 = ReplyFieldsView { answer: AnswerView { server: a.server, ..v5.answer }, ..v5 };
    lemma_step_server(a.server, v5, s6);
    lemma_field::<ReplyFields>(4, seen5, v5, "server"@, enc_opt_str(a.server), s6, v6);
    let seen6 = seen5.push("server"@);
    let v7 = ReplyFieldsView { answer: AnswerView { interface: a.interface, ..v6.answer }, ..v6 };
    lemma_step_interface(a.interface, v6, s7);
    lemma_field::<ReplyFields>(3, seen6, v6, "interface"@, enc_opt_str(a.interface), s7, v7);
    let seen7 = seen6.push("interface"@);
    let v8 = ReplyFieldsView {
        answer: AnswerView { validation: a.validation, ..v7.answer },
        addresses: AddressesView { validation: a.validation, ..v7.addresses },
        ..v7
    };
    lemma_step_validation(a.validation, v7, s8);
    lemma_field::<ReplyFields>(2, seen7, v7, "validation"@, enc_str(a.validation.text()), s8, v8);
    let seen8 = seen7.push("validation"@);
    let v9 = ReplyFieldsView { answer: AnswerView { rcode: a.rcode, ..v8.answer }, ..v8 };
    lemma_step_rcode(a.rcode, v8, s9);
    lemma_field::<ReplyFields>(1, seen8, v8, "rcode"@, enc_uint(a.rcode as nat), s9, v9);
    let seen9 = seen8.push("rcode"@);
}

proof fn lemma_addresses_reply(a: AddressesView)
    requires
        addresses_fit(a),
    ensures
        dec_reply(enc_reply(ReplyView::Addresses(a))) == Ok::<ReplyView, Fault>(ReplyView::Addresses(a)),
{
    lemma_reply_names();
    lemma_reply_kinds();
    assert(no_addresses().addresses + a.addresses =~= a.addresses);
    let tail = Seq::<u8>::empty();
    let b = enc_reply(ReplyView::Addresses(a));
    assert(b + tail =~= b);
    let s7 = tail;
    let s6 = field("validation"@, enc_str(a.validation.text())) + s7;
    let s5 = field("source"@, enc_str(a.source)) + s6;
    let s4 = field("addresses"@, enc_array(count32(a.addresses.len())) + enc_address_list(a.addresses)) + s5;
    let s3 = field("canonical"@, enc_str(a.canonical)) + s4;
    let s2 = field("outcome"@, enc_str(a.outcome.text())) + s3;
    let s1 = field("kind"@, enc_str("addresses"@)) + s2;
    let s0 = field("ok"@, enc_bool(true)) + s1;
    assert(b + tail == enc_map(7) + s0) by {
        broadcast use octets::lemma_join;

    }
    assert(s0.len() >= 14) by {
        lemma_bool_len(true);
        lemma_field_len("ok"@, enc_bool(true));
        lemma_str_len("addresses"@);
        lemma_field_len("kind"@, enc_str("addresses"@));
        lemma_str_len(a.outcome.text());
        lemma_field_len("outcome"@, enc_str(a.outcome.text()));
        lemma_str_len(a.canonical);
        lemma_field_len("canonical"@, enc_str(a.canonical));
        lemma_array_len(a.addresses.len(), enc_address_list(a.addresses));
        lemma_field_len("addresses"@, enc_array(count32(a.addresses.len())) + enc_address_list(a.addresses));
        lemma_str_len(a.source);
        lemma_field_len("source"@, enc_str(a.source));
        lemma_str_len(a.validation.text());
        lemma_field_len("validation"@, enc_str(a.validation.text()));
    }
    law_map(7, s0, 0);
    let v0 = reply_start();
    let seen0 = Seq::<Seq<char>>::empty();
    let v1 = ReplyFieldsView { ok: Some(true), ..v0 };
    lemma_step_ok(true, v0, s1);
    lemma_field::<ReplyFields>(7, seen0, v0, "ok"@, enc_bool(true), s1, v1);
    let seen1 = seen0.push("ok"@);
    let v2 = ReplyFieldsView { kind: Some("addresses"@), ..v1 };
    lemma_step_kind("addresses"@, v1, s2);
    lemma_field::<ReplyFields>(6, seen1, v1, "kind"@, enc_str("addresses"@), s2, v2);
    let seen2 = seen1.push("kind"@);
    let v3 = ReplyFieldsView {
        answer: AnswerView { outcome: a.outcome, ..v2.answer },
        addresses: AddressesView { outcome: a.outcome, ..v2.addresses },
        ..v2
    };
    lemma_step_outcome(a.outcome, v2, s3);
    lemma_field::<ReplyFields>(5, seen2, v2, "outcome"@, enc_str(a.outcome.text()), s3, v3);
    let seen3 = seen2.push("outcome"@);
    let v4 = ReplyFieldsView { addresses: AddressesView { canonical: a.canonical, ..v3.addresses }, ..v3 };
    lemma_step_canonical(a.canonical, v3, s4);
    lemma_field::<ReplyFields>(4, seen3, v3, "canonical"@, enc_str(a.canonical), s4, v4);
    let seen4 = seen3.push("canonical"@);
    let v5 = ReplyFieldsView {
        addresses: AddressesView { addresses: v4.addresses.addresses + a.addresses, ..v4.addresses },
        ..v4
    };
    lemma_step_addresses(a.addresses, v4, s5);
    lemma_field::<ReplyFields>(3, seen4, v4, "addresses"@, enc_array(count32(a.addresses.len())) + enc_address_list(a.addresses), s5, v5);
    let seen5 = seen4.push("addresses"@);
    let v6 = ReplyFieldsView {
        answer: AnswerView { source: a.source, ..v5.answer },
        addresses: AddressesView { source: a.source, ..v5.addresses },
        ..v5
    };
    lemma_step_source(a.source, v5, s6);
    lemma_field::<ReplyFields>(2, seen5, v5, "source"@, enc_str(a.source), s6, v6);
    let seen6 = seen5.push("source"@);
    let v7 = ReplyFieldsView {
        answer: AnswerView { validation: a.validation, ..v6.answer },
        addresses: AddressesView { validation: a.validation, ..v6.addresses },
        ..v6
    };
    lemma_step_validation(a.validation, v6, s7);
    lemma_field::<ReplyFields>(1, seen6, v6, "validation"@, enc_str(a.validation.text()), s7, v7);
    let seen7 = seen6.push("validation"@);
}

proof fn lemma_status_reply(s: StatusReportView)
    requires
        status_fits(s),
    ensures
        dec_reply(enc_reply(ReplyView::Status(s))) == Ok::<ReplyView, Fault>(ReplyView::Status(s)),
{
    lemma_reply_names();
    lemma_reply_kinds();
    assert(no_status().scopes + s.scopes =~= s.scopes);
    let tail = Seq::<u8>::empty();
    let b = enc_reply(ReplyView::Status(s));
    assert(b + tail =~= b);
    let s8 = tail;
    let s7 = field("counters"@, enc_counters(s.counters)) + s8;
    let s6 = field("cache_entries"@, enc_uint(s.cache_entries as nat)) + s7;
    let s5 = field("fallback_servers"@, enc_str_list(s.fallback_servers)) + s6;
    let s4 = field("scopes"@, enc_array(count32(s.scopes.len())) + enc_scopes(s.scopes)) + s5;
    let s3 = field("netd"@, enc_bool(s.netd)) + s4;
    let s2 = field("hostname"@, enc_str(s.hostname)) + s3;
    let s1 = field("kind"@, enc_str("status"@)) + s2;
    let s0 = field("ok"@, enc_bool(true)) + s1;
    assert(b + tail == enc_map(8) + s0) by {
        broadcast use octets::lemma_join;

    }
    assert(s0.len() >= 16) by {
        lemma_bool_len(true);
        lemma_field_len("ok"@, enc_bool(true));
        lemma_str_len("status"@);
        lemma_field_len("kind"@, enc_str("status"@));
        lemma_str_len(s.hostname);
        lemma_field_len("hostname"@, enc_str(s.hostname));
        lemma_bool_len(s.netd);
        lemma_field_len("netd"@, enc_bool(s.netd));
        lemma_array_len(s.scopes.len(), enc_scopes(s.scopes));
        lemma_field_len("scopes"@, enc_array(count32(s.scopes.len())) + enc_scopes(s.scopes));
        lemma_array_len(s.fallback_servers.len(), enc_strs(s.fallback_servers));
        lemma_field_len("fallback_servers"@, enc_str_list(s.fallback_servers));
        lemma_uint_len(s.cache_entries as nat);
        lemma_field_len("cache_entries"@, enc_uint(s.cache_entries as nat));
        lemma_counters_len(s.counters);
        lemma_field_len("counters"@, enc_counters(s.counters));
    }
    law_map(8, s0, 0);
    let v0 = reply_start();
    let seen0 = Seq::<Seq<char>>::empty();
    let v1 = ReplyFieldsView { ok: Some(true), ..v0 };
    lemma_step_ok(true, v0, s1);
    lemma_field::<ReplyFields>(8, seen0, v0, "ok"@, enc_bool(true), s1, v1);
    let seen1 = seen0.push("ok"@);
    let v2 = ReplyFieldsView { kind: Some("status"@), ..v1 };
    lemma_step_kind("status"@, v1, s2);
    lemma_field::<ReplyFields>(7, seen1, v1, "kind"@, enc_str("status"@), s2, v2);
    let seen2 = seen1.push("kind"@);
    let v3 = ReplyFieldsView { status: StatusReportView { hostname: s.hostname, ..v2.status }, ..v2 };
    lemma_step_hostname(s.hostname, v2, s3);
    lemma_field::<ReplyFields>(6, seen2, v2, "hostname"@, enc_str(s.hostname), s3, v3);
    let seen3 = seen2.push("hostname"@);
    let v4 = ReplyFieldsView { status: StatusReportView { netd: s.netd, ..v3.status }, ..v3 };
    lemma_step_netd(s.netd, v3, s4);
    lemma_field::<ReplyFields>(5, seen3, v3, "netd"@, enc_bool(s.netd), s4, v4);
    let seen4 = seen3.push("netd"@);
    let v5 = ReplyFieldsView { status: StatusReportView { scopes: v4.status.scopes + s.scopes, ..v4.status }, ..v4 };
    lemma_step_scopes(s.scopes, v4, s5);
    lemma_field::<ReplyFields>(4, seen4, v4, "scopes"@, enc_array(count32(s.scopes.len())) + enc_scopes(s.scopes), s5, v5);
    let seen5 = seen4.push("scopes"@);
    let v6 = ReplyFieldsView { status: StatusReportView { fallback_servers: s.fallback_servers, ..v5.status }, ..v5 };
    lemma_step_fallback_servers(s.fallback_servers, v5, s6);
    lemma_field::<ReplyFields>(3, seen5, v5, "fallback_servers"@, enc_str_list(s.fallback_servers), s6, v6);
    let seen6 = seen5.push("fallback_servers"@);
    let v7 = ReplyFieldsView { status: StatusReportView { cache_entries: s.cache_entries, ..v6.status }, ..v6 };
    lemma_step_cache_entries(s.cache_entries, v6, s7);
    lemma_field::<ReplyFields>(2, seen6, v6, "cache_entries"@, enc_uint(s.cache_entries as nat), s7, v7);
    let seen7 = seen6.push("cache_entries"@);
    let v8 = ReplyFieldsView { status: StatusReportView { counters: s.counters, ..v7.status }, ..v7 };
    lemma_step_counters(s.counters, v7, s8);
    lemma_field::<ReplyFields>(1, seen7, v7, "counters"@, enc_counters(s.counters), s8, v8);
    let seen8 = seen7.push("counters"@);
}

/// A reply reads back as it was written.
pub proof fn law_reply_round_trip(r: ReplyView)
    requires
        reply_fits(r),
    ensures
        dec_reply(enc_reply(r)) == Ok::<ReplyView, Fault>(r),
{
    match r {
        ReplyView::Okay => lemma_ok(),
        ReplyView::Error(m) => lemma_error(m),
        ReplyView::Answer(a) => lemma_answer(a),
        ReplyView::Addresses(a) => lemma_addresses_reply(a),
        ReplyView::Status(s) => lemma_status_reply(s),
    }
}

// What was read can be written.

proof fn lemma_length_bound(i: Input, base: int, short: int, long: int, skipped: int)
    requires
        short <= 32,
        0 <= skipped,
    ensures
        msgpack::read_length(i, base, short, long, skipped) matches (Ok(n), _) ==> n <= u32::MAX,
{
    octets::lemma_pow256();
    if let (Ok(b), j) = msgpack::byte(i) {
        let w = msgpack::width(b - long);
        if let (Ok(s), _) = msgpack::take(j, w) {
            octets::lemma_be_value_bound(s);
        }
    }
}

proof fn lemma_read_fits(i: Input)
    ensures
        msgpack::read_str(i) matches (Ok(s), _) ==> fits(s),
        msgpack::read_bin(i) matches (Ok(b), _) ==> b.len() <= u32::MAX,
        msgpack::read_array(i) matches (Ok(n), _) ==> n <= u32::MAX,
{
    reveal(msgpack::read_str);
    reveal(msgpack::read_bin);
    reveal(msgpack::read_array);
    lemma_length_bound(i, 0xa0, 32, 0xd9, 0);
    lemma_length_bound(i, 0, 0, 0xc4, 0);
    lemma_length_bound(i, 0x90, 16, 0xdb, 1);
    if let (Ok(s), _) = msgpack::read_str_bytes(i) {
        if valid_utf8(s) {
            decode_utf8_encode_utf8(s);
        }
    }
}

/// What every field keeps, a map keeps.
proof fn lemma_fields_keep<V: FieldVisitor>(
    p: spec_fn(V::V) -> bool,
    n: nat,
    seen: Seq<Seq<char>>,
    v: V::V,
    i: Input,
)
    requires
        p(v),
        forall|v: V::V, k: Seq<char>, j: Input|
            p(v) ==> (#[trigger] V::step(v, k, j) matches Ok((w, _)) ==> p(w)),
    ensures
        fields::<V>(n, seen, v, i) matches Ok((w, _, _)) ==> p(w),
    decreases n,
{
    if n > 0 {
        if let (Ok(key), j) = msgpack::read_str(i) {
            if !seen.contains(key) {
                if let Ok((w, k)) = V::step(v, key, j) {
                    lemma_fields_keep::<V>(p, (n - 1) as nat, seen.push(key), w, k);
                }
            }
        }
    }
}

proof fn lemma_maps_keep<V: FieldVisitor>(p: spec_fn(V::V) -> bool, n: nat, i: Input)
    requires
        p(V::start()),
        forall|v: V::V, k: Seq<char>, j: Input|
            p(v) ==> (#[trigger] V::step(v, k, j) matches Ok((w, _)) ==> p(w)),
    ensures
        maps::<V>(n, i) matches Ok((vs, _)) ==> vs.len() == n && forall|k: int| 0 <= k < vs.len() ==> p(#[trigger] vs[k]),
    decreases n,
{
    if n > 0 {
        if let (Ok(count), j) = msgpack::read_map(i) {
            lemma_fields_keep::<V>(p, count, Seq::empty(), V::start(), j);
            if let Ok((v, _, k)) = fields::<V>(count, Seq::empty(), V::start(), j) {
                lemma_maps_keep::<V>(p, (n - 1) as nat, k);
            }
        }
    }
}

spec fn ask_fields_fit(f: AskFields) -> bool {
    opt_fits(f.name)
}

/// Whatever reads as a request reads back as itself once it is written.
pub proof fn law_decoded_request_round_trips(b: Seq<u8>)
    ensures
        dec_ask(b) matches Ok(a) ==> ask_fits(a) && dec_ask(enc_ask(a)) == Ok::<Ask, Fault>(a),
{
    let p = |f: AskFields| ask_fields_fit(f);
    assert forall|v: AskFields, k: Seq<char>, j: Input| p(v) implies (#[trigger] RequestFields::step(
        v,
        k,
        j,
    ) matches Ok((w, _)) ==> p(w)) by {
        reveal(ask_step);
        lemma_read_fits(j);
    }
    if let (Ok(n), j) = msgpack::read_map(input(b, 0)) {
        lemma_fields_keep::<RequestFields>(p, n, Seq::empty(), ask_start(), j);
        if let Ok((f, _, _)) = fields::<RequestFields>(n, Seq::empty(), ask_start(), j) {
            if let Some(s) = f.address {
                crate::addr::lemma_text_len(encode_utf8(s));
            }
            if let Ok(a) = ask_of(f) {
                law_request_round_trip(a);
            }
        }
    }
}

proof fn lemma_record_keep()
    ensures
        record_fits(no_record()),
        forall|v: RecordOutView, k: Seq<char>, j: Input|
            record_fits(v) ==> (#[trigger] RecordOut::step(v, k, j) matches Ok((w, _)) ==> record_fits(w)),
{
    assert forall|v: RecordOutView, k: Seq<char>, j: Input| record_fits(v) implies (#[trigger] RecordOut::step(
        v,
        k,
        j,
    ) matches Ok((w, _)) ==> record_fits(w)) by {
        reveal(record_step);
        lemma_read_fits(j);
    }
    lemma_utf8_len(Seq::empty());
}

proof fn lemma_strs_keep(n: nat, i: Input)
    ensures
        strs(n, i) matches Ok((s, _)) ==> s.len() == n && forall|k: int| 0 <= k < s.len() ==> fits(#[trigger] s[k]),
    decreases n,
{
    if n > 0 {
        lemma_read_fits(i);
        if let (Ok(_), j) = msgpack::read_str(i) {
            lemma_strs_keep((n - 1) as nat, j);
        }
    }
}

proof fn lemma_str_list_keep(i: Input)
    ensures
        str_list(i) matches Ok((s, _)) ==> all_fit(s),
{
    lemma_read_fits(i);
    if let (Ok(n), j) = msgpack::read_array(i) {
        lemma_strs_keep(n, j);
    }
}

proof fn lemma_scope_keep()
    ensures
        scope_fits(no_scope()),
        forall|v: ScopeStatusView, k: Seq<char>, j: Input|
            scope_fits(v) ==> (#[trigger] ScopeStatus::step(v, k, j) matches Ok((w, _)) ==> scope_fits(w)),
{
    assert forall|v: ScopeStatusView, k: Seq<char>, j: Input| scope_fits(v) implies (#[trigger] ScopeStatus::step(
        v,
        k,
        j,
    ) matches Ok((w, _)) ==> scope_fits(w)) by {
        reveal(scope_step);
        lemma_read_fits(j);
        lemma_str_list_keep(j);
    }
    lemma_utf8_len(Seq::empty());
}

spec fn given_fits(f: AddressFieldsView) -> bool {
    f.address matches Some(a) ==> a.len() == 4 || a.len() == 16
}

proof fn lemma_address_keep()
    ensures
        given_fits(AddressFieldsView { address: None, ttl: 0 }),
        forall|v: AddressFieldsView, k: Seq<char>, j: Input|
            given_fits(v) ==> (#[trigger] AddressFields::step(v, k, j) matches Ok((w, _)) ==> given_fits(w)),
{
    assert forall|v: AddressFieldsView, k: Seq<char>, j: Input| given_fits(v) implies (
    #[trigger] AddressFields::step(v, k, j) matches Ok((w, _)) ==> given_fits(w)) by {
        reveal(address_step);
        if let (Ok(s), _) = msgpack::read_str(j) {
            crate::addr::lemma_text_len(encode_utf8(s));
        }
    }
}

proof fn lemma_kept_fits(s: Seq<AddressFieldsView>)
    requires
        forall|k: int| 0 <= k < s.len() ==> given_fits(#[trigger] s[k]),
    ensures
        kept(s).len() <= s.len(),
        forall|k: int| 0 <= k < kept(s).len() ==> address_fits(#[trigger] kept(s)[k]),
    decreases s.len(),
{
    if s.len() > 0 {
        assert(given_fits(s[s.len() - 1]));
        lemma_kept_fits(s.drop_last());
    }
}

/// A list field is absent until it has come.
spec fn reply_fields_fit(f: ReplyFieldsView) -> bool {
    opt_fits(f.error) && answer_fits(f.answer) && addresses_fit(f.addresses) && status_fits(f.status)
}

spec fn reply_so_far(seen: Seq<Seq<char>>, f: ReplyFieldsView) -> bool {
    &&& reply_fields_fit(f)
    &&& !seen.contains("records"@) ==> f.answer.records.len() == 0
    &&& !seen.contains("addresses"@) ==> f.addresses.addresses.len() == 0
    &&& !seen.contains("scopes"@) ==> f.status.scopes.len() == 0
}

proof fn lemma_answer_step_keeps(f: ReplyFieldsView, key: Seq<char>, i: Input)
    requires
        reply_fields_fit(f),
        key == "records"@ ==> f.answer.records.len() == 0,
    ensures
        answer_step(f, key, i) matches Some(Ok((w, _))) ==> {
            &&& reply_fields_fit(w)
            &&& key != "records"@ ==> w.answer.records == f.answer.records
            &&& w.addresses.addresses == f.addresses.addresses
            &&& w.status == f.status
        },
{
    lemma_read_fits(i);
    lemma_record_keep();
    if let (Ok(n), j) = msgpack::read_array(i) {
        lemma_maps_keep::<RecordOut>(|v: RecordOutView| record_fits(v), n, j);
    }
    reveal(answer_step);
    lemma_reply_names();
}

proof fn lemma_addresses_step_keeps(v: AddressesView, key: Seq<char>, i: Input)
    requires
        addresses_fit(v),
        key == "addresses"@ ==> v.addresses.len() == 0,
    ensures
        addresses_step(v, key, i) matches Some(Ok((w, _))) ==> addresses_fit(w) && (key != "addresses"@ ==> w.addresses
            == v.addresses),
{
    lemma_read_fits(i);
    lemma_address_keep();
    if let (Ok(n), j) = msgpack::read_array(i) {
        lemma_maps_keep::<AddressFields>(|v: AddressFieldsView| given_fits(v), n, j);
        if let Ok((x, _)) = maps::<AddressFields>(n, j) {
            lemma_kept_fits(x);
        }
    }
    reveal(addresses_step);
    lemma_reply_names();
}

proof fn lemma_status_step_keeps(v: StatusReportView, key: Seq<char>, i: Input)
    requires
        status_fits(v),
        key == "scopes"@ ==> v.scopes.len() == 0,
    ensures
        status_step(v, key, i) matches Some(Ok((w, _))) ==> status_fits(w) && (key != "scopes"@ ==> w.scopes
            == v.scopes),
{
    lemma_read_fits(i);
    lemma_str_list_keep(i);
    lemma_scope_keep();
    if let (Ok(n), j) = msgpack::read_array(i) {
        lemma_maps_keep::<ScopeStatus>(|v: ScopeStatusView| scope_fits(v), n, j);
    }
    reveal(status_step);
    lemma_reply_names();
}

proof fn lemma_reply_step_keeps(seen: Seq<Seq<char>>, f: ReplyFieldsView, key: Seq<char>, i: Input)
    requires
        reply_so_far(seen, f),
        !seen.contains(key),
    ensures
        reply_step(f, key, i) matches Ok((w, _)) ==> reply_so_far(seen.push(key), w),
{
    let all = seen.push(key);
    assert(all[all.len() - 1] == key);
    assert forall|k: Seq<char>| seen.contains(k) implies #[trigger] all.contains(k) by {
        let at = choose|at: int| 0 <= at < seen.len() && seen[at] == k;
        assert(all[at] == k);
    }
    assert(all.contains(key));
    lemma_answer_step_keeps(f, key, i);
    lemma_addresses_step_keeps(f.addresses, key, i);
    lemma_status_step_keeps(f.status, key, i);
    reveal(reply_step);
}

proof fn lemma_reply_fields_keep(n: nat, seen: Seq<Seq<char>>, f: ReplyFieldsView, i: Input)
    requires
        reply_so_far(seen, f),
    ensures
        fields::<ReplyFields>(n, seen, f, i) matches Ok((w, _, _)) ==> reply_fields_fit(w),
    decreases n,
{
    if n > 0 {
        if let (Ok(key), j) = msgpack::read_str(i) {
            if !seen.contains(key) {
                lemma_reply_step_keeps(seen, f, key, j);
                if let Ok((w, k)) = ReplyFields::step(f, key, j) {
                    lemma_reply_fields_keep((n - 1) as nat, seen.push(key), w, k);
                }
            }
        }
    }
}

/// Whatever reads as a reply reads back as itself once it is written.
pub proof fn law_decoded_reply_round_trips(b: Seq<u8>)
    ensures
        dec_reply(b) matches Ok(r) ==> reply_fits(r) && dec_reply(enc_reply(r)) == Ok::<ReplyView, Fault>(r),
{
    lemma_utf8_len(Seq::empty());
    reveal_strlit("unspecified error");
    assert("unspecified error"@.len() == 17);
    lemma_utf8_len("unspecified error"@);
    if let (Ok(n), j) = msgpack::read_map(input(b, 0)) {
        assert(reply_so_far(Seq::empty(), reply_start()));
        lemma_reply_fields_keep(n, Seq::empty(), reply_start(), j);
        if let Ok((f, _, _)) = fields::<ReplyFields>(n, Seq::empty(), reply_start(), j) {
            if let Ok(r) = reply_of(f) {
                law_reply_round_trip(r);
            }
        }
    }
}

/// A field that comes twice makes a map an error, whatever the map is for.
pub proof fn law_duplicate_refused<V: FieldVisitor>(n: nat, seen: Seq<Seq<char>>, v: V::V, i: Input)
    requires
        n > 0,
        msgpack::read_str(i) matches (Ok(key), _) && seen.contains(key),
    ensures
        fields::<V>(n, seen, v, i) == Err::<(V::V, Seq<Seq<char>>, Input), Fault>(
            Fault::Duplicate(msgpack::read_str(i).0->Ok_0),
        ),
{
}

pub open spec fn known_to_requests(key: Seq<char>) -> bool {
    key == "query"@ || key == "name"@ || key == "type"@ || key == "no_cache"@ || key == "family"@ || key
        == "address"@
}

/// A field that requests do not know is stepped over and changes nothing.
pub proof fn law_unknown_field_ignored(v: AskFields, key: Seq<char>, i: Input)
    requires
        !known_to_requests(key),
    ensures
        match msgpack::skip(i) {
            (Ok(_), j) => RequestFields::step(v, key, i) == Ok::<(AskFields, Input), Fault>((v, j)),
            (Err(e), _) => RequestFields::step(v, key, i) == Err::<(AskFields, Input), Fault>(Fault::Encoding(e)),
        },
{
    reveal(ask_step);
}

} // verus!

//! What the settings and the network daemon's words come to.
use crate::addr::ip_of_text;
use crate::config::{
    addresses_in, descriptor_in, domains_in, host_name, host_place, hosts_in, loaded, string_of, strings_of, texts_of,
    up_to_zero, with_host, RegValueView, ValueType, ValuesView,
};
use crate::dns::name::{name_of_text, same_name, Labels};
use crate::dns::text_laws::joined;
use crate::engine::answer::Hosts;
use crate::octets::split;
use crate::snapshot::{
    machine_name, prefix_of, prefixes_in, scope_of, scopes_of, servers_in, slash_from, DnsScopeView,
};
use crate::text::{trimmed, uint_of};
use vstd::prelude::*;
use vstd::utf8::*;

verus! {

// Strings.

/// A string ends before its first zero.
pub proof fn law_strings_stop_at_zero(b: Seq<u8>)
    ensures
        up_to_zero(b).len() <= b.len(),
        forall|i: int| 0 <= i < up_to_zero(b).len() ==> up_to_zero(b)[i] == #[trigger] b[i] && b[i] != 0,
        up_to_zero(b).len() < b.len() ==> b[up_to_zero(b).len() as int] == 0,
    decreases b.len(),
{
    if b.len() > 0 && b[0] != 0 {
        let rest = b.skip(1);
        law_strings_stop_at_zero(rest);
        let u = up_to_zero(b);
        assert forall|i: int| 0 <= i < u.len() implies u[i] == #[trigger] b[i] && b[i] != 0 by {
            if i > 0 {
                assert(rest[i - 1] == b[i]);
            }
        }
        if u.len() < b.len() {
            assert(rest[up_to_zero(rest).len() as int] == b[u.len() as int]);
        }
    }
}

/// What is split at a byte is there again when it is joined by the byte, and none
/// of the parts holds the byte.
pub proof fn law_parts_are_joined(b: Seq<u8>, by: u8)
    ensures
        split(b, by).len() > 0,
        joined(split(b, by), by) == b,
        forall|i: int, j: int|
            0 <= i < split(b, by).len() && 0 <= j < split(b, by)[i].len() ==> #[trigger] split(b, by)[i][j] != by,
    decreases b.len(),
{
    let p = split(b, by);
    if b.len() == 0 {
        assert(joined(p, by) =~= b);
    } else {
        let q = split(b.drop_last(), by);
        law_parts_are_joined(b.drop_last(), by);
        if b.last() == by {
            assert(p.drop_last() =~= q);
            assert(joined(p, by) =~= b);
        } else {
            assert(p.drop_last() =~= q.drop_last());
            assert(p.last() == q.last().push(b.last()));
            assert(joined(p, by) =~= joined(q, by).push(b.last()));
            assert(joined(p, by) =~= b);
        }
        assert forall|i: int, j: int| 0 <= i < p.len() && 0 <= j < p[i].len() implies #[trigger] p[i][j] != by by {
            if i < q.len() - 1 {
                assert(p[i] == q[i]);
                assert(q[i][j] != by);
            } else if i < q.len() {
                if b.last() == by {
                    assert(p[i] == q[i]);
                    assert(q[i][j] != by);
                } else if j < q[i].len() {
                    assert(q[i][j] != by);
                }
            }
        }
    }
}

proof fn lemma_texts(p: Seq<Seq<u8>>)
    ensures
        texts_of(p) == p.filter_map(
            |x: Seq<u8>|
                if x.len() > 0 && valid_utf8(x) {
                    Some(decode_utf8(x))
                } else {
                    None
                },
        ),
    decreases p.len(),
{
    let f = |x: Seq<u8>|
        if x.len() > 0 && valid_utf8(x) {
            Some(decode_utf8(x))
        } else {
            None
        };
    if p.len() > 0 {
        lemma_texts(p.drop_last());
        assert(texts_of(p) =~= p.filter_map(f));
    }
}

/// A list of strings is every text between zeros that is not empty, in order; a
/// single string is a list of one; and any other value is no string.
pub proof fn law_strings_of_a_value(v: RegValueView)
    ensures
        v.ty == ValueType::MultiSz ==> strings_of(v) == split(v.data, 0).filter_map(
            |x: Seq<u8>|
                if x.len() > 0 && valid_utf8(x) {
                    Some(decode_utf8(x))
                } else {
                    None
                },
        ),
        v.ty == ValueType::Sz || v.ty == ValueType::ExpandSz ==> if valid_utf8(up_to_zero(v.data)) {
            strings_of(v) == seq![decode_utf8(up_to_zero(v.data))]
        } else {
            strings_of(v).len() == 0
        },
        v.ty == ValueType::Binary || v.ty == ValueType::Other ==> strings_of(v).len() == 0,
        v.ty == ValueType::MultiSz || v.ty == ValueType::Binary || v.ty == ValueType::Other ==> string_of(v) is None,
{
    if v.ty == ValueType::MultiSz {
        lemma_texts(split(v.data, 0));
    }
}

/// Space around a text is left out, and nothing else.
pub proof fn law_space_is_left_out(s: Seq<char>) -> (at: (int, int))
    ensures
        0 <= at.0 <= at.1 <= s.len(),
        trimmed(s) == s.subrange(at.0, at.1),
        forall|i: int| 0 <= i < at.0 || at.1 <= i < s.len() ==> crate::text::is_white(#[trigger] s[i]),
        at.0 < at.1 ==> !crate::text::is_white(s[at.0]) && !crate::text::is_white(s[at.1 - 1]),
    decreases s.len(),
{
    if s.len() == 0 {
        assert(s =~= s.subrange(0, 0));
        (0, 0)
    } else if crate::text::is_white(s[0]) {
        let t = s.skip(1);
        let at = law_space_is_left_out(t);
        assert(t.subrange(at.0, at.1) =~= s.subrange(at.0 + 1, at.1 + 1));
        assert forall|i: int| 0 <= i < at.0 + 1 || at.1 + 1 <= i < s.len() implies crate::text::is_white(
            #[trigger] s[i],
        ) by {
            if i > 0 {
                assert(t[i - 1] == s[i]);
            }
        }
        (at.0 + 1, at.1 + 1)
    } else if crate::text::is_white(s.last()) {
        let t = s.drop_last();
        let at = law_space_is_left_out(t);
        assert(t.subrange(at.0, at.1) =~= s.subrange(at.0, at.1));
        assert forall|i: int| 0 <= i < at.0 || at.1 <= i < s.len() implies crate::text::is_white(#[trigger] s[i]) by {
            if i < t.len() {
                assert(t[i] == s[i]);
            }
        }
        at
    } else {
        assert(s =~= s.subrange(0, s.len() as int));
        (0, s.len() as int)
    }
}

// What the strings mean.

/// Every address among strings is taken, in order, space around it aside.
pub proof fn law_addresses_are_taken(s: Seq<Seq<char>>)
    ensures
        addresses_in(s) == s.filter_map(|x: Seq<char>| ip_of_text(encode_utf8(trimmed(x)))),
    decreases s.len(),
{
    let f = |x: Seq<char>| ip_of_text(encode_utf8(trimmed(x)));
    if s.len() > 0 {
        law_addresses_are_taken(s.drop_last());
        assert(addresses_in(s) =~= s.filter_map(f));
    }
}

/// Every name among strings but the root is taken, in order.
pub proof fn law_domains_are_taken(s: Seq<Seq<char>>)
    ensures
        domains_in(s) == s.filter_map(
            |x: Seq<char>|
                match name_of_text(encode_utf8(x)) {
                    Ok(n) => if n.len() > 0 {
                        Some(n)
                    } else {
                        None
                    },
                    Err(_) => None,
                },
        ),
    decreases s.len(),
{
    let f = |x: Seq<char>|
        match name_of_text(encode_utf8(x)) {
            Ok(n) => if n.len() > 0 {
                Some(n)
            } else {
                None
            },
            Err(_) => None,
        };
    if s.len() > 0 {
        law_domains_are_taken(s.drop_last());
        assert(domains_in(s) =~= s.filter_map(f));
    }
}

/// Each part of the configuration comes from its own value, and is empty where the
/// value is not there.
pub proof fn law_settings_come_from_their_values(v: ValuesView)
    ensures
        v.fallback_servers is None ==> loaded(v).servers.len() == 0,
        v.fallback_servers matches Some(x) ==> loaded(v).servers == strings_of(x).filter_map(
            |t: Seq<char>| ip_of_text(encode_utf8(trimmed(t))),
        ),
        v.extra_search_domains is None ==> loaded(v).search.len() == 0,
        v.extra_search_domains matches Some(x) ==> loaded(v).search == domains_in(strings_of(x)),
        loaded(v).control_security is Some <==> (v.control_security matches Some(x) && x.ty == ValueType::Binary
            && x.data.len() > 0),
        loaded(v).control_security matches Some(d) ==> d == v.control_security->0.data,
        loaded(v).hosts == hosts_in(v.hosts),
{
    if let Some(x) = v.fallback_servers {
        law_addresses_are_taken(strings_of(x));
    }
    assert(descriptor_in(v.control_security) == loaded(v).control_security);
}

// Hosts.

/// Whether a value names a host and gives it addresses.
pub open spec fn is_host(v: (Seq<u8>, RegValueView), name: Labels) -> bool {
    host_name(v.0) matches Some(n) && same_name(n, name) && addresses_in(strings_of(v.1)).len() > 0
}

/// Whether a name has exactly some addresses among hosts.
pub open spec fn has_addresses(h: Hosts, name: Labels, a: Seq<Seq<u8>>) -> bool {
    exists|i: int| 0 <= i < h.len() && same_name((#[trigger] h[i]).0, name) && h[i].1 == a
}

proof fn lemma_host_place(h: Hosts, name: Labels, i: int)
    requires
        0 <= i <= h.len(),
    ensures
        i <= host_place(h, name, i) <= h.len(),
        host_place(h, name, i) < h.len() ==> same_name(h[host_place(h, name, i)].0, name),
        forall|j: int| i <= j < host_place(h, name, i) ==> !same_name((#[trigger] h[j]).0, name),
    decreases h.len() - i,
{
    if i < h.len() {
        lemma_host_place(h, name, i + 1);
    }
}

/// A host has the addresses of the last value that names it; a name that no value
/// names is no host.
pub proof fn law_the_last_value_names_a_host(v: Seq<(Seq<u8>, RegValueView)>, name: Labels)
    ensures
        forall|k: int|
            #![trigger v[k]]
            0 <= k < v.len() && is_host(v[k], name) && (forall|l: int| k < l < v.len() ==> !is_host(#[trigger] v[l], name))
                ==> has_addresses(hosts_in(v), name, addresses_in(strings_of(v[k].1))),
        (forall|k: int| 0 <= k < v.len() ==> !is_host(#[trigger] v[k], name)) ==> forall|i: int|
            0 <= i < hosts_in(v).len() ==> !same_name((#[trigger] hosts_in(v)[i]).0, name),
    decreases v.len(),
{
    if v.len() > 0 {
        let w = v.drop_last();
        let before = hosts_in(w);
        let after = hosts_in(v);
        let a = addresses_in(strings_of(v.last().1));
        law_the_last_value_names_a_host(w, name);
        if let Some(n) = host_name(v.last().0) {
            lemma_host_place(before, n, 0);
            let p = host_place(before, n, 0);
            if a.len() > 0 {
                assert(after == with_host(before, n, a));
                assert(after[p].1 == a && same_name(after[p].0, n));
            }
        }
        assert forall|k: int|
            #![trigger v[k]]
            0 <= k < v.len() && is_host(v[k], name) && (forall|l: int|
                k < l < v.len() ==> !is_host(#[trigger] v[l], name)) implies has_addresses(
            after,
            name,
            addresses_in(strings_of(v[k].1)),
        ) by {
            let b = addresses_in(strings_of(v[k].1));
            if k == v.len() - 1 {
                let n = host_name(v.last().0)->0;
                let p = host_place(before, n, 0);
                assert(same_name(after[p].0, name) && after[p].1 == b);
            } else {
                assert(w[k] == v[k]);
                assert forall|l: int| k < l < w.len() implies !is_host(#[trigger] w[l], name) by {
                    assert(w[l] == v[l]);
                }
                assert(has_addresses(before, name, b));
                let i = choose|i: int| 0 <= i < before.len() && same_name((#[trigger] before[i]).0, name) && before[i].1
                    == b;
                assert(!is_host(v[v.len() - 1], name));
                if let Some(n) = host_name(v.last().0) {
                    if a.len() > 0 {
                        let p = host_place(before, n, 0);
                        if p == i {
                            assert(same_name(before[i].0, n));
                            assert(same_name(n, name));
                        }
                        assert(after[i] == before[i]);
                    }
                }
                assert(same_name(after[i].0, name) && after[i].1 == b);
            }
        }
        if forall|k: int| 0 <= k < v.len() ==> !is_host(#[trigger] v[k], name) {
            assert forall|k: int| 0 <= k < w.len() implies !is_host(#[trigger] w[k], name) by {
                assert(w[k] == v[k]);
            }
            assert(!is_host(v[v.len() - 1], name));
            assert forall|i: int| 0 <= i < after.len() implies !same_name((#[trigger] after[i]).0, name) by {
                if i < before.len() {
                    assert(after[i].0 == before[i].0);
                }
            }
        }
    }
}

// Interfaces.

/// Every server that an interface names is taken, in order.
pub proof fn law_servers_are_taken(s: Seq<Seq<char>>)
    ensures
        servers_in(s) == s.filter_map(|x: Seq<char>| ip_of_text(encode_utf8(x))),
    decreases s.len(),
{
    let f = |x: Seq<char>| ip_of_text(encode_utf8(x));
    if s.len() > 0 {
        law_servers_are_taken(s.drop_last());
        assert(servers_in(s) =~= s.filter_map(f));
    }
}

/// Every prefix that an interface names is taken, in order.
pub proof fn law_prefixes_are_taken(s: Seq<Seq<char>>)
    ensures
        prefixes_in(s) == s.filter_map(|x: Seq<char>| prefix_of(encode_utf8(x))),
    decreases s.len(),
{
    let f = |x: Seq<char>| prefix_of(encode_utf8(x));
    if s.len() > 0 {
        law_prefixes_are_taken(s.drop_last());
        assert(prefixes_in(s) =~= s.filter_map(f));
    }
}

proof fn lemma_slash(b: Seq<u8>, i: int)
    requires
        0 <= i <= b.len(),
    ensures
        i <= slash_from(b, i) <= b.len(),
        slash_from(b, i) < b.len() ==> b[slash_from(b, i)] == 0x2f,
        forall|j: int| i <= j < slash_from(b, i) ==> #[trigger] b[j] != 0x2f,
    decreases b.len() - i,
{
    if i < b.len() {
        lemma_slash(b, i + 1);
    }
}

/// A prefix is an address, a slash and a number up to 255; without a slash it is
/// none.
pub proof fn law_prefix_text(a: Seq<u8>, n: Seq<u8>)
    requires
        forall|i: int| 0 <= i < a.len() ==> #[trigger] a[i] != 0x2f,
    ensures
        prefix_of(a) is None,
        prefix_of(a + seq![0x2fu8] + n) is Some <==> ip_of_text(a) is Some && uint_of(n, 255) is Some,
        prefix_of(a + seq![0x2fu8] + n) matches Some((address, length)) ==> ip_of_text(a) == Some(address) && uint_of(
            n,
            255,
        ) == Some(length as nat),
{
    let b = a + seq![0x2fu8] + n;
    lemma_slash(a, 0);
    lemma_slash(b, 0);
    assert(b[a.len() as int] == 0x2f);
    assert forall|i: int| 0 <= i < a.len() implies #[trigger] b[i] != 0x2f by {
        assert(a[i] == b[i]);
    }
    assert(slash_from(b, 0) == a.len());
    assert(b.take(a.len() as int) =~= a);
    assert(b.skip(a.len() as int + 1) =~= n);
}

/// Each interface becomes one scope, in order, with everything that was said of it.
pub proof fn law_interfaces_become_scopes(s: Seq<DnsScopeView>)
    ensures
        scopes_of(s).len() == s.len(),
        forall|i: int|
            0 <= i < s.len() ==> {
                let x = #[trigger] scopes_of(s)[i];
                &&& x.id == s[i].ifid
                &&& x.interface == s[i].name
                &&& x.servers == s[i].servers.filter_map(|t: Seq<char>| ip_of_text(encode_utf8(t)))
                &&& x.domains == domains_in(s[i].domains)
                &&& x.addresses == s[i].addresses.filter_map(|t: Seq<char>| prefix_of(encode_utf8(t)))
                &&& x.default_route == s[i].default_route
                &&& x.exclusive == s[i].exclusive
                &&& x.metric == s[i].metric
                &&& x.level == s[i].level
            },
{
    assert forall|i: int| 0 <= i < s.len() implies {
        let x = #[trigger] scopes_of(s)[i];
        &&& x.servers == s[i].servers.filter_map(|t: Seq<char>| ip_of_text(encode_utf8(t)))
        &&& x.addresses == s[i].addresses.filter_map(|t: Seq<char>| prefix_of(encode_utf8(t)))
    } by {
        law_servers_are_taken(s[i].servers);
        law_prefixes_are_taken(s[i].addresses);
        assert(scopes_of(s)[i] == scope_of(s[i]));
    }
}

/// The machine's name is what the network daemon said, and what the kernel has
/// only where it said nothing.
pub proof fn law_machine_name(said: Seq<char>, kernel: Option<Seq<char>>)
    ensures
        said.len() > 0 ==> machine_name(said, kernel) == Some(said),
        said.len() == 0 ==> machine_name(said, kernel) == kernel,
{
}

} // verus!

//! Which interface a name goes to.
use crate::dns::layout::{law_names_are_compared_without_case, spelled_alike};
use crate::dns::name::{ends_with, reverse_address, Labels};
use crate::engine::demotion::{healthy_first, sieve};
use crate::engine::scope::{
    best_match, bits_divisor, interface_of, longest, longest_from, lowest, lowest_from, match_from, named_from, route,
    same_subnet, servers_of, ClaimView, ScopeView,
};
use crate::engine::search_laws::{can_be_asked, takes_all};
use crate::time::Instant;
use vstd::prelude::*;

verus! {

// Suffixes.

/// Whether the last labels of a name are those of a domain, but for the case of
/// letters.
pub open spec fn is_in(name: Labels, domain: Labels) -> bool {
    name.len() >= domain.len() && forall|i: int|
        0 <= i < domain.len() ==> spelled_alike(#[trigger] name[name.len() - domain.len() + i], domain[i])
}

/// A name ends with a domain exactly where its last labels are those of the
/// domain.
pub proof fn law_names_in_domains(name: Labels, domain: Labels)
    ensures
        ends_with(name, domain) <==> is_in(name, domain),
{
    if name.len() >= domain.len() {
        let k = name.len() - domain.len();
        let t = name.skip(k);
        law_names_are_compared_without_case(t, domain);
        if ends_with(name, domain) {
            assert forall|i: int| 0 <= i < domain.len() implies spelled_alike(
                #[trigger] name[name.len() - domain.len() + i],
                domain[i],
            ) by {
                assert(t[i] == name[k + i]);
                assert(spelled_alike(t[i], domain[i]));
            }
        }
        if is_in(name, domain) {
            assert forall|i: int| 0 <= i < t.len() implies spelled_alike(#[trigger] t[i], domain[i]) by {
                assert(t[i] == name[name.len() - domain.len() + i]);
            }
        }
    }
}

/// Whether the longest of the domains that a name is in has so many labels.
pub open spec fn is_longest(d: Seq<Labels>, name: Labels, n: nat) -> bool {
    &&& exists|i: int| 0 <= i < d.len() && is_in(name, #[trigger] d[i]) && d[i].len() == n
    &&& forall|i: int| 0 <= i < d.len() && is_in(name, #[trigger] d[i]) ==> d[i].len() <= n
}

proof fn lemma_longest_from(d: Seq<Labels>, name: Labels, i: int)
    requires
        0 <= i,
    ensures
        match longest_from(d, name, i) {
            Some(n) => (exists|k: int| i <= k < d.len() && is_in(name, #[trigger] d[k]) && d[k].len() == n)
                && forall|k: int| i <= k < d.len() && is_in(name, #[trigger] d[k]) ==> d[k].len() <= n,
            None => forall|k: int| i <= k < d.len() ==> !is_in(name, #[trigger] d[k]),
        },
    decreases d.len() - i,
{
    if i < d.len() {
        lemma_longest_from(d, name, i + 1);
        law_names_in_domains(name, d[i]);
        if is_in(name, d[i]) {
            assert(d[i].len() == d[i].len());
        }
    }
}

// Subnets.

/// A bit of an address, the first being the highest of the first byte.
pub open spec fn bit(a: Seq<u8>, k: int) -> int {
    let x = a[k / 8] as int;
    let r = k % 8;
    if r == 0 {
        x / 128 % 2
    } else if r == 1 {
        x / 64 % 2
    } else if r == 2 {
        x / 32 % 2
    } else if r == 3 {
        x / 16 % 2
    } else if r == 4 {
        x / 8 % 2
    } else if r == 5 {
        x / 4 % 2
    } else if r == 6 {
        x / 2 % 2
    } else {
        x % 2
    }
}

/// Whether two addresses agree in their first bits.
pub open spec fn agree(a: Seq<u8>, b: Seq<u8>, bits: int) -> bool {
    forall|k: int| 0 <= k < bits ==> #[trigger] bit(a, k) == bit(b, k)
}

proof fn lemma_byte_bits(a: Seq<u8>, b: Seq<u8>, w: int, n: int)
    requires
        0 <= w < a.len(),
        w < b.len(),
        0 <= n <= 8,
        forall|k: int| 8 * w <= k < 8 * w + n ==> #[trigger] bit(a, k) == bit(b, k),
    ensures
        1 <= n <= 7 ==> a[w] as int / bits_divisor(n) == b[w] as int / bits_divisor(n),
        n == 8 ==> a[w] == b[w],
    decreases n,
{
    if n > 0 {
        lemma_byte_bits(a, b, w, n - 1);
        let k = 8 * w + n - 1;
        assert(k / 8 == w && k % 8 == n - 1);
        assert(bit(a, k) == bit(b, k));
    }
}

proof fn lemma_bits_byte(a: Seq<u8>, b: Seq<u8>, w: int, n: int, k: int)
    requires
        0 <= w < a.len(),
        w < b.len(),
        1 <= n <= 8,
        8 * w <= k < 8 * w + n,
        n <= 7 ==> a[w] as int / bits_divisor(n) == b[w] as int / bits_divisor(n),
        n == 8 ==> a[w] == b[w],
    ensures
        bit(a, k) == bit(b, k),
    decreases n,
{
    if k < 8 * w + n - 1 {
        lemma_bits_byte(a, b, w, n - 1, k);
    } else {
        assert(k / 8 == w && k % 8 == n - 1);
    }
}

/// Two addresses are in one subnet where they are of one family and agree in as
/// many of their first bits as the prefix says, or in all of them where it says
/// more.
pub proof fn law_subnets(a: Seq<u8>, prefix: u8, b: Seq<u8>)
    ensures
        same_subnet(a, prefix, b) <==> a.len() == b.len() && agree(
            a,
            b,
            if prefix < 8 * a.len() {
                prefix as int
            } else {
                8 * a.len() as int
            },
        ),
{
    let bits = if prefix < 8 * a.len() {
        prefix as int
    } else {
        8 * a.len() as int
    };
    let whole = bits / 8;
    let rest = bits % 8;
    if a.len() == b.len() {
        if agree(a, b, bits) {
            assert forall|w: int| 0 <= w < whole implies a[w] == b[w] by {
                lemma_byte_bits(a, b, w, 8);
            }
            assert(a.take(whole) =~= b.take(whole));
            if rest > 0 {
                lemma_byte_bits(a, b, whole, rest);
            }
        }
        if same_subnet(a, prefix, b) {
            assert forall|k: int| 0 <= k < bits implies #[trigger] bit(a, k) == bit(b, k) by {
                let w = k / 8;
                if w < whole {
                    assert(a.take(whole)[w] == b.take(whole)[w]);
                    lemma_bits_byte(a, b, w, 8, k);
                } else {
                    lemma_bits_byte(a, b, whole, rest, k);
                }
            }
        }
    }
}

// The one that takes a name.

/// Whether an interface is the first of those with the lowest metric of all with
/// a property.
pub open spec fn is_first_lowest(s: Seq<ScopeView>, p: spec_fn(ScopeView) -> bool, j: int) -> bool {
    &&& 0 <= j < s.len()
    &&& p(s[j])
    &&& forall|k: int| 0 <= k < s.len() && p(#[trigger] s[k]) ==> s[j].metric <= s[k].metric
    &&& forall|k: int| 0 <= k < j && p(#[trigger] s[k]) ==> s[j].metric < s[k].metric
}

proof fn lemma_lowest_from(s: Seq<ScopeView>, c: ClaimView, i: int)
    requires
        0 <= i,
    ensures
        match lowest_from(s, c, i) {
            Some(j) => i <= j < s.len() && s[j].claims(c) && (forall|k: int|
                i <= k < s.len() && (#[trigger] s[k]).claims(c) ==> s[j].metric <= s[k].metric) && (forall|k: int|
                i <= k < j && (#[trigger] s[k]).claims(c) ==> s[j].metric < s[k].metric),
            None => forall|k: int| i <= k < s.len() ==> !(#[trigger] s[k]).claims(c),
        },
    decreases s.len() - i,
{
    if i < s.len() {
        lemma_lowest_from(s, c, i + 1);
    }
}

/// Whether an interface has a subnet that holds an address.
pub open spec fn holds(x: ScopeView, a: Seq<u8>) -> bool {
    exists|i: int|
        #![trigger x.addresses[i]]
        0 <= i < x.addresses.len() && x.addresses[i].0.len() == a.len() && agree(
            x.addresses[i].0,
            a,
            if x.addresses[i].1 < 8 * a.len() {
                x.addresses[i].1 as int
            } else {
                8 * a.len() as int
            },
        )
}

proof fn lemma_holds(x: ScopeView, a: Seq<u8>)
    ensures
        x.contains(a) <==> holds(x, a),
{
    if x.contains(a) {
        let i = choose|i: int|
            0 <= i < x.addresses.len() && same_subnet((#[trigger] x.addresses[i]).0, x.addresses[i].1, a);
        law_subnets(x.addresses[i].0, x.addresses[i].1, a);
    }
    if holds(x, a) {
        let i = choose|i: int|
            #![trigger x.addresses[i]]
            0 <= i < x.addresses.len() && x.addresses[i].0.len() == a.len() && agree(
                x.addresses[i].0,
                a,
                if x.addresses[i].1 < 8 * a.len() {
                    x.addresses[i].1 as int
                } else {
                    8 * a.len() as int
                },
            );
        law_subnets(x.addresses[i].0, x.addresses[i].1, a);
    }
}

/// Whether an interface can be asked, and has a search domain that a name is in.
pub open spec fn has_domain(x: ScopeView, name: Labels) -> bool {
    can_be_asked(x) && exists|i: int| 0 <= i < x.domains.len() && is_in(name, #[trigger] x.domains[i])
}

/// Whether an interface is the one whose domain takes a name: none that can be
/// asked has a longer one, and it is the first with the lowest metric of those
/// with one as long.
pub open spec fn is_best(s: Seq<ScopeView>, name: Labels, j: int) -> bool {
    0 <= j < s.len() && can_be_asked(s[j]) && exists|n: nat| #[trigger]
        is_longest(s[j].domains, name, n) && (forall|k: int, m: nat|
            0 <= k < s.len() && can_be_asked(#[trigger] s[k]) && #[trigger] is_longest(s[k].domains, name, m) ==> m < n
                || (m == n && s[j].metric <= s[k].metric && (k < j ==> s[j].metric < s[k].metric)))
}

proof fn lemma_longest(d: Seq<Labels>, name: Labels)
    ensures
        match longest(d, name) {
            Some(n) => is_longest(d, name, n),
            None => forall|k: int| 0 <= k < d.len() ==> !is_in(name, #[trigger] d[k]),
        },
        forall|m: nat| #[trigger] is_longest(d, name, m) ==> longest(d, name) == Some(m),
{
    lemma_longest_from(d, name, 0);
    assert forall|m: nat| #[trigger] is_longest(d, name, m) implies longest(d, name) == Some(m) by {
        let i = choose|i: int| 0 <= i < d.len() && is_in(name, #[trigger] d[i]) && d[i].len() == m;
        let n = longest(d, name)->0;
        let k = choose|k: int| 0 <= k < d.len() && is_in(name, #[trigger] d[k]) && d[k].len() == n;
        assert(d[k].len() <= m);
        assert(d[i].len() <= n);
    }
}

proof fn lemma_match_from(s: Seq<ScopeView>, name: Labels, i: int)
    requires
        0 <= i,
    ensures
        match match_from(s, name, i) {
            Some(j) => i <= j < s.len() && s[j].is_up() && longest(s[j].domains, name) is Some && forall|k: int|
                i <= k < s.len() && (#[trigger] s[k]).is_up() ==> (longest(s[k].domains, name) matches Some(m) ==> m
                    < longest(s[j].domains, name)->0 || (m == longest(s[j].domains, name)->0 && s[j].metric
                    <= s[k].metric && (k < j ==> s[j].metric < s[k].metric))),
            None => forall|k: int|
                i <= k < s.len() && (#[trigger] s[k]).is_up() ==> longest(s[k].domains, name) is None,
        },
    decreases s.len() - i,
{
    if i < s.len() {
        lemma_match_from(s, name, i + 1);
    }
}

proof fn lemma_best(s: Seq<ScopeView>, name: Labels)
    ensures
        match best_match(s, name) {
            Some(j) => is_best(s, name, j) && has_domain(s[j], name),
            None => forall|k: int| 0 <= k < s.len() ==> !has_domain(#[trigger] s[k], name),
        },
{
    lemma_match_from(s, name, 0);
    match best_match(s, name) {
        Some(j) => {
            lemma_longest(s[j].domains, name);
            let n = longest(s[j].domains, name)->0;
            assert(is_longest(s[j].domains, name, n));
            assert forall|k: int, m: nat|
                0 <= k < s.len() && can_be_asked(#[trigger] s[k]) && #[trigger] is_longest(
                    s[k].domains,
                    name,
                    m,
                ) implies m < n || (m == n && s[j].metric <= s[k].metric && (k < j ==> s[j].metric < s[k].metric)) by {
                lemma_longest(s[k].domains, name);
                assert(s[k].is_up());
            }
        },
        None => {
            assert forall|k: int| 0 <= k < s.len() implies !has_domain(#[trigger] s[k], name) by {
                lemma_longest(s[k].domains, name);
                if can_be_asked(s[k]) {
                    assert(s[k].is_up());
                }
            }
        },
    }
}

/// A name goes to one interface, and the rules come in this order: one that takes
/// every name; the one with the longest domain that the name is in; for the
/// reverse-mapping name of an address, one with a subnet that holds the address;
/// one that claims the default route; any that can be asked; and where none can
/// be, the servers of the settings. Of several the first with the lowest metric
/// is it.
pub proof fn law_where_names_go(s: Seq<ScopeView>, fallback: Seq<Seq<u8>>, name: Labels)
    ensures
        ({
            let all = |x: ScopeView| takes_all(x);
            let holder = |x: ScopeView|
                can_be_asked(x) && reverse_address(name) is Some && holds(x, reverse_address(name)->0);
            let default = |x: ScopeView| can_be_asked(x) && x.default_route;
            let any = |x: ScopeView| can_be_asked(x);
            let to = route(s, fallback, name);
            if exists|k: int| 0 <= k < s.len() && takes_all(#[trigger] s[k]) {
                exists|j: int| #[trigger] is_first_lowest(s, all, j) && to == Some(s[j].id)
            } else if exists|k: int| 0 <= k < s.len() && has_domain(#[trigger] s[k], name) {
                exists|j: int| #[trigger] is_best(s, name, j) && to == Some(s[j].id)
            } else if exists|k: int| 0 <= k < s.len() && holder(#[trigger] s[k]) {
                exists|j: int| #[trigger] is_first_lowest(s, holder, j) && to == Some(s[j].id)
            } else if exists|k: int| 0 <= k < s.len() && default(#[trigger] s[k]) {
                exists|j: int| #[trigger] is_first_lowest(s, default, j) && to == Some(s[j].id)
            } else if exists|k: int| 0 <= k < s.len() && any(#[trigger] s[k]) {
                exists|j: int| #[trigger] is_first_lowest(s, any, j) && to == Some(s[j].id)
            } else if fallback.len() > 0 {
                to == Some("fallback"@)
            } else {
                to is None
            }
        }),
{
    let all = |x: ScopeView| takes_all(x);
    let holder = |x: ScopeView| can_be_asked(x) && reverse_address(name) is Some && holds(x, reverse_address(name)->0);
    let default = |x: ScopeView| can_be_asked(x) && x.default_route;
    let any = |x: ScopeView| can_be_asked(x);
    lemma_lowest_from(s, ClaimView::Exclusive, 0);
    assert forall|k: int| 0 <= k < s.len() implies s[k].claims(ClaimView::Exclusive) == all(#[trigger] s[k]) by {}
    if let Some(j) = lowest(s, ClaimView::Exclusive) {
        assert(all(s[j]));
        assert(is_first_lowest(s, all, j));
    }
    lemma_best(s, name);
    if let Some(j) = best_match(s, name) {
        assert(has_domain(s[j], name));
    }
    if let Some(a) = reverse_address(name) {
        lemma_lowest_from(s, ClaimView::Holds(a), 0);
        assert forall|k: int| 0 <= k < s.len() implies s[k].claims(ClaimView::Holds(a)) == holder(#[trigger] s[k]) by {
            lemma_holds(s[k], a);
        }
        if let Some(j) = lowest(s, ClaimView::Holds(a)) {
            assert(holder(s[j]));
            assert(is_first_lowest(s, holder, j));
        }
    }
    lemma_lowest_from(s, ClaimView::DefaultRoute, 0);
    assert forall|k: int| 0 <= k < s.len() implies s[k].claims(ClaimView::DefaultRoute) == default(#[trigger] s[k]) by {}
    if let Some(j) = lowest(s, ClaimView::DefaultRoute) {
        assert(default(s[j]));
        assert(is_first_lowest(s, default, j));
    }
    lemma_lowest_from(s, ClaimView::Any, 0);
    assert forall|k: int| 0 <= k < s.len() implies s[k].claims(ClaimView::Any) == any(#[trigger] s[k]) by {}
    if let Some(j) = lowest(s, ClaimView::Any) {
        assert(any(s[j]));
        assert(is_first_lowest(s, any, j));
    }
}

// Servers.

proof fn lemma_named(s: Seq<ScopeView>, id: Seq<char>, k: int, i: int)
    requires
        0 <= k <= i <= s.len(),
        forall|j: int| 0 <= j < i ==> (#[trigger] s[j]).id != id,
        i < s.len() ==> s[i].id == id,
    ensures
        named_from(s, id, k) == if i < s.len() {
            Some(i)
        } else {
            None
        },
    decreases i - k,
{
    if k < i {
        lemma_named(s, id, k + 1, i);
    }
}

/// The servers of a scope are those of the first interface of that id, and the
/// interface's name is told with what they answer; under the name `fallback` they
/// are those of the settings; and there are none where there is no such
/// interface.
pub proof fn law_servers_of_a_scope(s: Seq<ScopeView>, fallback: Seq<Seq<u8>>, id: Seq<char>, i: int)
    requires
        0 <= i <= s.len(),
        forall|j: int| 0 <= j < i ==> (#[trigger] s[j]).id != id,
        i < s.len() ==> s[i].id == id,
    ensures
        servers_of(s, fallback, "fallback"@) == fallback,
        id != "fallback"@ && i < s.len() ==> servers_of(s, fallback, id) == s[i].servers,
        id != "fallback"@ && i == s.len() ==> servers_of(s, fallback, id).len() == 0,
        i < s.len() ==> interface_of(s, id) == Some(s[i].interface),
        i == s.len() ==> interface_of(s, id) is None,
{
    lemma_named(s, id, 0, i);
}

/// The servers that are not demoted come first, and then those that are, each in
/// the order in which they are listed. A server is demoted until the moment that
/// stands for it.
pub proof fn law_healthy_servers_come_first(s: Seq<Seq<u8>>, m: Map<Seq<u8>, Instant>, now: Instant)
    ensures
        healthy_first(s, m, now) == s.filter(|x: Seq<u8>| !(m.contains_key(x) && now < m[x])) + s.filter(
            |x: Seq<u8>| m.contains_key(x) && now < m[x],
        ),
{
    lemma_sieve(s, m, now);
}

proof fn lemma_sieve(s: Seq<Seq<u8>>, m: Map<Seq<u8>, Instant>, now: Instant)
    ensures
        sieve(s, m, now, false) == s.filter(|x: Seq<u8>| !(m.contains_key(x) && now < m[x])),
        sieve(s, m, now, true) == s.filter(|x: Seq<u8>| m.contains_key(x) && now < m[x]),
    decreases s.len(),
{
    reveal(Seq::filter);
    if s.len() > 0 {
        lemma_sieve(s.drop_last(), m, now);
    }
}

} // verus!

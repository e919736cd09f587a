//! What is answered without any network.
use crate::dns::name::{
    ends_with, fold, fold_label, law_reverse_names_are_unique, reverse_address, reverse_name, same_name, Labels,
};
use crate::dns::record::{RDataView, RecordView};
use crate::engine::answer::{
    address_records, host_from, host_with_from, local_name, localhost_name, loopbacks, recased, synthetic, AnswerView,
    Hosts, Source,
};
use crate::engine::scope::{all_addresses, outer_addresses, own_addresses, unrepeated, Level, ScopeView};
use crate::protocol::Outcome;
use crate::text::lower;
use vstd::prelude::*;

verus! {

/// The record at a name that tells an address, where a question asks for it: of
/// type 1 for four bytes and of type 28 for sixteen, either of which a question
/// of type 255 asks for too. Its class is 1, and it is not to be kept.
pub open spec fn told(name: Labels, a: Seq<u8>, asked: u16) -> Option<RecordView> {
    if a.len() == 4 && (asked == 1 || asked == 255) {
        Some(RecordView { name, rtype: 1, class: 1, ttl: 0, rdata: RDataView::A(a) })
    } else if a.len() == 16 && (asked == 28 || asked == 255) {
        Some(RecordView { name, rtype: 28, class: 1, ttl: 0, rdata: RDataView::Aaaa(a) })
    } else {
        None
    }
}

/// Every address of a family that is asked for is told, in a record of its own,
/// in order; and no other is.
pub proof fn law_every_address_is_told(name: Labels, a: Seq<Seq<u8>>, asked: u16)
    ensures
        address_records(name, a, asked) == a.filter_map(|x: Seq<u8>| told(name, x, asked)),
        address_records(name, a, asked).len() == a.filter(|x: Seq<u8>| told(name, x, asked) is Some).len(),
        forall|i: int|
            #![trigger a[i]]
            0 <= i < a.len() && told(name, a[i], asked) is Some ==> address_records(name, a, asked).contains(
                told(name, a[i], asked)->0,
            ),
    decreases a.len(),
{
    let f = |x: Seq<u8>| told(name, x, asked);
    let p = |x: Seq<u8>| told(name, x, asked) is Some;
    reveal(Seq::filter);
    if a.len() > 0 {
        let rest = a.drop_last();
        law_every_address_is_told(name, rest, asked);
        assert(address_records(name, a, asked) =~= a.filter_map(f));
        let all = address_records(name, a, asked);
        assert forall|i: int|
            #![trigger a[i]]
            0 <= i < a.len() && told(name, a[i], asked) is Some implies all.contains(told(name, a[i], asked)->0) by {
            if i < rest.len() {
                assert(rest[i] == a[i]);
                let before = address_records(name, rest, asked);
                let k = choose|k: int| 0 <= k < before.len() && before[k] == told(name, a[i], asked)->0;
                assert(all[k] == before[k]);
            } else {
                assert(all[all.len() - 1] == told(name, a[i], asked)->0);
            }
        }
    }
}

// Which names are local.

/// Whether a label is a word, in any case.
pub open spec fn spells(l: Seq<u8>, word: Seq<u8>) -> bool {
    l.len() == word.len() && forall|i: int| 0 <= i < l.len() ==> lower(#[trigger] l[i]) == word[i]
}

/// The ASCII bytes of `localhost`.
pub open spec fn localhost_word() -> Seq<u8> {
    seq![108u8, 111, 99, 97, 108, 104, 111, 115, 116]
}

/// The ASCII bytes of `local`.
pub open spec fn local_word() -> Seq<u8> {
    seq![108u8, 111, 99, 97, 108]
}

/// Whether the last label of a name is a word.
pub open spec fn is_under(name: Labels, word: Seq<u8>) -> bool {
    name.len() > 0 && spells(name[name.len() - 1], word)
}

proof fn lemma_ends_with_word(name: Labels, word: Seq<u8>)
    requires
        forall|i: int| 0 <= i < word.len() ==> lower(#[trigger] word[i]) == word[i],
    ensures
        ends_with(name, seq![word]) <==> is_under(name, word),
{
    let w = seq![word];
    if name.len() > 0 {
        let t = name.skip(name.len() - 1);
        let l = name[name.len() - 1];
        assert(t =~= seq![l]);
        let a = fold(t);
        let b = fold(w);
        if a == b {
            assert(a[0] == b[0]);
            let x = fold_label(l);
            let y = fold_label(word);
            assert(x.len() == y.len());
            assert forall|i: int| 0 <= i < l.len() implies lower(#[trigger] l[i]) == word[i] by {
                assert(x[i] == y[i]);
                assert(lower(word[i]) == word[i]);
            }
        }
        if spells(l, word) {
            assert(fold_label(l) =~= fold_label(word)) by {
                assert forall|i: int| 0 <= i < l.len() implies lower(l[i]) == lower(word[i]) by {
                    assert(lower(l[i]) == word[i]);
                }
            }
            assert(a =~= b);
        }
    }
}

proof fn lemma_words()
    ensures
        forall|name: Labels|
            #![trigger is_under(name, localhost_word())]
            ends_with(name, localhost_name()) <==> is_under(
                name,
                localhost_word(),
            ),
        forall|name: Labels|
            #![trigger is_under(name, local_word())]
            ends_with(name, local_name()) <==> is_under(name, local_word()),
{
    assert(localhost_name() =~= seq![localhost_word()]) by {
        assert(localhost_name()[0] =~= localhost_word());
    }
    assert(local_name() =~= seq![local_word()]) by {
        assert(local_name()[0] =~= local_word());
    }
    assert forall|name: Labels|
        #![trigger is_under(name, localhost_word())]
        ends_with(name, localhost_name()) <==> is_under(
        name,
        localhost_word(),
    ) by {
        lemma_ends_with_word(name, localhost_word());
    }
    assert forall|name: Labels|
        #![trigger is_under(name, local_word())]
        ends_with(name, local_name()) <==> is_under(name, local_word()) by {
        lemma_ends_with_word(name, local_word());
    }
}

/// An answer with records that was made here and not asked for: found, at the
/// name itself.
pub open spec fn made_here(a: AnswerView, name: Labels, records: Seq<RecordView>, source: Source) -> bool {
    &&& a.outcome == Outcome::Found
    &&& a.records == records
    &&& a.source == source
    &&& a.server is None
    &&& a.interface is None
    &&& a.rcode == 0
    &&& a.resolved_name == Some(name)
}

/// The loopback addresses, one of each family.
pub open spec fn both_loopbacks() -> Seq<Seq<u8>> {
    seq![seq![127u8, 0, 0, 1], seq![0u8, 0, 0, 0, 0, 0, 0, 0, 0, 0, 0, 0, 0, 0, 0, 1]]
}

proof fn lemma_loopbacks()
    ensures
        loopbacks() == both_loopbacks(),
{
    assert(loopbacks()[0] =~= both_loopbacks()[0]);
    assert(loopbacks()[1] =~= both_loopbacks()[1]);
    assert(loopbacks() =~= both_loopbacks());
}

/// `localhost` and every name under it are the loopback addresses, whatever else
/// is known.
pub proof fn law_localhost_is_loopback(
    s: Seq<ScopeView>,
    hostname: Option<Labels>,
    hosts: Hosts,
    name: Labels,
    asked: u16,
)
    requires
        is_under(name, localhost_word()),
    ensures
        synthetic(s, hostname, hosts, name, asked) matches Some(a) && made_here(
            a,
            name,
            both_loopbacks().filter_map(|x: Seq<u8>| told(name, x, asked)),
            Source::Synthetic,
        ),
{
    lemma_words();
    lemma_loopbacks();
    law_every_address_is_told(name, both_loopbacks(), asked);
}

proof fn lemma_host_from(h: Hosts, name: Labels, k: int, i: int)
    requires
        0 <= k <= i <= h.len(),
        forall|j: int| 0 <= j < i ==> !same_name((#[trigger] h[j]).0, name),
        i < h.len() ==> same_name(h[i].0, name),
    ensures
        host_from(h, name, k) == if i < h.len() {
            Some(h[i].1)
        } else {
            None
        },
    decreases i - k,
{
    if k < i {
        lemma_host_from(h, name, k + 1, i);
    }
}

/// A static name is told with all its addresses; a name that is there twice with
/// those of the first.
pub proof fn law_static_names_are_told(
    s: Seq<ScopeView>,
    hostname: Option<Labels>,
    hosts: Hosts,
    name: Labels,
    asked: u16,
    i: int,
)
    requires
        !is_under(name, localhost_word()),
        0 <= i < hosts.len(),
        same_name(hosts[i].0, name),
        forall|j: int| 0 <= j < i ==> !same_name((#[trigger] hosts[j]).0, name),
    ensures
        synthetic(s, hostname, hosts, name, asked) matches Some(a) && made_here(
            a,
            name,
            hosts[i].1.filter_map(|x: Seq<u8>| told(name, x, asked)),
            Source::Hosts,
        ),
{
    lemma_words();
    lemma_host_from(hosts, name, 0, i);
    law_every_address_is_told(name, hosts[i].1, asked);
}

/// The machine's own name is told with the machine's addresses, or with the
/// loopback ones where it has no others.
pub proof fn law_own_name_is_told(
    s: Seq<ScopeView>,
    own: Labels,
    hosts: Hosts,
    name: Labels,
    asked: u16,
)
    requires
        !is_under(name, localhost_word()),
        forall|j: int| 0 <= j < hosts.len() ==> !same_name((#[trigger] hosts[j]).0, name),
        same_name(own, name),
    ensures
        synthetic(s, Some(own), hosts, name, asked) matches Some(a) && made_here(
            a,
            name,
            (if own_addresses(s).len() > 0 {
                own_addresses(s)
            } else {
                both_loopbacks()
            }).filter_map(|x: Seq<u8>| told(name, x, asked)),
            Source::Synthetic,
        ),
{
    lemma_words();
    lemma_loopbacks();
    lemma_host_from(hosts, name, 0, hosts.len() as int);
    law_every_address_is_told(name, both_loopbacks(), asked);
    law_every_address_is_told(name, own_addresses(s), asked);
}

/// Any other name under `local` is absent.
pub proof fn law_local_names_are_absent(
    s: Seq<ScopeView>,
    hostname: Option<Labels>,
    hosts: Hosts,
    name: Labels,
    asked: u16,
)
    requires
        !is_under(name, localhost_word()),
        forall|j: int| 0 <= j < hosts.len() ==> !same_name((#[trigger] hosts[j]).0, name),
        hostname matches Some(own) ==> !same_name(own, name),
        is_under(name, local_word()),
    ensures
        synthetic(s, hostname, hosts, name, asked) matches Some(a) && a.outcome == Outcome::NotFound && a.records.len()
            == 0 && a.source == Source::Synthetic && a.server is None && a.interface is None,
{
    lemma_words();
    lemma_host_from(hosts, name, 0, hosts.len() as int);
}

// Reverse names.

/// The record that names an address.
pub open spec fn names_it(name: Labels, target: Labels) -> RecordView {
    RecordView { name, rtype: 12, class: 1, ttl: 0, rdata: RDataView::Ptr(target) }
}

proof fn lemma_host_with(h: Hosts, a: Seq<u8>, k: int, i: int)
    requires
        0 <= k <= i <= h.len(),
        forall|j: int| 0 <= j < i ==> !(#[trigger] h[j]).1.contains(a),
        i < h.len() ==> h[i].1.contains(a),
    ensures
        host_with_from(h, a, k) == if i < h.len() {
            Some(h[i].0)
        } else {
            None
        },
    decreases i - k,
{
    if k < i {
        lemma_host_with(h, a, k + 1, i);
    }
}

/// Whether a name is none that is known for itself.
pub open spec fn is_plain(hostname: Option<Labels>, hosts: Hosts, name: Labels) -> bool {
    &&& !is_under(name, localhost_word())
    &&& !is_under(name, local_word())
    &&& forall|j: int| 0 <= j < hosts.len() ==> !same_name((#[trigger] hosts[j]).0, name)
    &&& hostname matches Some(own) ==> !same_name(own, name)
}

/// The reverse-mapping name of an address is told the name of the address, where
/// a question of type 12 or 255 asks for it: `localhost` for a loopback address,
/// or else the first static name with the address, or else the machine's own for
/// an address of the machine.
pub proof fn law_known_addresses_are_named(
    s: Seq<ScopeView>,
    hostname: Option<Labels>,
    hosts: Hosts,
    name: Labels,
    asked: u16,
    a: Seq<u8>,
    i: int,
)
    requires
        a.len() == 4 || a.len() == 16,
        same_name(name, reverse_name(a)),
        is_plain(hostname, hosts, name),
        asked == 12 || asked == 255,
        0 <= i <= hosts.len(),
        forall|j: int| 0 <= j < i ==> !(#[trigger] hosts[j]).1.contains(a),
        i < hosts.len() ==> hosts[i].1.contains(a),
    ensures
        ({
            let r = synthetic(s, hostname, hosts, name, asked);
            let loopback = (a.len() == 4 && a[0] == 127) || a == both_loopbacks()[1];
            if loopback {
                r matches Some(x) && made_here(
                    x,
                    name,
                    seq![names_it(name, seq![localhost_word()])],
                    Source::Synthetic,
                )
            } else if i < hosts.len() {
                r matches Some(x) && made_here(x, name, seq![names_it(name, hosts[i].0)], Source::Hosts)
            } else if hostname is Some && own_addresses(s).contains(a) {
                r matches Some(x) && made_here(x, name, seq![names_it(name, hostname->0)], Source::Synthetic)
            } else {
                r is None
            }
        }),
{
    lemma_words();
    lemma_loopbacks();
    law_reverse_names_are_unique(name, a);
    lemma_host_from(hosts, name, 0, hosts.len() as int);
    lemma_host_with(hosts, a, 0, i);
    assert(localhost_name() =~= seq![localhost_word()]) by {
        assert(localhost_name()[0] =~= localhost_word());
    }
    assert(loopbacks()[1] == both_loopbacks()[1]);
}

/// Nothing else is answered here.
pub proof fn law_other_names_are_asked(
    s: Seq<ScopeView>,
    hostname: Option<Labels>,
    hosts: Hosts,
    name: Labels,
    asked: u16,
)
    requires
        is_plain(hostname, hosts, name),
        asked != 12 && asked != 255 || reverse_address(name) is None,
    ensures
        synthetic(s, hostname, hosts, name, asked) is None,
{
    lemma_words();
    lemma_host_from(hosts, name, 0, hosts.len() as int);
}

// The machine's addresses.

/// The addresses that an interface gives the machine: where it has come as far
/// as addresses, those of them that are not loopback ones.
pub open spec fn interface_gives(x: ScopeView) -> Seq<Seq<u8>> {
    if x.level == Level::Addressed || x.level == Level::Routed {
        x.addresses.filter_map(
            |p: (Seq<u8>, u8)|
                if (p.0.len() == 4 && p.0[0] == 127) || p.0 == both_loopbacks()[1] {
                    None
                } else {
                    Some(p.0)
                },
        )
    } else {
        Seq::empty()
    }
}

proof fn lemma_outer(a: Seq<(Seq<u8>, u8)>)
    ensures
        outer_addresses(a) == a.filter_map(
            |p: (Seq<u8>, u8)|
                if (p.0.len() == 4 && p.0[0] == 127) || p.0 == both_loopbacks()[1] {
                    None
                } else {
                    Some(p.0)
                },
        ),
    decreases a.len(),
{
    lemma_loopbacks();
    assert(loopbacks()[1] == both_loopbacks()[1]);
    let f = |p: (Seq<u8>, u8)|
        if (p.0.len() == 4 && p.0[0] == 127) || p.0 == both_loopbacks()[1] {
            None
        } else {
            Some(p.0)
        };
    if a.len() > 0 {
        lemma_outer(a.drop_last());
        assert(outer_addresses(a) =~= a.filter_map(f));
    }
}

proof fn lemma_all_addresses(s: Seq<ScopeView>)
    ensures
        all_addresses(s) == s.flat_map(|x: ScopeView| interface_gives(x)),
    decreases s.len(),
{
    let f = |x: ScopeView| interface_gives(x);
    if s.len() == 0 {
        assert(s.map_values(f) =~= Seq::empty());
        assert(s.flat_map(f) =~= Seq::empty());
    } else {
        let rest = s.drop_last();
        lemma_all_addresses(rest);
        lemma_outer(s.last().addresses);
        assert(s.map_values(f) =~= rest.map_values(f).push(interface_gives(s.last())));
        rest.map_values(f).lemma_flatten_push(interface_gives(s.last()));
        assert(all_addresses(s) =~= s.flat_map(f));
    }
}

proof fn lemma_unrepeated(a: Seq<Seq<u8>>)
    ensures
        forall|x: Seq<u8>| #[trigger] unrepeated(a).contains(x) <==> a.contains(x),
        forall|k: int| 0 < k < unrepeated(a).len() ==> #[trigger] unrepeated(a)[k] != unrepeated(a)[k - 1],
        (forall|k: int| 0 < k < a.len() ==> #[trigger] a[k] != a[k - 1]) ==> unrepeated(a) == a,
        a.len() > 0 ==> unrepeated(a).len() > 0 && unrepeated(a).last() == a.last(),
    decreases a.len(),
{
    if a.len() > 0 {
        let rest = a.drop_last();
        let u = unrepeated(rest);
        lemma_unrepeated(rest);
        assert(a =~= rest.push(a.last()));
        assert forall|x: Seq<u8>| #[trigger] unrepeated(a).contains(x) <==> a.contains(x) by {
            lemma_push_has(rest, a.last(), x);
            lemma_push_has(u, a.last(), x);
            assert(u.contains(x) <==> rest.contains(x));
            if a.len() > 1 && a.last() == a[a.len() - 2] {
                assert(rest[rest.len() - 1] == a.last());
                assert(rest.contains(a.last()));
            }
        }
        if rest.len() > 0 {
            assert(rest.last() == a[a.len() - 2]);
        }
        if forall|k: int| 0 < k < a.len() ==> #[trigger] a[k] != a[k - 1] {
            assert forall|k: int| 0 < k < rest.len() implies #[trigger] rest[k] != rest[k - 1] by {
                assert(a[k] != a[k - 1]);
            }
            if a.len() > 1 {
                assert(a[a.len() - 1] != a[a.len() - 2]);
            }
            assert(unrepeated(a) =~= a);
        }
        assert forall|k: int| 0 < k < unrepeated(a).len() implies #[trigger] unrepeated(a)[k] != unrepeated(a)[k
            - 1] by {
            if k < u.len() {
                assert(u[k] != u[k - 1]);
            } else {
                assert(u[k - 1] == u.last());
            }
        }
    }
}

/// The addresses of the machine are those that its interfaces give it, one
/// interface after the other, but for one that repeats the one before it.
pub proof fn law_own_addresses(s: Seq<ScopeView>)
    ensures
        ({
            let all = s.flat_map(|x: ScopeView| interface_gives(x));
            let own = own_addresses(s);
            &&& forall|x: Seq<u8>| #[trigger] own.contains(x) <==> all.contains(x)
            &&& forall|k: int| 0 < k < own.len() ==> #[trigger] own[k] != own[k - 1]
            &&& (forall|k: int| 0 < k < all.len() ==> #[trigger] all[k] != all[k - 1]) ==> own == all
        }),
{
    lemma_all_addresses(s);
    lemma_unrepeated(all_addresses(s));
}

// What a server's records are told as.

/// What a record is told as: not at all where its class is not 1; in the case
/// that was asked for where it is at the name that was; and otherwise as it came.
pub open spec fn told_as(r: RecordView, name: Labels) -> Option<RecordView> {
    if r.class != 1 {
        None
    } else if same_name(r.name, name) {
        Some(RecordView { name, rtype: r.rtype, class: r.class, ttl: r.ttl, rdata: r.rdata })
    } else {
        Some(r)
    }
}

/// Every record of class 1 is told, in order, in the case that was asked for.
pub proof fn law_every_record_is_told(r: Seq<RecordView>, name: Labels)
    ensures
        recased(r, name) == r.filter_map(|x: RecordView| told_as(x, name)),
    decreases r.len(),
{
    let f = |x: RecordView| told_as(x, name);
    if r.len() > 0 {
        law_every_record_is_told(r.drop_last(), name);
        assert(recased(r, name) =~= r.filter_map(f));
    }
}

pub proof fn lemma_push_has<A>(v: Seq<A>, x: A, y: A)
    ensures
        v.push(x).contains(y) <==> v.contains(y) || x == y,
{
    let w = v.push(x);
    if v.contains(y) {
        let k = choose|k: int| 0 <= k < v.len() && v[k] == y;
        assert(w[k] == y);
    }
    if w.contains(y) {
        let k = choose|k: int| 0 <= k < w.len() && w[k] == y;
        if k < v.len() {
            assert(v[k] == y);
        }
    }
    assert(w[v.len() as int] == x);
}

} // verus!

//! What a lookup of addresses comes to.
use crate::dns::name::{same_name, Labels};
use crate::dns::record::{RDataView, RecordView};
use crate::engine::answer::{
    addresses_at, alias_from, canonical, combined, end_of_chain, gathered, has_type, AnswerView, Results, Source,
};
use crate::protocol::Outcome;
use vstd::prelude::*;

verus! {

// The addresses at a name.

/// The address and TTL of a record that is at a name and of a family's type: 1
/// for an IPv4 address, 28 for an IPv6 address.
pub open spec fn address_in(r: RecordView, name: Labels, t: u16) -> Option<(Seq<u8>, u32)> {
    match r.rdata {
        RDataView::A(a) => if t == 1 && same_name(r.name, name) {
            Some((a, r.ttl))
        } else {
            None
        },
        RDataView::Aaaa(a) => if t == 28 && same_name(r.name, name) {
            Some((a, r.ttl))
        } else {
            None
        },
        _ => None,
    }
}

/// Each record of the type at the name gives its address with its TTL, in
/// order, and nothing else does.
pub proof fn law_addresses_at_a_name(r: Seq<RecordView>, name: Labels, t: u16)
    ensures
        addresses_at(r, name, t) == r.filter_map(|x: RecordView| address_in(x, name, t)),
        forall|i: int|
            #![trigger r[i]]
            0 <= i < r.len() && address_in(r[i], name, t) is Some ==> addresses_at(r, name, t).contains(
                address_in(r[i], name, t)->0,
            ),
    decreases r.len(),
{
    let f = |x: RecordView| address_in(x, name, t);
    if r.len() > 0 {
        let rest = r.drop_last();
        law_addresses_at_a_name(rest, name, t);
        assert(r.filter_map(f) =~= match address_in(r.last(), name, t) {
            Some(a) => rest.filter_map(f) + seq![a],
            None => rest.filter_map(f),
        });
        assert(addresses_at(r, name, t) =~= r.filter_map(f));
        assert forall|i: int|
            #![trigger r[i]]
            0 <= i < r.len() && address_in(r[i], name, t) is Some implies addresses_at(r, name, t).contains(
            address_in(r[i], name, t)->0,
        ) by {
            let all = addresses_at(r, name, t);
            if i < rest.len() {
                assert(rest[i] == r[i]);
                let before = addresses_at(rest, name, t);
                let k = choose|k: int| 0 <= k < before.len() && before[k] == address_in(r[i], name, t)->0;
                assert(all[k] == before[k]);
            } else {
                assert(all[all.len() - 1] == address_in(r[i], name, t)->0);
            }
        }
    }
}

// The end of a chain of aliases.

/// Whether one name is an alias of another: `to` is where the first alias at
/// `from` leads.
pub open spec fn leads(r: Seq<RecordView>, from: Labels, to: Labels) -> bool {
    exists|i: int|
        #![trigger r[i]]
        0 <= i < r.len() && same_name(r[i].name, from) && r[i].rdata == RDataView::Cname(to) && forall|k: int|
            0 <= k < i ==> !(same_name((#[trigger] r[k]).name, from) && r[k].rdata is Cname)
}

/// Whether a chain ends at a name: a record of the type is there, or no alias is.
pub open spec fn ends_at(r: Seq<RecordView>, name: Labels, t: u16) -> bool {
    (exists|i: int| 0 <= i < r.len() && same_name((#[trigger] r[i]).name, name) && r[i].rtype == t) || (forall|i: int|
        0 <= i < r.len() ==> !(same_name((#[trigger] r[i]).name, name) && r[i].rdata is Cname))
}

/// Whether names follow each other by aliases, none before the last being an
/// end.
pub open spec fn is_chain(r: Seq<RecordView>, names: Seq<Labels>, t: u16) -> bool {
    forall|i: int|
        #![trigger names[i]]
        0 <= i < names.len() - 1 ==> leads(r, names[i], names[i + 1]) && !ends_at(r, names[i], t)
}

proof fn lemma_alias_from(r: Seq<RecordView>, name: Labels, i: int)
    requires
        0 <= i <= r.len(),
        forall|k: int| 0 <= k < i ==> !(same_name((#[trigger] r[k]).name, name) && r[k].rdata is Cname),
    ensures
        match alias_from(r, name, i) {
            Some(to) => leads(r, name, to),
            None => forall|k: int|
                0 <= k < r.len() ==> !(same_name((#[trigger] r[k]).name, name) && r[k].rdata is Cname),
        },
    decreases r.len() - i,
{
    if i < r.len() {
        if same_name(r[i].name, name) && r[i].rdata is Cname {
            assert(r[i].rdata == RDataView::Cname(alias_from(r, name, i)->0));
        } else {
            lemma_alias_from(r, name, i + 1);
        }
    }
}

proof fn lemma_chain(r: Seq<RecordView>, start: Labels, t: u16, steps: nat) -> (names: Seq<Labels>)
    ensures
        1 <= names.len() <= steps + 1,
        names[0] == start,
        names.last() == end_of_chain(r, start, t, steps),
        is_chain(r, names, t),
        names.len() < steps + 1 ==> ends_at(r, names.last(), t),
    decreases steps,
{
    if steps == 0 {
        seq![start]
    } else {
        lemma_alias_from(r, start, 0);
        match alias_from(r, start, 0) {
            None => seq![start],
            Some(target) => if has_type(r, start, t) {
                seq![start]
            } else {
                let more = lemma_chain(r, target, t, (steps - 1) as nat);
                let names = seq![start] + more;
                assert(!ends_at(r, start, t)) by {
                    let i = choose|i: int|
                        #![trigger r[i]]
                        0 <= i < r.len() && same_name(r[i].name, start) && r[i].rdata == RDataView::Cname(target);
                    assert(same_name(r[i].name, start) && r[i].rdata is Cname);
                }
                assert forall|i: int|
                    #![trigger names[i]]
                    0 <= i < names.len() - 1 implies leads(r, names[i], names[i + 1]) && !ends_at(r, names[i], t) by {
                    if i > 0 {
                        assert(names[i] == more[i - 1]);
                        assert(names[i + 1] == more[i]);
                    } else {
                        assert(names[1] == more[0]);
                    }
                }
                assert(names.last() == more.last());
                names
            },
        }
    }
}

/// Aliases are followed from the start, the first at each name, until a name has
/// a record of the type or no alias; and no more than sixteen of them.
pub proof fn law_aliases_are_followed(r: Seq<RecordView>, start: Labels, t: u16)
    ensures
        exists|names: Seq<Labels>| #[trigger]
            is_chain(r, names, t) && 1 <= names.len() <= 17 && names[0] == start && names.last() == canonical(
                r,
                start,
                t,
            ) && (names.len() < 17 ==> ends_at(r, names.last(), t)),
{
    let names = lemma_chain(r, start, t, 16);
    assert(is_chain(r, names, t));
}

// What the answers of a lookup come to together.

/// The addresses that one answer of a lookup gives: those of its type at the end
/// of the chain from where its records are, where something was found.
pub open spec fn gives(name: Labels, x: (u16, AnswerView)) -> Seq<(Seq<u8>, u32)> {
    if x.1.outcome == Outcome::Found {
        let start = match x.1.resolved_name {
            Some(n) => n,
            None => name,
        };
        let end = canonical(x.1.records, start, x.0);
        x.1.records.filter_map(|r: RecordView| address_in(r, end, x.0))
    } else {
        Seq::empty()
    }
}

/// How many addresses the answers give, one after the other.
pub open spec fn given(name: Labels, r: Results) -> nat
    decreases r.len(),
{
    if r.len() == 0 {
        0
    } else {
        given(name, r.drop_last()) + gives(name, r.last()).len()
    }
}

/// The addresses of a lookup are those that each of its answers gives, all of
/// them, with their TTLs, and in the order of the answers.
pub proof fn law_lookup_tells_all_addresses(name: Labels, r: Results)
    ensures
        combined(name, r).addresses == r.flat_map(|x: (u16, AnswerView)| gives(name, x)),
        combined(name, r).addresses.len() == given(name, r),
        forall|i: int, a: (Seq<u8>, u32)|
            0 <= i < r.len() && #[trigger] gives(name, r[i]).contains(a) ==> combined(name, r).addresses.contains(a),
    decreases r.len(),
{
    let f = |x: (u16, AnswerView)| gives(name, x);
    if r.len() == 0 {
        assert(r.map_values(f) =~= Seq::empty());
        assert(r.flat_map(f) =~= Seq::empty());
    } else {
        let rest = r.drop_last();
        let last = r.last();
        law_lookup_tells_all_addresses(name, rest);
        let start = last.1.resolved_name.unwrap_or(name);
        let end = canonical(last.1.records, start, last.0);
        law_addresses_at_a_name(last.1.records, end, last.0);
        let before = combined(name, rest).addresses;
        assert(combined(name, r).addresses =~= before + gives(name, last));
        assert(r.map_values(f) =~= rest.map_values(f).push(gives(name, last)));
        rest.map_values(f).lemma_flatten_push(gives(name, last));
        assert(r.flat_map(f) =~= before + gives(name, last));
        let all = combined(name, r).addresses;
        assert forall|i: int, a: (Seq<u8>, u32)|
            0 <= i < r.len() && #[trigger] gives(name, r[i]).contains(a) implies all.contains(a) by {
            if i < rest.len() {
                assert(rest[i] == r[i]);
                assert(gives(name, rest[i]).contains(a));
                let k = choose|k: int| 0 <= k < before.len() && before[k] == a;
                assert(all[k] == a);
            } else {
                let g = gives(name, last);
                let k = choose|k: int| 0 <= k < g.len() && g[k] == a;
                assert(all[before.len() + k] == a);
            }
        }
    }
}

/// A lookup is found where one of its answers is; otherwise it could not be
/// answered where one of them could not; and otherwise the name is absent.
pub proof fn law_lookup_outcome(name: Labels, r: Results)
    ensures
        combined(name, r).outcome == Outcome::Found <==> exists|i: int|
            0 <= i < r.len() && (#[trigger] r[i]).1.outcome == Outcome::Found,
        combined(name, r).outcome == Outcome::Unavailable <==> (forall|i: int|
            0 <= i < r.len() ==> (#[trigger] r[i]).1.outcome != Outcome::Found) && (exists|i: int|
            0 <= i < r.len() && (#[trigger] r[i]).1.outcome == Outcome::Unavailable),
        gathered(name, r).any_found == exists|i: int|
            0 <= i < r.len() && (#[trigger] r[i]).1.outcome == Outcome::Found,
        gathered(name, r).any_unavailable == exists|i: int|
            0 <= i < r.len() && (#[trigger] r[i]).1.outcome == Outcome::Unavailable,
    decreases r.len(),
{
    if r.len() > 0 {
        let rest = r.drop_last();
        law_lookup_outcome(name, rest);
        assert forall|i: int| 0 <= i < rest.len() implies rest[i] == #[trigger] r[i] by {}
        assert(r[r.len() - 1] == r.last());
        if gathered(name, rest).any_found {
            let i = choose|i: int| 0 <= i < rest.len() && (#[trigger] rest[i]).1.outcome == Outcome::Found;
            assert(r[i].1.outcome == Outcome::Found);
        }
        if gathered(name, rest).any_unavailable {
            let i = choose|i: int| 0 <= i < rest.len() && (#[trigger] rest[i]).1.outcome == Outcome::Unavailable;
            assert(r[i].1.outcome == Outcome::Unavailable);
        }
    }
}

/// The canonical name is the end of the chain of the last answer that gives an
/// address, or the name asked for where none does; the source is that of the
/// last answer that found something.
pub proof fn law_lookup_canonical_name(name: Labels, r: Results, i: int)
    requires
        0 <= i < r.len(),
    ensures
        (forall|k: int| 0 <= k < r.len() ==> gives(name, #[trigger] r[k]).len() == 0) ==> combined(name, r).canonical
            == name,
        gives(name, r[i]).len() > 0 && (forall|k: int|
            i < k < r.len() ==> gives(name, #[trigger] r[k]).len() == 0) ==> combined(name, r).canonical == canonical(
            r[i].1.records,
            match r[i].1.resolved_name {
                Some(n) => n,
                None => name,
            },
            r[i].0,
        ),
        r[i].1.outcome == Outcome::Found && (forall|k: int|
            i < k < r.len() ==> (#[trigger] r[k]).1.outcome != Outcome::Found) ==> combined(name, r).source
            == r[i].1.source,
        (forall|k: int| 0 <= k < r.len() ==> (#[trigger] r[k]).1.outcome != Outcome::Found) ==> combined(name, r).source
            == Source::Local,
    decreases r.len(),
{
    let rest = r.drop_last();
    let last = r.last();
    let start = last.1.resolved_name.unwrap_or(name);
    law_addresses_at_a_name(last.1.records, canonical(last.1.records, start, last.0), last.0);
    assert(r[r.len() - 1] == last);
    assert forall|k: int| 0 <= k < rest.len() implies rest[k] == #[trigger] r[k] by {}
    if i < rest.len() {
        law_lookup_canonical_name(name, rest, i);
    } else if rest.len() > 0 {
        law_lookup_canonical_name(name, rest, 0);
    }
}

} // verus!

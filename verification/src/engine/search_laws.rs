//! Which names are tried for a single label, and in which order.
use crate::dns::name::{same_name, wire_len, Labels};
use crate::engine::laws::law_lowest_metric_wins;
use crate::engine::scope::{
    all_domains, by_metric, by_metric_with, candidates, expanded, has_name, lowest, search_domains, ClaimView, Level,
    ScopeView,
};
use vstd::prelude::*;

verus! {

/// Whether an interface can be asked: it has a link and a server.
pub open spec fn can_be_asked(x: ScopeView) -> bool {
    x.level != Level::Down && x.servers.len() > 0
}

/// Whether an interface takes every name: it can be asked, says so, and has come
/// as far as addresses.
pub open spec fn takes_all(x: ScopeView) -> bool {
    can_be_asked(x) && x.exclusive && (x.level == Level::Addressed || x.level == Level::Routed)
}

// Interfaces by metric.

/// Whether metrics do not fall.
pub open spec fn rising(s: Seq<ScopeView>) -> bool {
    forall|i: int, j: int| 0 <= i < j < s.len() ==> (#[trigger] s[i]).metric <= (#[trigger] s[j]).metric
}

/// The interfaces with a metric.
pub open spec fn with_metric(s: Seq<ScopeView>, m: u32) -> Seq<ScopeView> {
    s.filter(|x: ScopeView| x.metric == m)
}

proof fn lemma_filter_one(s: Seq<ScopeView>, x: ScopeView, p: spec_fn(ScopeView) -> bool)
    ensures
        s.push(x).filter(p) == if p(x) {
            s.filter(p).push(x)
        } else {
            s.filter(p)
        },
{
    reveal(Seq::filter);
    assert(s.push(x).drop_last() =~= s);
}

proof fn lemma_with(s: Seq<ScopeView>, x: ScopeView)
    requires
        rising(s),
    ensures
        rising(by_metric_with(s, x)),
        by_metric_with(s, x).to_multiset() == s.to_multiset().insert(x),
        by_metric_with(s, x).len() == s.len() + 1,
        s.len() > 0 ==> by_metric_with(s, x).last().metric >= s.last().metric,
        by_metric_with(s, x).last().metric >= x.metric,
        by_metric_with(s, x).last() == x || (s.len() > 0 && by_metric_with(s, x).last() == s.last()),
        forall|m: u32|
            #![trigger with_metric(by_metric_with(s, x), m)]
            with_metric(by_metric_with(s, x), m) == if x.metric == m {
                with_metric(s, m).push(x)
            } else {
                with_metric(s, m)
            },
    decreases s.len(),
{
    broadcast use vstd::seq_lib::group_to_multiset_ensures;

    let out = by_metric_with(s, x);
    if s.len() == 0 {
        assert(out =~= s.push(x));
        assert forall|m: u32|
            #![trigger with_metric(out, m)]
            with_metric(out, m) == (if x.metric == m {
                with_metric(s, m).push(x)
            } else {
                with_metric(s, m)
            }) by {
            lemma_filter_one(s, x, |y: ScopeView| y.metric == m);
        }
    } else if s.last().metric <= x.metric {
        assert forall|m: u32|
            #![trigger with_metric(out, m)]
            with_metric(out, m) == (if x.metric == m {
                with_metric(s, m).push(x)
            } else {
                with_metric(s, m)
            }) by {
            lemma_filter_one(s, x, |y: ScopeView| y.metric == m);
        }
        assert forall|i: int, j: int| 0 <= i < j < out.len() implies (#[trigger] out[i]).metric <= (
        #[trigger] out[j]).metric by {
            if j == s.len() {
                assert(out[i].metric <= s[s.len() - 1].metric);
            }
        }
    } else {
        let rest = s.drop_last();
        let last = s.last();
        lemma_with(rest, x);
        let inner = by_metric_with(rest, x);
        assert(s =~= rest.push(last));
        if rest.len() > 0 {
            assert(s[rest.len() - 1].metric <= s[s.len() - 1].metric);
        }
        assert forall|i: int, j: int| 0 <= i < j < out.len() implies (#[trigger] out[i]).metric <= (
        #[trigger] out[j]).metric by {
            if j == inner.len() {
                assert(inner[i].metric <= inner[inner.len() - 1].metric);
            }
        }
        assert forall|m: u32|
            #![trigger with_metric(out, m)]
            with_metric(out, m) == (if x.metric == m {
                with_metric(s, m).push(x)
            } else {
                with_metric(s, m)
            }) by {
            let p = |y: ScopeView| y.metric == m;
            lemma_filter_one(inner, last, p);
            lemma_filter_one(rest, last, p);
            assert(with_metric(inner, m) == if x.metric == m {
                with_metric(rest, m).push(x)
            } else {
                with_metric(rest, m)
            });
        }
        assert(out.to_multiset() =~= s.to_multiset().insert(x));
    }
}

/// The interfaces whose search domains apply are those that can be asked, each
/// of them, in order of metric, the lowest first; and of those with one metric,
/// in the order in which they are listed.
pub proof fn law_interfaces_are_ordered_by_metric(s: Seq<ScopeView>)
    ensures
        rising(by_metric(s)),
        by_metric(s).to_multiset() == s.filter(|x: ScopeView| can_be_asked(x)).to_multiset(),
        by_metric(s).len() == s.filter(|x: ScopeView| can_be_asked(x)).len(),
        forall|m: u32|
            #![trigger with_metric(by_metric(s), m)]
            with_metric(by_metric(s), m) == s.filter(|x: ScopeView| can_be_asked(x)).filter(
                |x: ScopeView| x.metric == m,
            ),
    decreases s.len(),
{
    broadcast use vstd::seq_lib::group_to_multiset_ensures;

    reveal(Seq::filter);
    let up = |x: ScopeView| can_be_asked(x);
    if s.len() > 0 {
        let rest = s.drop_last();
        let x = s.last();
        law_interfaces_are_ordered_by_metric(rest);
        assert(s =~= rest.push(x));
        assert(x.is_up() == can_be_asked(x));
        if x.is_up() {
            lemma_with(by_metric(rest), x);
            assert(s.filter(up) == rest.filter(up).push(x));
            assert forall|m: u32|
                #![trigger with_metric(by_metric(s), m)]
                with_metric(by_metric(s), m) == s.filter(up).filter(|x: ScopeView| x.metric == m) by {
                lemma_filter_one(rest.filter(up), x, |y: ScopeView| y.metric == m);
                assert(with_metric(by_metric(rest), m) == rest.filter(up).filter(|x: ScopeView| x.metric == m));
                assert(with_metric(by_metric_with(by_metric(rest), x), m) == if x.metric == m {
                    with_metric(by_metric(rest), m).push(x)
                } else {
                    with_metric(by_metric(rest), m)
                });
            }
        } else {
            assert forall|m: u32|
                #![trigger with_metric(by_metric(s), m)]
                with_metric(by_metric(s), m) == s.filter(up).filter(|x: ScopeView| x.metric == m) by {
                assert(with_metric(by_metric(rest), m) == rest.filter(up).filter(|x: ScopeView| x.metric == m));
            }
        }
    }
}

// Domains.

proof fn lemma_all_domains(s: Seq<ScopeView>)
    ensures
        all_domains(s) == s.flat_map(|x: ScopeView| x.domains),
    decreases s.len(),
{
    let f = |x: ScopeView| x.domains;
    if s.len() == 0 {
        assert(s.map_values(f) =~= Seq::empty());
        assert(s.flat_map(f) =~= Seq::empty());
    } else {
        let rest = s.drop_last();
        lemma_all_domains(rest);
        assert(s.map_values(f) =~= rest.map_values(f).push(s.last().domains));
        rest.map_values(f).lemma_flatten_push(s.last().domains);
        assert(all_domains(s) =~= s.flat_map(f));
    }
}

/// Where no interface takes every name, the search domains are those of the
/// interfaces in their order, each interface's in the order in which they are
/// listed, and then those of the settings. Where one does, they are those of the
/// one with the lowest metric, and no others.
pub proof fn law_search_domains(s: Seq<ScopeView>, fallback: Seq<Labels>)
    ensures
        (forall|i: int| 0 <= i < s.len() ==> !takes_all(#[trigger] s[i])) ==> search_domains(s, fallback) == by_metric(
            s,
        ).flat_map(|x: ScopeView| x.domains) + fallback,
        (exists|i: int| 0 <= i < s.len() && takes_all(#[trigger] s[i])) ==> exists|i: int|
            0 <= i < s.len() && takes_all(#[trigger] s[i]) && search_domains(s, fallback) == s[i].domains && forall|k: int|
                0 <= k < s.len() && takes_all(#[trigger] s[k]) ==> s[i].metric <= s[k].metric,
{
    law_lowest_metric_wins(s, ClaimView::Exclusive);
    lemma_all_domains(by_metric(s));
    assert forall|i: int| 0 <= i < s.len() implies s[i].claims(ClaimView::Exclusive) == takes_all(#[trigger] s[i]) by {}
    if let Some(j) = lowest(s, ClaimView::Exclusive) {
        assert(takes_all(s[j]));
    }
}

proof fn lemma_before(s: Seq<ScopeView>, i: int, a: int) -> (p: int)
    requires
        0 <= i < s.len(),
        0 <= a < s[i].domains.len(),
    ensures
        0 <= p < all_domains(s).len(),
        all_domains(s)[p] == s[i].domains[a],
        all_domains(s.take(i)).len() <= p < all_domains(s.take(i + 1)).len(),
    decreases s.len(),
{
    let rest = s.drop_last();
    if i == s.len() - 1 {
        assert(s.take(i) =~= rest);
        assert(s.take(i + 1) =~= s);
        all_domains(rest).len() as int + a
    } else {
        let p = lemma_before(rest, i, a);
        assert(rest.take(i) =~= s.take(i));
        assert(rest.take(i + 1) =~= s.take(i + 1));
        p
    }
}

proof fn lemma_longer(s: Seq<ScopeView>, i: int, j: int)
    requires
        0 <= i <= j <= s.len(),
    ensures
        all_domains(s.take(i)).len() <= all_domains(s.take(j)).len(),
    decreases j - i,
{
    if i < j {
        lemma_longer(s, i, j - 1);
        assert(s.take(j).drop_last() =~= s.take(j - 1));
    }
}

/// Of two interfaces that can be asked, the domains of the one with the lower
/// metric come before those of the other.
pub proof fn law_lower_metrics_are_searched_first(
    s: Seq<ScopeView>,
    fallback: Seq<Labels>,
    i: int,
    j: int,
    a: int,
    b: int,
)
    requires
        forall|k: int| 0 <= k < s.len() ==> !takes_all(#[trigger] s[k]),
        0 <= i < s.len(),
        0 <= j < s.len(),
        can_be_asked(s[i]),
        can_be_asked(s[j]),
        s[i].metric < s[j].metric,
        0 <= a < s[i].domains.len(),
        0 <= b < s[j].domains.len(),
    ensures
        exists|p: int, q: int|
            0 <= p < q < search_domains(s, fallback).len() && #[trigger] search_domains(s, fallback)[p]
                == s[i].domains[a] && #[trigger] search_domains(s, fallback)[q] == s[j].domains[b],
{
    broadcast use vstd::seq_lib::group_to_multiset_ensures;

    law_search_domains(s, fallback);
    law_interfaces_are_ordered_by_metric(s);
    let o = by_metric(s);
    let up = |x: ScopeView| can_be_asked(x);
    s.lemma_filter_contains(up, i);
    s.lemma_filter_contains(up, j);
    assert(s.filter(up).contains(s[i]) && s.filter(up).contains(s[j]));
    assert(o.to_multiset().count(s[i]) > 0);
    assert(o.to_multiset().count(s[j]) > 0);
    assert(o.contains(s[i]) && o.contains(s[j]));
    let x = choose|x: int| 0 <= x < o.len() && o[x] == s[i];
    let y = choose|y: int| 0 <= y < o.len() && o[y] == s[j];
    assert(x < y) by {
        if y < x {
            assert(o[y].metric <= o[x].metric);
        }
    }
    let p = lemma_before(o, x, a);
    let q = lemma_before(o, y, b);
    lemma_longer(o, x + 1, y);
    lemma_all_domains(o);
    let d = search_domains(s, fallback);
    assert(d[p] == all_domains(o)[p]);
    assert(d[q] == all_domains(o)[q]);
}

// Candidates.

/// Whether places rise.
pub open spec fn rising_places(at: Seq<int>) -> bool {
    forall|i: int, j: int| 0 <= i < j < at.len() ==> #[trigger] at[i] < #[trigger] at[j]
}

/// Whether each name is the label under the domain at its place, and not too
/// long.
pub open spec fn stand_under(c: Seq<Labels>, name: Labels, d: Seq<Labels>, at: Seq<int>) -> bool {
    at.len() == c.len() && forall|i: int|
        #![trigger at[i]]
        0 <= i < at.len() ==> 0 <= at[i] < d.len() && c[i] == name + d[at[i]] && wire_len(name + d[at[i]]) <= 255
}

/// Whether the label under a domain is among the names, from that domain's place
/// or an earlier one.
pub open spec fn is_tried(c: Seq<Labels>, name: Labels, d: Seq<Labels>, at: Seq<int>, k: int) -> bool {
    exists|i: int|
        #![trigger at[i]]
        0 <= i < at.len() && at[i] <= k && same_name(c[i], name + d[k])
}

/// Whether the label is among the names under every domain with which it is not
/// too long.
pub open spec fn all_tried(c: Seq<Labels>, name: Labels, d: Seq<Labels>, at: Seq<int>) -> bool {
    forall|k: int|
        #![trigger d[k]]
        0 <= k < d.len() && wire_len(name + d[k]) <= 255 ==> is_tried(c, name, d, at, k)
}

/// Whether no two of the names are the same.
pub open spec fn all_unlike(c: Seq<Labels>) -> bool {
    forall|i: int, j: int| 0 <= i < j < c.len() ==> !same_name(#[trigger] c[i], #[trigger] c[j])
}

proof fn lemma_kept(c: Seq<Labels>, name: Labels, d: Seq<Labels>, x: Labels, at: Seq<int>)
    requires
        stand_under(c, name, d, at),
        all_tried(c, name, d, at),
        wire_len(name + x) > 255 || has_name(c, name + x),
    ensures
        stand_under(c, name, d.push(x), at),
        all_tried(c, name, d.push(x), at),
{
    let e = d.push(x);
    assert forall|i: int|
        #![trigger at[i]]
        0 <= i < at.len() implies 0 <= at[i] < e.len() && c[i] == name + e[at[i]] && wire_len(name + e[at[i]])
        <= 255 by {
        assert(e[at[i]] == d[at[i]]);
    }
    assert forall|k: int|
        #![trigger e[k]]
        0 <= k < e.len() && wire_len(name + e[k]) <= 255 implies is_tried(c, name, e, at, k) by {
        if k < d.len() {
            assert(e[k] == d[k]);
            assert(is_tried(c, name, d, at, k));
            let i = choose|i: int|
                #![trigger at[i]]
                0 <= i < at.len() && at[i] <= k && same_name(c[i], name + d[k]);
            assert(same_name(c[i], name + e[k]));
        } else {
            let i = choose|i: int| 0 <= i < c.len() && same_name(#[trigger] c[i], name + x);
            assert(at[i] <= k);
            assert(same_name(c[i], name + e[k]));
        }
    }
}

proof fn lemma_added(c: Seq<Labels>, name: Labels, d: Seq<Labels>, x: Labels, at: Seq<int>)
    requires
        stand_under(c, name, d, at),
        all_tried(c, name, d, at),
        rising_places(at),
        all_unlike(c),
        wire_len(name + x) <= 255,
        !has_name(c, name + x),
    ensures
        stand_under(c.push(name + x), name, d.push(x), at.push(d.len() as int)),
        all_tried(c.push(name + x), name, d.push(x), at.push(d.len() as int)),
        rising_places(at.push(d.len() as int)),
        all_unlike(c.push(name + x)),
{
    let e = d.push(x);
    let c1 = c.push(name + x);
    let at1 = at.push(d.len() as int);
    assert forall|i: int|
        #![trigger at1[i]]
        0 <= i < at1.len() implies 0 <= at1[i] < e.len() && c1[i] == name + e[at1[i]] && wire_len(name + e[at1[i]])
        <= 255 by {
        if i < at.len() {
            assert(at1[i] == at[i]);
            assert(e[at[i]] == d[at[i]]);
        }
    }
    assert forall|i: int, j: int| 0 <= i < j < at1.len() implies #[trigger] at1[i] < #[trigger] at1[j] by {
        assert(at1[i] == at[i]);
        assert(0 <= at[i] < d.len());
        if j < at.len() {
            assert(at[i] < at[j]);
        }
    }
    assert forall|k: int|
        #![trigger e[k]]
        0 <= k < e.len() && wire_len(name + e[k]) <= 255 implies is_tried(c1, name, e, at1, k) by {
        if k < d.len() {
            assert(e[k] == d[k]);
            assert(is_tried(c, name, d, at, k));
            let i = choose|i: int|
                #![trigger at[i]]
                0 <= i < at.len() && at[i] <= k && same_name(c[i], name + d[k]);
            assert(at1[i] == at[i]);
            assert(same_name(c1[i], name + e[k]));
        } else {
            assert(at1[at.len() as int] == k);
            assert(same_name(c1[at.len() as int], name + e[k]));
        }
    }
    assert forall|i: int, j: int| 0 <= i < j < c1.len() implies !same_name(#[trigger] c1[i], #[trigger] c1[j]) by {
        assert(c1[i] == c[i]);
        if j < c.len() {
            assert(!same_name(c[i], c[j]));
        } else {
            assert(!same_name(c[i], name + x));
        }
    }
}

proof fn lemma_expanded(name: Labels, d: Seq<Labels>) -> (at: Seq<int>)
    ensures
        rising_places(at),
        stand_under(expanded(name, d), name, d, at),
        all_tried(expanded(name, d), name, d, at),
        all_unlike(expanded(name, d)),
    decreases d.len(),
{
    if d.len() == 0 {
        Seq::empty()
    } else {
        let rest = d.drop_last();
        let c = expanded(name, rest);
        let at = lemma_expanded(name, rest);
        assert(d =~= rest.push(d.last()));
        if wire_len(name + d.last()) > 255 || has_name(c, name + d.last()) {
            lemma_kept(c, name, rest, d.last(), at);
            at
        } else {
            lemma_added(c, name, rest, d.last(), at);
            at.push(rest.len() as int)
        }
    }
}

/// What is tried for a single label is the label under search domains, in the
/// order of the domains: under every domain with which it makes a name that is
/// not too long, and no name twice, the first domain counting.
pub proof fn law_single_labels_are_searched(s: Seq<ScopeView>, fallback: Seq<Labels>, name: Labels)
    requires
        name.len() == 1,
    ensures
        all_unlike(candidates(s, fallback, name)),
        exists|at: Seq<int>| #[trigger]
            stand_under(candidates(s, fallback, name), name, search_domains(s, fallback), at) && rising_places(at)
                && all_tried(candidates(s, fallback, name), name, search_domains(s, fallback), at),
{
    let at = lemma_expanded(name, search_domains(s, fallback));
    assert(stand_under(candidates(s, fallback, name), name, search_domains(s, fallback), at));
}

} // verus!

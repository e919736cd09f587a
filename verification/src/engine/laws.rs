//! The policy of the engine: where names go, what is kept, and what is never
//! sent.
use crate::cache::{cached, distinct, key_of, law_flush_takes_one_scope, lemma_flushed, CacheKeyView, Entries};
use crate::dns::laws::{law_encode_decode, normal};
use crate::dns::message::{decode, query, MessageView};
use crate::dns::name::{
    ends_with, law_case_randomisation_keeps_equality, lemma_flipped_valid, letters, reverse_address, same_name,
    valid_name, Labels,
};
use crate::dns::record::RecordView;
use crate::dns::Error;
use crate::engine::answer::{
    bare, least_ttl, local_name, localhost_name, synthetic, Hosts, MAX_NEGATIVE_TTL, MAX_POSITIVE_TTL,
};
use crate::engine::demotion::{healthy_first, is_demoted, sieve};
use crate::engine::lemma_query_encodes;
use crate::engine::model::{
    advanced, answers, attempted, bits_from, cache_answer, changed, flush_changed, flush_gone, next_candidate, output,
    picked, received, reply_records, reply_ttl, rescoped, scrambled, sent, transmission, untried_from, with_fallback,
    with_next_candidate, ActionView, CompletionView, Counters, Owner, State, TaskView, MAX_IN_FLIGHT,
};
use crate::engine::scope::{
    all_domains, best_match, by_metric, by_metric_with, candidates, expanded, longest, lowest, lowest_from, match_from,
    named, route, search_domains, servers_of, ClaimView, ScopeView, FALLBACK_SCOPE,
};
use crate::engine::soundness::{lemma_cached, sends, sound};
use crate::protocol::Outcome;
use crate::time::Instant;
use vstd::prelude::*;

verus! {

// Where names go.

proof fn lemma_lowest_from(s: Seq<ScopeView>, c: ClaimView, i: int)
    requires
        0 <= i,
    ensures
        match lowest_from(s, c, i) {
            Some(j) => i <= j < s.len() && s[j].claims(c) && forall|k: int|
                i <= k < s.len() && (#[trigger] s[k]).claims(c) ==> s[j].metric <= s[k].metric,
            None => forall|k: int| i <= k < s.len() ==> !(#[trigger] s[k]).claims(c),
        },
    decreases s.len() - i,
{
    if i < s.len() {
        lemma_lowest_from(s, c, i + 1);
    }
}

/// Of the scopes with a claim, one with the lowest metric is taken.
pub proof fn law_lowest_metric_wins(s: Seq<ScopeView>, c: ClaimView)
    ensures
        match lowest(s, c) {
            Some(j) => 0 <= j < s.len() && s[j].claims(c) && forall|k: int|
                0 <= k < s.len() && (#[trigger] s[k]).claims(c) ==> s[j].metric <= s[k].metric,
            None => forall|k: int| 0 <= k < s.len() ==> !(#[trigger] s[k]).claims(c),
        },
{
    lemma_lowest_from(s, c, 0);
}

proof fn lemma_match_from(s: Seq<ScopeView>, name: Labels, i: int)
    requires
        0 <= i,
    ensures
        match match_from(s, name, i) {
            Some(j) => i <= j < s.len() && s[j].is_up() && longest(s[j].domains, name) is Some && forall|k: int|
                i <= k < s.len() && (#[trigger] s[k]).is_up() ==> (longest(s[k].domains, name) matches Some(n) ==> n
                    < longest(s[j].domains, name)->0 || (n == longest(s[j].domains, name)->0 && s[j].metric
                    <= s[k].metric)),
            None => forall|k: int|
                i <= k < s.len() && (#[trigger] s[k]).is_up() ==> longest(s[k].domains, name) is None,
        },
    decreases s.len() - i,
{
    if i < s.len() {
        lemma_match_from(s, name, i + 1);
    }
}

/// Of the scopes that are up with a search domain that the name ends with,
/// one with the longest is taken, and of those one with the lowest metric.
pub proof fn law_longest_domain_wins(s: Seq<ScopeView>, name: Labels)
    ensures
        match best_match(s, name) {
            Some(j) => 0 <= j < s.len() && s[j].is_up() && longest(s[j].domains, name) is Some && forall|k: int|
                0 <= k < s.len() && (#[trigger] s[k]).is_up() ==> (longest(s[k].domains, name) matches Some(n) ==> n
                    < longest(s[j].domains, name)->0 || (n == longest(s[j].domains, name)->0 && s[j].metric
                    <= s[k].metric)),
            None => forall|k: int|
                0 <= k < s.len() && (#[trigger] s[k]).is_up() ==> longest(s[k].domains, name) is None,
        },
{
    lemma_match_from(s, name, 0);
}

/// An exclusive scope takes every name.
pub proof fn law_exclusive_takes_all(s: Seq<ScopeView>, fallback: Seq<Seq<u8>>, name: Labels, i: int)
    requires
        0 <= i < s.len(),
        s[i].claims(ClaimView::Exclusive),
    ensures
        exists|j: int|
            0 <= j < s.len() && (#[trigger] s[j]).claims(ClaimView::Exclusive) && s[j].metric <= s[i].metric && route(
                s,
                fallback,
                name,
            ) == Some(s[j].id),
{
    law_lowest_metric_wins(s, ClaimView::Exclusive);
}

/// Where no scope is exclusive, a name goes to the scope with the longest
/// search domain that it ends with.
pub proof fn law_domains_take_their_names(s: Seq<ScopeView>, fallback: Seq<Seq<u8>>, name: Labels, i: int)
    requires
        0 <= i < s.len(),
        s[i].is_up(),
        longest(s[i].domains, name) is Some,
        forall|k: int| 0 <= k < s.len() ==> !(#[trigger] s[k]).claims(ClaimView::Exclusive),
    ensures
        exists|j: int|
            0 <= j < s.len() && (#[trigger] s[j]).is_up() && route(s, fallback, name) == Some(s[j].id) && (longest(
                s[j].domains,
                name,
            ) matches Some(n) && longest(s[i].domains, name)->0 <= n),
{
    law_lowest_metric_wins(s, ClaimView::Exclusive);
    law_longest_domain_wins(s, name);
}

/// Where no scope is exclusive and none has a search domain that it ends with,
/// a reverse name goes to the scope whose subnet holds the address.
pub proof fn law_subnets_take_their_reverse_names(s: Seq<ScopeView>, fallback: Seq<Seq<u8>>, name: Labels, i: int)
    requires
        0 <= i < s.len(),
        reverse_address(name) matches Some(a) && s[i].claims(ClaimView::Holds(a)),
        forall|k: int| 0 <= k < s.len() ==> !(#[trigger] s[k]).claims(ClaimView::Exclusive),
        forall|k: int| 0 <= k < s.len() && (#[trigger] s[k]).is_up() ==> longest(s[k].domains, name) is None,
    ensures
        exists|j: int|
            0 <= j < s.len() && (#[trigger] s[j]).claims(ClaimView::Holds(reverse_address(name)->0)) && s[j].metric
                <= s[i].metric && route(s, fallback, name) == Some(s[j].id),
{
    law_lowest_metric_wins(s, ClaimView::Exclusive);
    law_longest_domain_wins(s, name);
    law_lowest_metric_wins(s, ClaimView::Holds(reverse_address(name)->0));
}

/// A name that nothing else takes goes to the claimant of the default route
/// with the lowest metric.
pub proof fn law_default_route_takes_the_rest(s: Seq<ScopeView>, fallback: Seq<Seq<u8>>, name: Labels, i: int)
    requires
        0 <= i < s.len(),
        s[i].claims(ClaimView::DefaultRoute),
        forall|k: int| 0 <= k < s.len() ==> !(#[trigger] s[k]).claims(ClaimView::Exclusive),
        forall|k: int| 0 <= k < s.len() && (#[trigger] s[k]).is_up() ==> longest(s[k].domains, name) is None,
        reverse_address(name) matches Some(a) ==> forall|k: int|
            0 <= k < s.len() ==> !(#[trigger] s[k]).claims(ClaimView::Holds(a)),
    ensures
        exists|j: int|
            0 <= j < s.len() && (#[trigger] s[j]).claims(ClaimView::DefaultRoute) && s[j].metric <= s[i].metric
                && route(s, fallback, name) == Some(s[j].id),
{
    law_lowest_metric_wins(s, ClaimView::Exclusive);
    law_longest_domain_wins(s, name);
    if let Some(a) = reverse_address(name) {
        law_lowest_metric_wins(s, ClaimView::Holds(a));
    }
    law_lowest_metric_wins(s, ClaimView::DefaultRoute);
}

/// A name goes to a scope that is up; to the fallback servers only where none
/// is; and nowhere only where there are none of these either.
pub proof fn law_route_leads_somewhere(s: Seq<ScopeView>, fallback: Seq<Seq<u8>>, name: Labels)
    ensures
        match route(s, fallback, name) {
            Some(id) => (exists|j: int| 0 <= j < s.len() && (#[trigger] s[j]).is_up() && s[j].id == id) || (id
                == FALLBACK_SCOPE@ && fallback.len() > 0 && forall|k: int|
                0 <= k < s.len() ==> !(#[trigger] s[k]).is_up()),
            None => fallback.len() == 0 && forall|k: int| 0 <= k < s.len() ==> !(#[trigger] s[k]).is_up(),
        },
{
    law_lowest_metric_wins(s, ClaimView::Exclusive);
    law_longest_domain_wins(s, name);
    if let Some(a) = reverse_address(name) {
        law_lowest_metric_wins(s, ClaimView::Holds(a));
    }
    law_lowest_metric_wins(s, ClaimView::DefaultRoute);
    law_lowest_metric_wins(s, ClaimView::Any);
    assert forall|k: int| 0 <= k < s.len() && (#[trigger] s[k]).is_up() implies s[k].claims(ClaimView::Any) by {}
}

proof fn lemma_expanded(name: Labels, domains: Seq<Labels>)
    ensures
        forall|i: int|
            0 <= i < expanded(name, domains).len() ==> exists|j: int|
                0 <= j < domains.len() && #[trigger] expanded(name, domains)[i] == name + #[trigger] domains[j],
    decreases domains.len(),
{
    if domains.len() > 0 {
        let rest = domains.drop_last();
        lemma_expanded(name, rest);
        let before = expanded(name, rest);
        let all = expanded(name, domains);
        assert forall|i: int| 0 <= i < all.len() implies exists|j: int|
            0 <= j < domains.len() && #[trigger] all[i] == name + #[trigger] domains[j] by {
            if i < before.len() {
                assert(all[i] == before[i]);
                let j = choose|j: int| 0 <= j < rest.len() && before[i] == name + #[trigger] rest[j];
                assert(domains[j] == rest[j]);
            } else {
                assert(all[i] == name + domains[domains.len() - 1]);
            }
        }
    }
}

/// A single label is never tried bare, but under the search domains (none of
/// which is the root); with none of them there is nothing to try. Any other
/// name is tried as it is and nothing else is.
pub proof fn law_single_labels_are_never_bare(s: Seq<ScopeView>, fallback: Seq<Labels>, name: Labels)
    requires
        rootless(search_domains(s, fallback)),
    ensures
        name.len() != 1 ==> candidates(s, fallback, name) == seq![name],
        name.len() == 1 ==> forall|i: int|
            0 <= i < candidates(s, fallback, name).len() ==> (#[trigger] candidates(s, fallback, name)[i]).len() > 1,
        name.len() == 1 && search_domains(s, fallback).len() == 0 ==> candidates(s, fallback, name).len() == 0,
{
    let domains = search_domains(s, fallback);
    lemma_expanded(name, domains);
    if name.len() == 1 {
        let all = candidates(s, fallback, name);
        assert forall|i: int| 0 <= i < all.len() implies (#[trigger] all[i]).len() > 1 by {
            let j = choose|j: int| 0 <= j < domains.len() && all[i] == name + #[trigger] domains[j];
            assert(domains[j].len() > 0);
        }
    }
}

/// Whether none of the domains is the root.
pub open spec fn rootless(domains: Seq<Labels>) -> bool {
    forall|i: int| 0 <= i < domains.len() ==> (#[trigger] domains[i]).len() > 0
}

proof fn lemma_by_metric_with(s: Seq<ScopeView>, x: ScopeView)
    requires
        rootless(x.domains),
        forall|i: int| 0 <= i < s.len() ==> rootless((#[trigger] s[i]).domains),
    ensures
        forall|i: int| 0 <= i < by_metric_with(s, x).len() ==> rootless((#[trigger] by_metric_with(s, x)[i]).domains),
    decreases s.len(),
{
    if s.len() > 0 && s.last().metric > x.metric {
        lemma_by_metric_with(s.drop_last(), x);
    }
}

proof fn lemma_by_metric(s: Seq<ScopeView>)
    requires
        forall|i: int| 0 <= i < s.len() ==> rootless((#[trigger] s[i]).domains),
    ensures
        forall|i: int| 0 <= i < by_metric(s).len() ==> rootless((#[trigger] by_metric(s)[i]).domains),
    decreases s.len(),
{
    if s.len() > 0 {
        lemma_by_metric(s.drop_last());
        assert(rootless(s[s.len() - 1].domains));
        lemma_by_metric_with(by_metric(s.drop_last()), s.last());
    }
}

proof fn lemma_all_domains(s: Seq<ScopeView>)
    requires
        forall|i: int| 0 <= i < s.len() ==> rootless((#[trigger] s[i]).domains),
    ensures
        rootless(all_domains(s)),
    decreases s.len(),
{
    if s.len() > 0 {
        lemma_all_domains(s.drop_last());
        assert(rootless(s[s.len() - 1].domains));
    }
}

/// The search domains that apply hold the root only where a scope's own or the
/// fallback's do.
pub proof fn lemma_search_domains_rootless(s: Seq<ScopeView>, fallback: Seq<Labels>)
    requires
        rootless(fallback),
        forall|i: int| 0 <= i < s.len() ==> rootless((#[trigger] s[i]).domains),
    ensures
        rootless(search_domains(s, fallback)),
{
    law_lowest_metric_wins(s, ClaimView::Exclusive);
    lemma_by_metric(s);
    lemma_all_domains(by_metric(s));
}

// Servers.

/// Servers are tried healthy ones first, each as often as it is listed.
pub proof fn law_failing_servers_are_tried_last(servers: Seq<Seq<u8>>, m: Map<Seq<u8>, Instant>, now: Instant)
    ensures
        healthy_first(servers, m, now).to_multiset() == servers.to_multiset(),
        forall|i: int, j: int|
            0 <= i < j < healthy_first(servers, m, now).len() && is_demoted(
                m,
                #[trigger] healthy_first(servers, m, now)[i],
                now,
            ) ==> is_demoted(m, #[trigger] healthy_first(servers, m, now)[j], now),
{
    lemma_sieve(servers, m, now, true);
    lemma_sieve(servers, m, now, false);
    lemma_sieves(servers, m, now);
    let healthy = sieve(servers, m, now, false);
    let ill = sieve(servers, m, now, true);
    vstd::seq_lib::lemma_multiset_commutative(healthy, ill);
    let all = healthy + ill;
    assert forall|i: int, j: int|
        0 <= i < j < all.len() && is_demoted(m, #[trigger] all[i], now) implies is_demoted(m, #[trigger] all[j], now) by {
        if i < healthy.len() {
            assert(all[i] == healthy[i]);
        } else {
            assert(all[j] == ill[j - healthy.len()]);
        }
    }
}

proof fn lemma_sieve(servers: Seq<Seq<u8>>, m: Map<Seq<u8>, Instant>, now: Instant, demoted: bool)
    ensures
        forall|i: int|
            0 <= i < sieve(servers, m, now, demoted).len() ==> is_demoted(
                m,
                #[trigger] sieve(servers, m, now, demoted)[i],
                now,
            ) == demoted && servers.contains(sieve(servers, m, now, demoted)[i]),
    decreases servers.len(),
{
    if servers.len() > 0 {
        let rest = sieve(servers.drop_last(), m, now, demoted);
        lemma_sieve(servers.drop_last(), m, now, demoted);
        let all = sieve(servers, m, now, demoted);
        assert forall|i: int| 0 <= i < all.len() implies is_demoted(m, #[trigger] all[i], now) == demoted
            && servers.contains(all[i]) by {
            if i < rest.len() {
                assert(all[i] == rest[i]);
                let k = choose|k: int| 0 <= k < servers.drop_last().len() && servers.drop_last()[k] == rest[i];
                assert(servers[k] == all[i]);
            } else {
                assert(servers[servers.len() - 1] == all[i]);
            }
        }
    }
}

proof fn lemma_sieves(servers: Seq<Seq<u8>>, m: Map<Seq<u8>, Instant>, now: Instant)
    ensures
        sieve(servers, m, now, false).to_multiset().add(sieve(servers, m, now, true).to_multiset())
            == servers.to_multiset(),
    decreases servers.len(),
{
    broadcast use vstd::seq_lib::group_to_multiset_ensures;

    if servers.len() > 0 {
        let rest = servers.drop_last();
        lemma_sieves(rest, m, now);
        assert(servers =~= rest.push(servers.last()));
    }
    assert(sieve(servers, m, now, false).to_multiset().add(sieve(servers, m, now, true).to_multiset())
        =~= servers.to_multiset());
}

proof fn lemma_untried_from(servers: Seq<Seq<u8>>, tried: Seq<Seq<u8>>, i: int)
    requires
        0 <= i,
    ensures
        match untried_from(servers, tried, i) {
            Some(server) => !tried.contains(server) && servers.contains(server),
            None => forall|k: int| i <= k < servers.len() ==> tried.contains(#[trigger] servers[k]),
        },
    decreases servers.len() - i,
{
    if i < servers.len() {
        lemma_untried_from(servers, tried, i + 1);
    }
}

/// A retry goes elsewhere: to one of the servers, and to one that was asked
/// already only where all were.
pub proof fn law_retry_goes_elsewhere(servers: Seq<Seq<u8>>, tried: Seq<Seq<u8>>, attempt: u32)
    requires
        servers.len() > 0,
    ensures
        servers.contains(picked(servers, tried, attempt)),
        tried.contains(picked(servers, tried, attempt)) ==> forall|k: int|
            0 <= k < servers.len() ==> tried.contains(#[trigger] servers[k]),
{
    lemma_untried_from(servers, tried, 0);
}

/// Whether a server is one of those of the scope that a task's question was
/// put to.
pub open spec fn asks_its_scope(s: State, id: u64, a: ActionView) -> bool {
    a matches ActionView::Send { tx: _, server, tcp: _, payload: _ } ==> servers_of(
        s.scopes,
        s.fallback_servers,
        s.tasks[id].scope_id(),
    ).contains(server)
}

proof fn lemma_attempt_stays_in_its_scope(s: State, id: u64, now: Instant)
    requires
        s.tasks.contains_key(id),
    ensures
        forall|i: int|
            0 <= i < attempted(s, id, now).1.len() ==> asks_its_scope(s, id, #[trigger] attempted(s, id, now).1[i]),
        forall|i: int|
            0 <= i < attempted(s, id, now).1.len() && #[trigger] attempted(s, id, now).1[i] is Send ==> attempted(
                s,
                id,
                now,
            ).0.tasks.contains_key(id) && attempted(s, id, now).0.tasks[id].scope == s.tasks[id].scope && attempted(
                s,
                id,
                now,
            ).0.tasks[id].current == s.tasks[id].current,
{
    let task = s.tasks[id];
    let all = servers_of(s.scopes, s.fallback_servers, task.scope_id());
    let servers = healthy_first(all, s.demoted, now);
    if servers.len() > 0 {
        law_retry_goes_elsewhere(servers, task.tried, task.attempt);
        lemma_sieve(all, s.demoted, now, true);
        lemma_sieve(all, s.demoted, now, false);
        let server = picked(servers, task.tried, task.attempt);
        let k = choose|k: int| 0 <= k < servers.len() && servers[k] == server;
        let healthy = sieve(all, s.demoted, now, false);
        if k < healthy.len() {
            assert(all.contains(healthy[k]));
        } else {
            assert(all.contains(sieve(all, s.demoted, now, true)[k - healthy.len()]));
        }
    }
}

/// A name goes to exactly one scope: what a task sends for a candidate goes
/// to a server of the scope that the candidate is routed to.
pub proof fn law_names_go_to_one_scope(s: State, id: u64, now: Instant)
    requires
        s.tasks.contains_key(id),
    ensures
        ({
            let (s1, a) = next_candidate(s, id, now);
            forall|i: int|
                0 <= i < a.len() && (#[trigger] a[i]) is Send ==> s1.tasks.contains_key(id) && s1.tasks[id].current
                    is Some && s1.tasks[id].scope == route(s.scopes, s.fallback_servers, s1.tasks[id].name())
                    && s1.tasks[id].scope is Some && (a[i] matches ActionView::Send { tx: _, server, tcp: _, payload: _ }
                    && servers_of(s.scopes, s.fallback_servers, s1.tasks[id].scope_id()).contains(server))
        }),
    decreases s.tasks[id].candidates.len(),
{
    if s.tasks[id].candidates.len() > 0 {
        let task = with_next_candidate(s.tasks[id]);
        let name = s.tasks[id].candidates[0];
        if let Some(scope) = route(s.scopes, s.fallback_servers, name) {
            let s1 = State { tasks: s.tasks.insert(id, TaskView { scope: Some(scope), ..task }), ..s };
            let s2 = State {
                counters: Counters { cache_hits: s.counters.cache_hits.wrapping_add(1), ..s.counters },
                ..s1
            };
            lemma_attempt_stays_in_its_scope(s1, id, now);
            law_names_go_to_one_scope(s2, id, now);
            let (end, a) = attempted(s1, id, now);
            assert forall|i: int| 0 <= i < a.len() && (#[trigger] a[i]) is Send implies end.tasks.contains_key(id)
                && end.tasks[id].scope == Some(scope) && end.tasks[id].current == Some(name) && (a[i] matches
                ActionView::Send { tx: _, server, tcp: _, payload: _ } && servers_of(
                s.scopes,
                s.fallback_servers,
                scope,
            ).contains(server)) by {
                assert(asks_its_scope(s1, id, a[i]));
            }
        }
    }
}

// Replies.

/// What is not the answer to a transaction changes nothing: bytes that do not
/// decode, a message that is no response, or one with another id, another
/// question, or the question in another case.
pub proof fn law_forged_reply_changes_nothing(s: State, tx: u64, bytes: Seq<u8>, now: Instant)
    requires
        s.txs.contains_key(tx) ==> !(decode(bytes) matches Ok(m) && m.header.id == s.txs[tx].dns_id
            && m.header.response && m.question() == Some(s.txs[tx].question)),
    ensures
        received(s, tx, bytes, now) == (s, Seq::<ActionView>::empty()),
{
}

/// What a server is sent is a query under the transaction's id for the
/// task's name, in any case, and type; and it is what an answer is held to.
pub proof fn law_sent_question_is_the_tasks(s: State, id: u64, server: Seq<u8>, tcp: bool, now: Instant)
    requires
        s.tasks.contains_key(id),
        valid_name(s.tasks[id].name()),
        s.next_id < u64::MAX,
    ensures
        ({
            let (s1, a) = sent(s, id, server, tcp, now);
            let t = s1.txs[s.next_id];
            &&& a.len() == 1
            &&& a[0] matches ActionView::Send { tx, server: to, tcp: over, payload }
            &&& tx == s.next_id && to == server && over == tcp
            &&& t.server == server && t.tcp == tcp && t.task == id
            &&& same_name(t.question.name, s.tasks[id].name())
            &&& t.question.rtype == s.tasks[id].rtype
            &&& decode(payload) == Ok::<MessageView, Error>(query(t.dns_id, t.question))
        }),
{
    let task = s.tasks[id];
    let t = transmission(s.rng, task.name(), task.rtype);
    let (s1, a) = sent(s, id, server, tcp, now);
    let rng = scrambled(scrambled(s.rng));
    let choices = bits_from(rng, output(rng), 0, letters(task.name())).0;
    law_case_randomisation_keeps_equality(task.name(), choices);
    lemma_flipped_valid(task.name(), choices);
    let m = query(t.dns_id, t.question);
    lemma_query_encodes(t.dns_id, t.question);
    law_encode_decode(m);
    assert(normal(m).answers =~= m.answers);
    assert(normal(m).authority =~= m.authority);
    assert(normal(m).additional =~= m.additional);
}

/// A truncated reply is asked again over TCP, of the same server, and that is
/// no attempt.
pub proof fn law_truncated_is_asked_over_tcp(s: State, tx: u64, bytes: Seq<u8>, m: MessageView, now: Instant)
    requires
        s.txs.contains_key(tx),
        s.tasks.contains_key(s.txs[tx].task),
        decode(bytes) == Ok::<MessageView, Error>(m),
        answers(s.txs[tx], m),
        m.header.truncated,
        !s.txs[tx].tcp,
        s.next_id < u64::MAX,
    ensures
        ({
            let t = s.txs[tx];
            let (s1, a) = received(s, tx, bytes, now);
            &&& a.len() == 1
            &&& a[0] matches ActionView::Send { tx: again, server, tcp, payload: _ }
            &&& again == s.next_id && server == t.server && tcp
            &&& s1.tasks[t.task] == TaskView { tx: Some(again), ..s.tasks[t.task] }
            &&& s1.cache == s.cache
        }),
{
}

/// However long a reply says that it holds, what is found is kept no longer
/// than the one limit, and what is absent no longer than the other.
pub proof fn law_hostile_ttls_are_bounded(m: MessageView, name: Labels)
    ensures
        reply_ttl(m, name) <= MAX_POSITIVE_TTL,
        reply_records(m, name).len() == 0 ==> reply_ttl(m, name) <= MAX_NEGATIVE_TTL,
        reply_records(m, name).len() > 0 ==> forall|i: int|
            0 <= i < reply_records(m, name).len() ==> reply_ttl(m, name) <= (#[trigger] reply_records(m, name)[i]).ttl,
{
    lemma_least(reply_records(m, name), MAX_POSITIVE_TTL);
}

proof fn lemma_least(r: Seq<RecordView>, limit: u32)
    ensures
        least_ttl(r, limit) <= limit,
        forall|i: int| 0 <= i < r.len() ==> least_ttl(r, limit) <= (#[trigger] r[i]).ttl,
    decreases r.len(),
{
    if r.len() > 0 {
        let rest = r.drop_last();
        lemma_least(rest, limit);
        assert forall|i: int| 0 <= i < r.len() implies least_ttl(r, limit) <= (#[trigger] r[i]).ttl by {
            if i < rest.len() {
                assert(rest[i] == r[i]);
            }
        }
    }
}

// What needs no server.

/// Names under `localhost` and `local` never leave the machine.
pub proof fn law_local_names_are_never_asked(
    s: Seq<ScopeView>,
    hostname: Option<Labels>,
    hosts: Hosts,
    name: Labels,
    asked: u16,
)
    requires
        ends_with(name, localhost_name()) || ends_with(name, local_name()),
    ensures
        synthetic(s, hostname, hosts, name, asked) is Some,
{
}

/// A synthetic answer is given at once, whatever is in flight: nothing is
/// sent, and nothing is refused.
pub proof fn law_synthetic_needs_no_server(s: State, id: u64, now: Instant)
    requires
        s.tasks.contains_key(id),
        s.tasks[id].current is None,
        s.tasks[id].candidates.len() == 0,
        s.tasks[id].attempt == 0,
        synthetic(s.scopes, s.hostname, s.hosts, s.tasks[id].original, s.tasks[id].rtype) is Some,
    ensures
        ({
            let (s1, a) = advanced(s, id, now);
            &&& forall|tx: u64| !#[trigger] sends(a, tx)
            &&& s1.counters.refused == s.counters.refused
            &&& s1.counters.upstream_sent == s.counters.upstream_sent
            &&& s.tasks[id].owner matches Owner::Resolve(qid) ==> a == seq![
                ActionView::Done {
                    qid,
                    completion: CompletionView::Answer(
                        synthetic(s.scopes, s.hostname, s.hosts, s.tasks[id].original, s.tasks[id].rtype)->0,
                    ),
                },
            ]
        }),
{
}

/// What is in the cache is given at once, whatever is in flight, unless it is
/// an absence and there are other names to try.
pub proof fn law_cached_needs_no_server(s: State, id: u64, now: Instant, scope: Seq<char>)
    requires
        s.tasks.contains_key(id),
        s.tasks[id].candidates.len() > 0,
        !s.tasks[id].no_cache,
        route(s.scopes, s.fallback_servers, s.tasks[id].candidates[0]) == Some(scope),
        cached(s.cache, key_of(s.tasks[id].candidates[0], s.tasks[id].rtype, scope), now) matches Some(e) && (e.outcome
            != Outcome::NotFound || s.tasks[id].candidates.len() == 1),
    ensures
        ({
            let name = s.tasks[id].candidates[0];
            let e = cached(s.cache, key_of(name, s.tasks[id].rtype, scope), now)->0;
            let (s1, a) = next_candidate(s, id, now);
            &&& forall|tx: u64| !#[trigger] sends(a, tx)
            &&& s1.counters.refused == s.counters.refused
            &&& s1.counters.upstream_sent == s.counters.upstream_sent
            &&& s.tasks[id].owner matches Owner::Resolve(qid) ==> a == seq![
                ActionView::Done { qid, completion: CompletionView::Answer(cache_answer(s, e, scope, name)) },
            ]
        }),
{
}

/// Beyond the ceiling a question that needs the network is refused: it is
/// answered at once that nothing could answer it.
pub proof fn law_refused_beyond_the_ceiling(s: State, id: u64, now: Instant)
    requires
        s.tasks.contains_key(id),
        s.tasks[id].attempt == 0,
        s.txs.len() >= MAX_IN_FLIGHT,
    ensures
        ({
            let (s1, a) = attempted(s, id, now);
            &&& forall|tx: u64| !#[trigger] sends(a, tx)
            &&& s1.counters.upstream_sent == s.counters.upstream_sent
            &&& s.tasks[id].owner matches Owner::Resolve(qid) ==> a == seq![
                ActionView::Done { qid, completion: CompletionView::Answer(bare(Outcome::Unavailable)) },
            ]
        }),
{
}

// What dies with a scope.

/// Whether one of the scopes under a name is new or has other servers.
pub open spec fn any_changed(was: Seq<ScopeView>, new: Seq<ScopeView>, id: Seq<char>) -> bool {
    exists|i: int| 0 <= i < new.len() && (#[trigger] new[i]).id == id && changed(was, new[i])
}

/// Whether a scope under a name was there and is not any more.
pub open spec fn is_gone(was: Seq<ScopeView>, new: Seq<ScopeView>, id: Seq<char>) -> bool {
    named(new, id) is None && exists|i: int| 0 <= i < was.len() && (#[trigger] was[i]).id == id
}

proof fn lemma_flush_changed(c: Entries, was: Seq<ScopeView>, new: Seq<ScopeView>, k: CacheKeyView, now: Instant)
    requires
        distinct(c),
    ensures
        distinct(flush_changed(c, was, new)),
        cached(flush_changed(c, was, new), k, now) == if any_changed(was, new, k.scope) {
            None
        } else {
            cached(c, k, now)
        },
    decreases new.len(),
{
    if new.len() > 0 {
        let rest = new.drop_last();
        lemma_flush_changed(c, was, rest, k, now);
        let before = flush_changed(c, was, rest);
        law_flush_takes_one_scope(before, new.last().id, k, now);
        lemma_flushed(before, new.last().id);
        assert(new[new.len() - 1] == new.last());
        if any_changed(was, rest, k.scope) {
            let i = choose|i: int| 0 <= i < rest.len() && (#[trigger] rest[i]).id == k.scope && changed(was, rest[i]);
            assert(new[i] == rest[i]);
        }
        if any_changed(was, new, k.scope) {
            let i = choose|i: int| 0 <= i < new.len() && (#[trigger] new[i]).id == k.scope && changed(was, new[i]);
            if i < rest.len() {
                assert(rest[i] == new[i]);
            }
        }
    }
}

proof fn lemma_flush_gone(c: Entries, was: Seq<ScopeView>, new: Seq<ScopeView>, k: CacheKeyView, now: Instant)
    requires
        distinct(c),
    ensures
        distinct(flush_gone(c, was, new)),
        cached(flush_gone(c, was, new), k, now) == if is_gone(was, new, k.scope) {
            None
        } else {
            cached(c, k, now)
        },
    decreases was.len(),
{
    if was.len() > 0 {
        let rest = was.drop_last();
        lemma_flush_gone(c, rest, new, k, now);
        let before = flush_gone(c, rest, new);
        law_flush_takes_one_scope(before, was.last().id, k, now);
        lemma_flushed(before, was.last().id);
        assert(was[was.len() - 1] == was.last());
        if is_gone(rest, new, k.scope) {
            let i = choose|i: int| 0 <= i < rest.len() && (#[trigger] rest[i]).id == k.scope;
            assert(was[i] == rest[i]);
        }
        if is_gone(was, new, k.scope) {
            let i = choose|i: int| 0 <= i < was.len() && (#[trigger] was[i]).id == k.scope;
            if i < rest.len() {
                assert(rest[i] == was[i]);
            }
        }
    }
}

/// A scope's answers die with it, and with its servers; those of any other
/// scope stay as they are.
pub proof fn law_answers_die_with_their_scope(s: State, new: Seq<ScopeView>, k: CacheKeyView, now: Instant)
    requires
        distinct(s.cache),
    ensures
        cached(rescoped(s, new).cache, k, now) == if any_changed(s.scopes, new, k.scope) || is_gone(
            s.scopes,
            new,
            k.scope,
        ) {
            None
        } else {
            cached(s.cache, k, now)
        },
{
    lemma_flush_changed(s.cache, s.scopes, new, k, now);
    lemma_flush_gone(flush_changed(s.cache, s.scopes, new), s.scopes, new, k, now);
}

/// Other fallback servers end what the fallback servers answered, and nothing
/// else.
pub proof fn law_fallback_answers_die_with_the_servers(
    s: State,
    servers: Seq<Seq<u8>>,
    domains: Seq<Labels>,
    k: CacheKeyView,
    now: Instant,
)
    requires
        distinct(s.cache),
    ensures
        cached(with_fallback(s, servers, domains).cache, k, now) == if servers != s.fallback_servers && k.scope
            == FALLBACK_SCOPE@ {
            None
        } else {
            cached(s.cache, k, now)
        },
{
    law_flush_takes_one_scope(s.cache, FALLBACK_SCOPE@, k, now);
}

/// What nothing could answer is never in the cache.
pub proof fn law_failures_are_never_cached(s: State, k: CacheKeyView, now: Instant)
    requires
        sound(s),
    ensures
        cached(s.cache, k, now) matches Some(e) ==> e.outcome != Outcome::Unavailable,
{
    lemma_cached(s.cache, k, now);
}

} // verus!

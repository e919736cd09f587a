//! How questions start, what is sent for them, and what time and settings do.
use crate::cache::{
    cached, distinct, flushed, holds, inserted, law_flush_takes_one_scope, lemma_flushed, CacheKeyView, Entries, EntryView,
};
use crate::dns::message::{query, MessageView, QuestionView};
use crate::dns::name::{name_of_text, name_text, reverse_name, Labels};
use crate::dns::record::{RDataView, RecordView};
use crate::engine::answer::{synthetic, AnswerView, Source};
use crate::engine::caching::law_replies_are_kept_as_they_say;
use crate::engine::local_laws::{law_every_record_is_told, told_as};
use crate::engine::model::{
    all_failed, attempted, cache_answer, changed, flush_changed, flush_gone, hostname_of, initial, lookup_started,
    looked_up, next_candidate, overdue, reply_entry, reply_ttl, rescoped, resolved, reversed, tasks_of, ticked, with_fallback, with_next_candidate,
    ActionView, CompletionView, Counters, Family, Owner, State, TaskView,
};
use crate::engine::scope::{candidates, interface_of, named, route, ScopeView};
use crate::engine::task_laws::nothing;
use crate::protocol::Outcome;
use crate::table::{lemma_numbers, numbers};
use crate::time::Instant;
use vstd::prelude::*;

verus! {

// Questions.

/// A question that nobody has worked on yet.
pub open spec fn new_task(owner: Owner, name: Labels, rtype: u16, no_cache: bool) -> TaskView {
    TaskView {
        owner,
        original: name,
        rtype,
        no_cache,
        candidates: Seq::empty(),
        current: None,
        scope: None,
        attempt: 0,
        tried: Seq::empty(),
        tx: None,
    }
}

/// A question is counted. One whose name is none is told that there is no such
/// name. One that is known here is told at once, and that is counted too. Any other
/// goes on with the names to try, the first first; where there is none, there is
/// no such name.
pub proof fn law_questions_start(s: State, qid: u64, text: Seq<u8>, rtype: u16, no_cache: bool, now: Instant)
    ensures
        ({
            let (s1, a) = resolved(s, qid, text, rtype, no_cache, now);
            let more = Counters { queries: s.counters.queries.wrapping_add(1), ..s.counters };
            match name_of_text(text) {
                Err(_) => {
                    &&& a == seq![
                        ActionView::Done { qid, completion: CompletionView::Answer(nothing(Outcome::NotFound)) },
                    ]
                    &&& s1 == (State { counters: more, ..s })
                },
                Ok(name) => {
                    let names = candidates(s.scopes, s.fallback_domains, name);
                    match synthetic(s.scopes, s.hostname, s.hosts, name, rtype) {
                        Some(answer) => {
                            &&& a == seq![ActionView::Done { qid, completion: CompletionView::Answer(answer) }]
                            &&& s1.counters == (Counters { synthetic: s.counters.synthetic.wrapping_add(1), ..more })
                            &&& s1.cache == s.cache
                            &&& s1.txs == s.txs
                            &&& s1.tasks =~= s.tasks.remove(s.next_id)
                        },
                        None => if names.len() == 0 {
                            a == seq![
                                ActionView::Done { qid, completion: CompletionView::Answer(nothing(Outcome::NotFound)) },
                            ]
                        } else {
                            let task = TaskView {
                                candidates: names,
                                ..new_task(Owner::Resolve(qid), name, rtype, no_cache)
                            };
                            (s1, a) == next_candidate(
                                State {
                                    counters: more,
                                    next_id: (s.next_id + 1) as u64,
                                    tasks: s.tasks.insert(s.next_id, task),
                                    ..s
                                },
                                s.next_id,
                                now,
                            )
                        },
                    }
                },
            }
        }),
{
    if let Ok(name) = name_of_text(text) {
        let t = new_task(Owner::Resolve(qid), name, rtype, no_cache);
        let names = candidates(s.scopes, s.fallback_domains, name);
        assert(s.tasks.insert(s.next_id, t).insert(s.next_id, TaskView { candidates: names, ..t }) =~= s.tasks.insert(
            s.next_id,
            TaskView { candidates: names, ..t },
        ));
    }
}

/// The names of an address are the records of type 12 at its reverse name.
pub proof fn law_reverse_questions(s: State, qid: u64, address: Seq<u8>, now: Instant)
    ensures
        reversed(s, qid, address, now) == resolved(s, qid, name_text(reverse_name(address)), 12, false, now),
{
}

/// A lookup starts a question for each type, one after the other, each of which may
/// be answered from the cache; a name that is none is told to be no such name.
pub proof fn law_lookups_start(s: State, qid: u64, text: Seq<u8>, family: Family, now: Instant, name: Labels)
    requires
        s.next_id < u64::MAX - 1,
    ensures
        ({
            let t4 = new_task(Owner::Lookup(qid), name, 1, false);
            let t6 = new_task(Owner::Lookup(qid), name, 28, false);
            let second = (s.next_id + 1) as u64;
            &&& lookup_started(s, qid, name, seq![1u16]).tasks == s.tasks.insert(s.next_id, t4)
            &&& lookup_started(s, qid, name, seq![28u16]).tasks == s.tasks.insert(s.next_id, t6)
            &&& lookup_started(s, qid, name, seq![1u16, 28u16]).tasks == s.tasks.insert(s.next_id, t4).insert(second, t6)
            &&& lookup_started(s, qid, name, seq![1u16, 28u16]).next_id == s.next_id + 2
        }),
        name_of_text(text) is Err ==> looked_up(s, qid, text, family, now).1.len() == 1 && (looked_up(
            s,
            qid,
            text,
            family,
            now,
        ).1[0] matches ActionView::Done { qid: q, completion } && q == qid && (
        completion matches CompletionView::Addresses(x) && x.outcome == Outcome::NotFound && x.addresses.len() == 0)),
{
    reveal_with_fuel(lookup_started, 3);
    assert(seq![1u16].drop_last() =~= Seq::empty());
    assert(seq![28u16].drop_last() =~= Seq::empty());
    assert(seq![1u16, 28u16].drop_last() =~= seq![1u16]);
}

/// A question that wants no answer out of the cache gets none: it goes as it would
/// with a cache that is empty, and leaves the cache as it is.
pub proof fn law_fresh_answers_are_fresh(s: State, id: u64, now: Instant)
    requires
        s.tasks.contains_key(id),
        s.tasks[id].no_cache,
    ensures
        ({
            let (s1, a) = next_candidate(s, id, now);
            let (s2, b) = next_candidate(State { cache: Seq::empty(), ..s }, id, now);
            a == b && s1 == (State { cache: s.cache, ..s2 })
        }),
{
    let bare = State { cache: Seq::empty(), ..s };
    if s.tasks[id].candidates.len() > 0 {
        let task = with_next_candidate(s.tasks[id]);
        if let Some(scope) = route(s.scopes, s.fallback_servers, s.tasks[id].candidates[0]) {
            let tasks = s.tasks.insert(id, TaskView { scope: Some(scope), ..task });
            lemma_attempt_leaves_the_cache(State { tasks, ..s }, id, now);
            assert(State { tasks, ..bare } == State { cache: Seq::empty(), ..State { tasks, ..s } });
        }
    }
}

proof fn lemma_attempt_leaves_the_cache(s: State, id: u64, now: Instant)
    ensures
        ({
            let (s1, a) = attempted(s, id, now);
            let (s2, b) = attempted(State { cache: Seq::empty(), ..s }, id, now);
            a == b && s1 == (State { cache: s.cache, ..s2 })
        }),
{
}

/// A name that the cache knows to be absent is passed over where others are left;
/// otherwise what the cache has is told, and either is counted.
pub proof fn law_cached_absence_goes_on(s: State, id: u64, now: Instant, scope: Seq<char>)
    requires
        s.tasks.contains_key(id),
        !s.tasks[id].no_cache,
        s.tasks[id].candidates.len() > 0,
        route(s.scopes, s.fallback_servers, s.tasks[id].candidates[0]) == Some(scope),
        cached(
            s.cache,
            crate::cache::key_of(s.tasks[id].candidates[0], s.tasks[id].rtype, scope),
            now,
        ) matches Some(e) && e.outcome == Outcome::NotFound,
        s.tasks[id].candidates.len() > 1,
    ensures
        ({
            let task = s.tasks[id];
            next_candidate(s, id, now) == next_candidate(
                State {
                    counters: Counters { cache_hits: s.counters.cache_hits.wrapping_add(1), ..s.counters },
                    tasks: s.tasks.insert(
                        id,
                        TaskView {
                            candidates: task.candidates.skip(1),
                            current: Some(task.candidates[0]),
                            scope: Some(scope),
                            attempt: 0,
                            tried: Seq::empty(),
                            ..task
                        },
                    ),
                    ..s
                },
                id,
                now,
            )
        }),
{
}

// What is sent.

/// What a server is sent is the one question, with recursion desired, and room for
/// 1232 bytes offered; and nothing else.
pub proof fn law_queries(id: u16, q: QuestionView)
    ensures
        ({
            let m = query(id, q);
            &&& m.header.id == id
            &&& !m.header.response
            &&& m.header.opcode == 0
            &&& !m.header.authoritative
            &&& !m.header.truncated
            &&& m.header.recursion_desired
            &&& !m.header.recursion_available
            &&& !m.header.authentic_data
            &&& !m.header.checking_disabled
            &&& m.header.rcode == 0
            &&& m.questions == seq![q]
            &&& m.answers.len() == 0
            &&& m.authority.len() == 0
            &&& m.additional.len() == 1
            &&& m.additional[0].name.len() == 0
            &&& m.additional[0].rtype == 41
            &&& m.additional[0].class == 1232
            &&& m.additional[0].ttl == 0
            &&& m.additional[0].rdata == RDataView::Opt(Seq::empty())
        }),
{
}

// Time.

/// The transactions that are given up are those whose deadlines have come.
pub proof fn law_overdue(s: State, ids: Seq<u64>, now: Instant)
    ensures
        overdue(s, ids, now) == ids.filter(|tx: u64| s.txs[tx].deadline <= now),
    decreases ids.len(),
{
    reveal(Seq::filter);
    if ids.len() > 0 {
        law_overdue(s, ids.drop_last(), now);
        assert(ids =~= ids.drop_last().push(ids.last()));
    }
}

proof fn lemma_all_cancelled(s: State, ids: Seq<u64>, now: Instant)
    ensures
        forall|i: int|
            0 <= i < ids.len() ==> all_failed(s, ids, now).1.contains(ActionView::Cancel { tx: #[trigger] ids[i] }),
    decreases ids.len(),
{
    if ids.len() > 0 {
        let rest = ids.drop_last();
        lemma_all_cancelled(s, rest, now);
        let before = all_failed(s, rest, now).1;
        let one = seq![ActionView::Cancel { tx: ids.last() }];
        let all = all_failed(s, ids, now).1;
        assert forall|i: int| 0 <= i < ids.len() implies all.contains(ActionView::Cancel { tx: #[trigger] ids[i] }) by {
            if i < rest.len() {
                assert(rest[i] == ids[i]);
                let k = choose|k: int| 0 <= k < before.len() && before[k] == (ActionView::Cancel { tx: rest[i] });
                assert(all[k] == before[k]);
            } else {
                assert(all[before.len() as int] == one[0]);
            }
        }
    }
}

/// Every transaction whose deadline has come is cancelled.
pub proof fn law_overdue_is_cancelled(s: State, now: Instant, tx: u64)
    requires
        s.txs.contains_key(tx),
        s.txs[tx].deadline <= now,
    ensures
        ticked(s, now).1.contains(ActionView::Cancel { tx }),
{
    let ids = numbers(s.txs);
    lemma_numbers(s.txs);
    law_overdue(s, ids, now);
    let gone = overdue(s, ids, now);
    let p = |x: u64| s.txs[x].deadline <= now;
    let i = choose|i: int| 0 <= i < ids.len() && ids[i] == tx;
    ids.lemma_filter_contains(p, i);
    assert(gone.contains(tx));
    lemma_all_cancelled(s, gone, now);
    let k = choose|k: int| 0 <= k < gone.len() && gone[k] == tx;
    assert(ticked(s, now).1.contains(ActionView::Cancel { tx: gone[k] }));
}

/// The questions of an asker are all of those that are theirs.
pub proof fn law_questions_of_an_asker(s: State, ids: Seq<u64>, qid: u64)
    ensures
        tasks_of(s, ids, qid) == ids.filter(
            |id: u64|
                match s.tasks[id].owner {
                    Owner::Resolve(q) => q == qid,
                    Owner::Lookup(q) => q == qid,
                },
        ),
    decreases ids.len(),
{
    reveal(Seq::filter);
    if ids.len() > 0 {
        law_questions_of_an_asker(s, ids.drop_last(), qid);
        assert(ids =~= ids.drop_last().push(ids.last()));
    }
}

// Settings.

proof fn lemma_unchanged(c: Entries, before: Seq<ScopeView>, new: Seq<ScopeView>, k: CacheKeyView, now: Instant)
    requires
        distinct(c),
    ensures
        distinct(flush_changed(c, before, new)),
        (forall|i: int| 0 <= i < new.len() && (#[trigger] new[i]).id == k.scope ==> !changed(before, new[i])) ==> cached(
            flush_changed(c, before, new),
            k,
            now,
        ) == cached(c, k, now),
    decreases new.len(),
{
    if new.len() > 0 {
        let rest = new.drop_last();
        lemma_unchanged(c, before, rest, k, now);
        let d = flush_changed(c, before, rest);
        lemma_flushed(d, new.last().id);
        law_flush_takes_one_scope(d, new.last().id, k, now);
        if forall|i: int| 0 <= i < new.len() && (#[trigger] new[i]).id == k.scope ==> !changed(before, new[i]) {
            assert forall|i: int| 0 <= i < rest.len() && (#[trigger] rest[i]).id == k.scope implies !changed(
                before,
                rest[i],
            ) by {
                assert(rest[i] == new[i]);
            }
            assert(new[new.len() - 1] == new.last());
        }
    }
}

proof fn lemma_not_gone(c: Entries, before: Seq<ScopeView>, new: Seq<ScopeView>, k: CacheKeyView, now: Instant)
    requires
        distinct(c),
    ensures
        distinct(flush_gone(c, before, new)),
        named(new, k.scope) is Some ==> cached(flush_gone(c, before, new), k, now) == cached(c, k, now),
    decreases before.len(),
{
    if before.len() > 0 {
        let rest = before.drop_last();
        lemma_not_gone(c, rest, new, k, now);
        let d = flush_gone(c, rest, new);
        lemma_flushed(d, before.last().id);
        law_flush_takes_one_scope(d, before.last().id, k, now);
    }
}

/// What an interface answered is kept where the interface stays and has the servers
/// that it had, whatever becomes of others.
pub proof fn law_answers_stay_with_their_interface(s: State, new: Seq<ScopeView>, k: CacheKeyView, now: Instant)
    requires
        distinct(s.cache),
        named(new, k.scope) is Some,
        named(s.scopes, k.scope) matches Some(p) && forall|i: int|
            0 <= i < new.len() && (#[trigger] new[i]).id == k.scope ==> new[i].servers == s.scopes[p].servers,
    ensures
        cached(rescoped(s, new).cache, k, now) == cached(s.cache, k, now),
        rescoped(s, new).scopes == new,
{
    assert forall|i: int| 0 <= i < new.len() && (#[trigger] new[i]).id == k.scope implies !changed(s.scopes, new[i]) by {}
    lemma_unchanged(s.cache, s.scopes, new, k, now);
    lemma_not_gone(flush_changed(s.cache, s.scopes, new), s.scopes, new, k, now);
}

/// Other servers to fall back on take the place of those that were, and what those
/// answered goes with them; the same ones leave the cache as it is.
pub proof fn law_fallback(s: State, servers: Seq<Seq<u8>>, domains: Seq<Labels>)
    ensures
        with_fallback(s, servers, domains).fallback_servers == servers,
        with_fallback(s, servers, domains).fallback_domains == domains,
        servers == s.fallback_servers ==> with_fallback(s, servers, domains).cache == s.cache,
        servers != s.fallback_servers ==> with_fallback(s, servers, domains).cache == flushed(s.cache, "fallback"@),
        with_fallback(s, servers, domains).scopes == s.scopes,
        with_fallback(s, servers, domains).hosts == s.hosts,
{
}

/// The machine's name is the one that a text writes, and none where it writes none
/// or the root.
pub proof fn law_hostname(b: Seq<u8>)
    ensures
        hostname_of(None) is None,
        hostname_of(Some(b)) is Some <==> (name_of_text(b) matches Ok(n) && n.len() > 0),
        hostname_of(Some(b)) matches Some(n) ==> name_of_text(b) == Ok::<Labels, crate::dns::Error>(n),
{
}

/// At first nothing is known, and nothing is counted.
pub proof fn law_at_first(seed: u64)
    ensures
        ({
            let s = initial(seed);
            &&& s.scopes.len() == 0
            &&& s.fallback_servers.len() == 0
            &&& s.fallback_domains.len() == 0
            &&& s.hostname is None
            &&& s.hosts.len() == 0
            &&& s.cache.len() == 0
            &&& s.counters.queries == 0
            &&& s.counters.synthetic == 0
            &&& s.counters.cache_hits == 0
            &&& s.counters.upstream_sent == 0
            &&& s.counters.upstream_answered == 0
            &&& s.counters.upstream_failed == 0
            &&& s.counters.refused == 0
            &&& forall|tx: u64| !#[trigger] s.txs.contains_key(tx)
            &&& forall|id: u64| !#[trigger] s.tasks.contains_key(id)
            &&& forall|q: u64| !#[trigger] s.lookups.contains_key(q)
            &&& forall|a: Seq<u8>| !#[trigger] s.demoted.contains_key(a)
        }),
{
}

// What is kept.

/// The least of some times, and of a limit.
pub open spec fn is_least(ttl: u32, limit: u32, r: Seq<RecordView>) -> bool {
    &&& ttl <= limit
    &&& forall|i: int| 0 <= i < r.len() ==> ttl <= (#[trigger] r[i]).ttl
    &&& ttl == limit || exists|i: int| 0 <= i < r.len() && (#[trigger] r[i]).ttl == ttl
}

/// Records are kept as long as the shortest of them says, and no longer than a day.
/// That a name is absent, or has no such records, is kept as long as the first SOA
/// record says, by its minimum and its own time, and no longer than five minutes;
/// and not at all where there is none.
pub proof fn law_how_long_replies_are_kept(m: MessageView, name: Labels)
    ensures
        ({
            let records = m.answers.filter_map(|r: RecordView| told_as(r, name));
            &&& m.rcode() != 3 && records.len() > 0 ==> is_least(reply_ttl(m, name), 86_400, records)
            &&& m.rcode() == 3 || records.len() == 0 ==> {
                &&& (forall|k: int| 0 <= k < m.authority.len() ==> !((#[trigger] m.authority[k]).rdata is Soa))
                    ==> reply_ttl(m, name) == 0
                &&& forall|p: int|
                    0 <= p < m.authority.len() && (#[trigger] m.authority[p]).rdata is Soa && (forall|k: int|
                        0 <= k < p ==> !((#[trigger] m.authority[k]).rdata is Soa)) ==> {
                        let soa = m.authority[p];
                        &&& reply_ttl(m, name) <= 300
                        &&& reply_ttl(m, name) <= soa.ttl
                        &&& reply_ttl(m, name) <= soa.rdata->minimum
                        &&& reply_ttl(m, name) == 300 || reply_ttl(m, name) == soa.ttl || reply_ttl(m, name)
                            == soa.rdata->minimum
                    }
            }
        }),
{
    law_every_record_is_told(m.answers, name);
    law_replies_are_kept_as_they_say(m, name);
}

/// What is kept of a reply is what it says, who said it, and from when until when.
pub proof fn law_what_is_kept(m: MessageView, name: Labels, server: Seq<u8>, now: Instant)
    ensures
        ({
            let e = reply_entry(m, name, server, now);
            &&& m.rcode() == 3 ==> e.outcome == Outcome::NotFound && e.records.len() == 0
            &&& m.rcode() != 3 ==> e.outcome == Outcome::Found && e.records == m.answers.filter_map(
                |r: RecordView| told_as(r, name),
            )
            &&& e.rcode == m.rcode()
            &&& e.server == server
            &&& e.stored == now
            &&& now + reply_ttl(m, name) * 1_000_000_000 <= u64::MAX ==> e.expires == now + reply_ttl(m, name)
                * 1_000_000_000
        }),
{
    law_every_record_is_told(m.answers, name);
}

/// What the cache has is told as the server said it, with the server, its interface
/// and the code, at the name that was asked for; and as coming from the cache.
pub proof fn law_cached_answers(s: State, e: EntryView, scope: Seq<char>, name: Labels)
    ensures
        cache_answer(s, e, scope, name) == (AnswerView {
            outcome: e.outcome,
            records: e.records,
            source: Source::Cache,
            server: Some(e.server),
            interface: interface_of(s.scopes, scope),
            rcode: e.rcode,
            resolved_name: Some(name),
        }),
{
}

/// The cache takes 8192 entries before any has to go.
pub proof fn law_the_cache_has_room(s: Entries, k: CacheKeyView, e: EntryView)
    requires
        !holds(s, k),
    ensures
        s.len() < 8192 ==> inserted(s, k, e) == s.push((k, e)),
        s.len() == 8192 ==> inserted(s, k, e).len() == 8192,
{
    crate::cache::lemma_place(s, k);
    if s.len() == 8192 {
        crate::cache::lemma_soonest_from(s, 0);
    }
}

/// What is in the cache is live until it expires, and its times count down by whole
/// seconds from when it was stored.
pub proof fn law_times_count_down(s: Entries, k: CacheKeyView, e: EntryView, p: int, now: Instant)
    requires
        distinct(s),
        0 <= p < s.len(),
        s[p] == (k, e),
    ensures
        now >= e.expires ==> cached(s, k, now) is None,
        now < e.expires ==> (cached(s, k, now) matches Some(c) && {
            let gone = if now <= e.stored {
                0int
            } else {
                (now - e.stored) / 1_000_000_000
            };
            &&& c.outcome == e.outcome && c.rcode == e.rcode && c.server == e.server
            &&& c.records.len() == e.records.len()
            &&& forall|i: int|
                0 <= i < e.records.len() ==> {
                    let r = #[trigger] c.records[i];
                    &&& r.name == e.records[i].name && r.rtype == e.records[i].rtype && r.class == e.records[i].class
                    &&& r.rdata == e.records[i].rdata
                    &&& e.records[i].ttl > gone ==> r.ttl == e.records[i].ttl - gone
                    &&& e.records[i].ttl <= gone ==> r.ttl == 0
                }
        }),
{
    crate::cache::lemma_place(s, k);
    let q = crate::cache::place(s, k);
    assert(holds(s, k));
    if q != p {
        assert(s[q].0 == s[p].0);
    }
}

} // verus!

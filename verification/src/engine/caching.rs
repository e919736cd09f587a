//! What a reply means for the questions after it.
use crate::cache::{aged, cached, inserted, key_of, law_inserted_is_found, seconds_in, CacheKeyView, EntryView};
use crate::dns::message::{decode, MessageView};
use crate::dns::name::{name_of_text, same_name, Labels};
use crate::dns::rcode;
use crate::dns::record::RecordView;
use crate::engine::answer::{least_ttl, soa_ttl_from, synthetic, MAX_NEGATIVE_TTL, MAX_POSITIVE_TTL};
use crate::engine::demotion::healthy_first;
use crate::engine::laws::{law_failing_servers_are_tried_last, law_hostile_ttls_are_bounded};
use crate::engine::model::{
    answers, attempted, cache_answer, counted, failed, fresh_task, idle, next_candidate, received, reply_entry,
    reply_records, reply_ttl, resolved, started, with_next_candidate, ActionView, CompletionView, Counters, Owner,
    State, TaskView, MAX_IN_FLIGHT,
};
use crate::engine::scope::{candidates, route, servers_of};
use crate::engine::soundness::sound;
use crate::time::{Instant, LATEST, SECOND};
use vstd::prelude::*;

verus! {

// How long replies are kept.

proof fn lemma_least_is_there(r: Seq<RecordView>, limit: u32)
    ensures
        least_ttl(r, limit) == limit || exists|i: int|
            0 <= i < r.len() && (#[trigger] r[i]).ttl == least_ttl(r, limit),
    decreases r.len(),
{
    if r.len() > 0 {
        let rest = r.drop_last();
        lemma_least_is_there(rest, limit);
        if r.last().ttl < least_ttl(rest, limit) {
            assert(r[r.len() - 1].ttl == least_ttl(r, limit));
        } else if least_ttl(rest, limit) != limit {
            let i = choose|i: int| 0 <= i < rest.len() && (#[trigger] rest[i]).ttl == least_ttl(rest, limit);
            assert(r[i] == rest[i]);
        }
    }
}

proof fn lemma_no_soa(r: Seq<RecordView>, i: int)
    requires
        forall|k: int| 0 <= k < r.len() ==> !((#[trigger] r[k]).rdata is Soa),
    ensures
        soa_ttl_from(r, i) == 0,
    decreases r.len() - i,
{
    if 0 <= i < r.len() {
        lemma_no_soa(r, i + 1);
    }
}

proof fn lemma_first_soa(r: Seq<RecordView>, i: int, p: int)
    requires
        0 <= i <= p < r.len(),
        r[p].rdata is Soa,
        forall|k: int| 0 <= k < p ==> !((#[trigger] r[k]).rdata is Soa),
    ensures
        soa_ttl_from(r, i) == soa_ttl_from(r, p),
    decreases p - i,
{
    if i < p {
        lemma_first_soa(r, i + 1, p);
    }
}

/// Records are kept as long as the shortest of them says, or for the limit. An
/// absence is kept as long as the first SOA record says, by its minimum and its
/// own TTL, or for the limit; and not at all where there is none.
pub proof fn law_replies_are_kept_as_they_say(m: MessageView, name: Labels)
    ensures
        reply_records(m, name).len() > 0 ==> ({
            let ttl = reply_ttl(m, name);
            let records = reply_records(m, name);
            &&& ttl <= MAX_POSITIVE_TTL
            &&& forall|i: int| 0 <= i < records.len() ==> ttl <= (#[trigger] records[i]).ttl
            &&& ttl == MAX_POSITIVE_TTL || exists|i: int| 0 <= i < records.len() && (#[trigger] records[i]).ttl == ttl
        }),
        reply_records(m, name).len() == 0 ==> ({
            let ttl = reply_ttl(m, name);
            &&& (forall|k: int| 0 <= k < m.authority.len() ==> !((#[trigger] m.authority[k]).rdata is Soa)) ==> ttl == 0
            &&& forall|p: int|
                0 <= p < m.authority.len() && (#[trigger] m.authority[p]).rdata is Soa && (forall|k: int|
                    0 <= k < p ==> !((#[trigger] m.authority[k]).rdata is Soa)) ==> ttl == least_of(
                    m.authority[p].rdata->minimum,
                    m.authority[p].ttl,
                    MAX_NEGATIVE_TTL,
                )
        }),
{
    let records = reply_records(m, name);
    law_hostile_ttls_are_bounded(m, name);
    lemma_least_is_there(records, MAX_POSITIVE_TTL);
    if records.len() == 0 {
        if forall|k: int| 0 <= k < m.authority.len() ==> !((#[trigger] m.authority[k]).rdata is Soa) {
            lemma_no_soa(m.authority, 0);
        }
        assert forall|p: int|
            0 <= p < m.authority.len() && (#[trigger] m.authority[p]).rdata is Soa && (forall|k: int|
                0 <= k < p ==> !((#[trigger] m.authority[k]).rdata is Soa)) implies reply_ttl(m, name) == least_of(
            m.authority[p].rdata->minimum,
            m.authority[p].ttl,
            MAX_NEGATIVE_TTL,
        ) by {
            lemma_first_soa(m.authority, 0, p);
        }
    }
}

pub open spec fn least_of(a: u32, b: u32, c: u32) -> u32 {
    if a <= b && a <= c {
        a
    } else if b <= c {
        b
    } else {
        c
    }
}

// The next question.

/// Whether two states route names alike and know the same names themselves.
pub open spec fn alike(s: State, t: State) -> bool {
    &&& s.scopes == t.scopes
    &&& s.fallback_servers == t.fallback_servers
    &&& s.fallback_domains == t.fallback_domains
    &&& s.hostname == t.hostname
    &&& s.hosts == t.hosts
}

proof fn lemma_next_candidate_keeps(s: State, id: u64, now: Instant)
    ensures
        alike(s, next_candidate(s, id, now).0),
        next_candidate(s, id, now).0.cache == s.cache,
    decreases s.tasks[id].candidates.len(),
{
    if s.tasks.contains_key(id) && s.tasks[id].candidates.len() > 0 {
        let task = with_next_candidate(s.tasks[id]);
        let name = s.tasks[id].candidates[0];
        if let Some(scope) = route(s.scopes, s.fallback_servers, name) {
            let s1 = State { tasks: s.tasks.insert(id, TaskView { scope: Some(scope), ..task }), ..s };
            let s2 = State {
                counters: Counters { cache_hits: s.counters.cache_hits.wrapping_add(1), ..s.counters },
                ..s1
            };
            lemma_next_candidate_keeps(s2, id, now);
        }
    }
}

/// Whether bytes are the reply to a transaction that the resolver takes: they
/// answer it, in full or over TCP, with records or with the name's absence.
pub open spec fn takes(s: State, tx: u64, bytes: Seq<u8>) -> bool {
    s.txs.contains_key(tx) && s.tasks.contains_key(s.txs[tx].task) && (decode(bytes) matches Ok(m) && answers(
        s.txs[tx],
        m,
    ) && (!m.header.truncated || s.txs[tx].tcp) && (m.rcode() == rcode::NOERROR || m.rcode() == rcode::NXDOMAIN))
}

/// What a reply that is taken leaves in the cache, and that it changes nothing of
/// where names go.
proof fn lemma_taken(s: State, tx: u64, bytes: Seq<u8>, now: Instant)
    requires
        takes(s, tx, bytes),
    ensures
        ({
            let m = decode(bytes)->Ok_0;
            let task = s.tasks[s.txs[tx].task];
            let name = task.name();
            let s1 = received(s, tx, bytes, now).0;
            &&& alike(s, s1)
            &&& s1.cache == if reply_ttl(m, name) > 0 {
                inserted(
                    s.cache,
                    key_of(name, task.rtype, task.scope_id()),
                    reply_entry(m, name, s.txs[tx].server, now),
                )
            } else {
                s.cache
            }
        }),
{
    let m = decode(bytes)->Ok_0;
    let t = s.txs[tx];
    let s1 = State { txs: s.txs.remove(tx), ..s };
    let s2 = State {
        counters: Counters { upstream_answered: s.counters.upstream_answered.wrapping_add(1), ..s.counters },
        ..idle(s1, t.task)
    };
    let task = s2.tasks[t.task];
    assert(task.name() == s.tasks[t.task].name());
    let name = task.name();
    let cache = if reply_ttl(m, name) > 0 {
        inserted(s2.cache, key_of(name, task.rtype, task.scope_id()), reply_entry(m, name, t.server, now))
    } else {
        s2.cache
    };
    lemma_next_candidate_keeps(State { demoted: s2.demoted.remove(t.server), cache, ..s2 }, t.task, now);
}

/// Whether a question is one that goes out under its own name to a scope: it is
/// not a single label, and nothing local answers it.
pub open spec fn goes_to(s: State, name: Labels, rtype: u16, scope: Seq<char>) -> bool {
    &&& name.len() != 1
    &&& synthetic(s.scopes, s.hostname, s.hosts, name, rtype) is None
    &&& route(s.scopes, s.fallback_servers, name) == Some(scope)
}

/// A question that goes to a scope is answered at once from the cache where the
/// cache has it, and is otherwise sent, where a server and room are left.
pub proof fn law_cache_answers_or_servers_are_asked(
    s: State,
    qid: u64,
    text: Seq<u8>,
    rtype: u16,
    now: Instant,
    scope: Seq<char>,
)
    requires
        name_of_text(text) matches Ok(name) && goes_to(s, name, rtype, scope),
    ensures
        ({
            let name = name_of_text(text)->Ok_0;
            let a = resolved(s, qid, text, rtype, false, now).1;
            match cached(s.cache, key_of(name, rtype, scope), now) {
                Some(e) => a == seq![
                    ActionView::Done { qid, completion: CompletionView::Answer(cache_answer(s, e, scope, name)) },
                ],
                None => servers_of(s.scopes, s.fallback_servers, scope).len() > 0 && s.txs.len() < MAX_IN_FLIGHT
                    ==> a.len() == 1 && a[0] is Send,
            }
        }),
{
    let name = name_of_text(text)->Ok_0;
    let id = s.next_id;
    let s1 = started(counted(s), Owner::Resolve(qid), name, rtype, false);
    assert(candidates(s.scopes, s.fallback_domains, name) == seq![name]);
    let task = TaskView { candidates: seq![name], ..fresh_task(Owner::Resolve(qid), name, rtype, false) };
    let s2 = State { tasks: s1.tasks.insert(id, task), ..s1 };
    assert(resolved(s, qid, text, rtype, false, now) == next_candidate(s2, id, now));
    let current = TaskView { scope: Some(scope), ..with_next_candidate(task) };
    assert(current.candidates.len() == 0);
    let s3 = State { tasks: s2.tasks.insert(id, current), ..s2 };
    if cached(s.cache, key_of(name, rtype, scope), now) is None {
        assert(next_candidate(s2, id, now) == attempted(s3, id, now));
        let all = servers_of(s.scopes, s.fallback_servers, scope);
        law_failing_servers_are_tried_last(all, s.demoted, now);
        healthy_first(all, s.demoted, now).to_multiset_ensures();
        all.to_multiset_ensures();
    }
}

/// The task that a transaction is for.
pub open spec fn task_of(s: State, tx: u64) -> TaskView {
    s.tasks[s.txs[tx].task]
}

/// What the cache has a task's answer under.
pub open spec fn task_key(t: TaskView) -> CacheKeyView {
    key_of(t.name(), t.rtype, t.scope_id())
}

/// After a reply that is taken, the same question is answered at once from the
/// cache exactly as long as the reply is kept, and is otherwise sent: where
/// nothing has changed since where names go, which names are known, and what the
/// cache has for it, and, for a reply that is not kept at all, the cache held
/// nothing for it before.
pub proof fn law_reply_answers_until_it_expires(
    s: State,
    tx: u64,
    bytes: Seq<u8>,
    then: Instant,
    later: State,
    qid: u64,
    text: Seq<u8>,
    now: Instant,
)
    requires
        sound(s),
        takes(s, tx, bytes),
        then <= now,
        then <= LATEST,
        reply_ttl(decode(bytes)->Ok_0, task_of(s, tx).name()) == 0 ==> forall|t: Instant| #[trigger]
            cached(s.cache, task_key(task_of(s, tx)), t) is None,
        alike(s, later),
        forall|t: Instant| #[trigger]
            cached(later.cache, task_key(task_of(s, tx)), t) == cached(
                received(s, tx, bytes, then).0.cache,
                task_key(task_of(s, tx)),
                t,
            ),
        name_of_text(text) matches Ok(name) && same_name(name, task_of(s, tx).name()) && goes_to(
            later,
            name,
            task_of(s, tx).rtype,
            task_of(s, tx).scope_id(),
        ),
    ensures
        ({
            let m = decode(bytes)->Ok_0;
            let task = task_of(s, tx);
            let scope = task.scope_id();
            let name = name_of_text(text)->Ok_0;
            let kept = reply_entry(m, task.name(), s.txs[tx].server, then);
            let a = resolved(later, qid, text, task.rtype, false, now).1;
            if now < then + reply_ttl(m, task.name()) * SECOND {
                a == seq![
                    ActionView::Done {
                        qid,
                        completion: CompletionView::Answer(
                            cache_answer(
                                later,
                                EntryView { records: aged(kept.records, seconds_in(then, now)), ..kept },
                                scope,
                                name,
                            ),
                        ),
                    },
                ]
            } else {
                servers_of(later.scopes, later.fallback_servers, scope).len() > 0 && later.txs.len() < MAX_IN_FLIGHT
                    ==> a.len() == 1 && a[0] is Send
            }
        }),
{
    let m = decode(bytes)->Ok_0;
    let task = task_of(s, tx);
    let name = name_of_text(text)->Ok_0;
    let key = task_key(task);
    let kept = reply_entry(m, task.name(), s.txs[tx].server, then);
    assert(key_of(name, task.rtype, task.scope_id()) == key);
    lemma_taken(s, tx, bytes, then);
    law_hostile_ttls_are_bounded(m, task.name());
    assert(kept.expires == then + reply_ttl(m, task.name()) * SECOND);
    law_inserted_is_found(s.cache, key, kept, now);
    assert(reply_ttl(m, task.name()) == 0 ==> cached(s.cache, key, now) is None);
    assert(cached(later.cache, key, now) == cached(received(s, tx, bytes, then).0.cache, key, now));
    law_cache_answers_or_servers_are_asked(later, qid, text, task.rtype, now, task.scope_id());
}

/// A transport that fails, and a server that says that it failed, leave the
/// cache as it is.
pub proof fn law_failures_leave_the_cache(s: State, tx: u64, bytes: Seq<u8>, now: Instant)
    ensures
        failed(s, tx, now).0.cache == s.cache,
        !takes(s, tx, bytes) ==> received(s, tx, bytes, now).0.cache == s.cache,
{
}

} // verus!

//! What the engine tells fits what it found: an answer other than `Found` has
//! no records, and records are of class IN.
use crate::cache::{cached, inserted, key_of};
use crate::dns::message::{decode, MessageView};
use crate::dns::name::{name_of_text, Labels};
use crate::engine::answer::{bare, gathered, synthetic, AnswerView, Results, Source};
use crate::engine::model::{
    accepted, advanced, all_advanced, all_failed, answers, attempted, cache_answer, counted, demoted, failed, idle,
    looked_up, lookup_started, next_candidate, overdue, received, replied, reply_entry, reply_records, reply_ttl,
    resolved, run_of, sent, settled, started, ticked, types_of, with_next_candidate, ActionView, Actions,
    Counters, Family, LookupView, Owner, State, TaskView,
};
use crate::engine::scope::{candidates, interface_of, route};
use crate::engine::soundness::{
    cache_sound, honest, honest_answer, honest_records, lemma_cached, lemma_inserted_sound, lemma_recased, lemma_synthetic,
};
use crate::protocol::Outcome;
use crate::table::numbers;
use crate::time::Instant;
use vstd::prelude::*;

verus! {

/// Whether every answer among actions is honest.
pub open spec fn all_honest(a: Actions) -> bool {
    forall|i: int| 0 <= i < a.len() ==> honest(#[trigger] a[i])
}

/// Whether a step is honest and leaves the cache so that the next one is.
pub open spec fn stays_honest(r: (State, Actions)) -> bool {
    cache_sound(r.0.cache) && all_honest(r.1)
}

proof fn lemma_join(a: Actions, b: Actions)
    requires
        all_honest(a),
        all_honest(b),
    ensures
        all_honest(a + b),
{
    assert forall|i: int| 0 <= i < (a + b).len() implies honest(#[trigger] (a + b)[i]) by {
        if i < a.len() {
            assert((a + b)[i] == a[i]);
        } else {
            assert((a + b)[i] == b[i - a.len()]);
        }
    }
}

proof fn lemma_gathered(name: Labels, r: Results)
    ensures
        !gathered(name, r).any_found ==> gathered(name, r).addresses.len() == 0,
    decreases r.len(),
{
    if r.len() > 0 {
        lemma_gathered(name, r.drop_last());
    }
}

proof fn lemma_settled_honest(s: State, id: u64, answer: AnswerView)
    requires
        cache_sound(s.cache),
        honest_answer(answer),
    ensures
        stays_honest(settled(s, id, answer)),
{
    if s.tasks.contains_key(id) {
        let task = s.tasks[id];
        if let Owner::Lookup(qid) = task.owner {
            if s.lookups.contains_key(qid) {
                let l = s.lookups[qid];
                lemma_gathered(l.name, l.results.push((task.rtype, answer)));
            }
        }
    }
}

proof fn lemma_attempted_honest(s: State, id: u64, now: Instant)
    requires
        cache_sound(s.cache),
    ensures
        stays_honest(attempted(s, id, now)),
{
    let s1 = State { counters: Counters { refused: s.counters.refused.wrapping_add(1), ..s.counters }, ..s };
    let none = bare(Outcome::Unavailable);
    if s.tasks.contains_key(id) {
        let interface = interface_of(s.scopes, s.tasks[id].scope_id());
        lemma_settled_honest(s, id, AnswerView { interface, ..none });
        lemma_settled_honest(s, id, none);
        lemma_settled_honest(s1, id, none);
    }
}

proof fn lemma_next_candidate_honest(s: State, id: u64, now: Instant)
    requires
        cache_sound(s.cache),
    ensures
        stays_honest(next_candidate(s, id, now)),
    decreases s.tasks[id].candidates.len(),
{
    if s.tasks.contains_key(id) {
        lemma_settled_honest(s, id, bare(Outcome::NotFound));
        if s.tasks[id].candidates.len() > 0 {
            let task = with_next_candidate(s.tasks[id]);
            let name = s.tasks[id].candidates[0];
            match route(s.scopes, s.fallback_servers, name) {
                None => {
                    let s1 = State { tasks: s.tasks.insert(id, task), ..s };
                    lemma_settled_honest(s1, id, bare(Outcome::Unavailable));
                },
                Some(scope) => {
                    let s1 = State { tasks: s.tasks.insert(id, TaskView { scope: Some(scope), ..task }), ..s };
                    let s2 = State {
                        counters: Counters { cache_hits: s.counters.cache_hits.wrapping_add(1), ..s.counters },
                        ..s1
                    };
                    let key = key_of(name, task.rtype, scope);
                    lemma_attempted_honest(s1, id, now);
                    lemma_next_candidate_honest(s2, id, now);
                    lemma_cached(s.cache, key, now);
                    if let Some(e) = cached(s.cache, key, now) {
                        lemma_settled_honest(s2, id, cache_answer(s, e, scope, name));
                    }
                },
            }
        }
    }
}

proof fn lemma_advanced_honest(s: State, id: u64, now: Instant)
    requires
        cache_sound(s.cache),
    ensures
        stays_honest(advanced(s, id, now)),
{
    if s.tasks.contains_key(id) {
        let task = s.tasks[id];
        let names = candidates(s.scopes, s.fallback_domains, task.original);
        lemma_synthetic(s.scopes, s.hostname, s.hosts, task.original, task.rtype);
        if let Some(answer) = synthetic(s.scopes, s.hostname, s.hosts, task.original, task.rtype) {
            let s1 = State {
                counters: Counters { synthetic: s.counters.synthetic.wrapping_add(1), ..s.counters },
                ..s
            };
            lemma_settled_honest(s1, id, answer);
        }
        lemma_settled_honest(s, id, bare(Outcome::NotFound));
        lemma_next_candidate_honest(
            State { tasks: s.tasks.insert(id, TaskView { candidates: names, ..task }), ..s },
            id,
            now,
        );
        lemma_next_candidate_honest(s, id, now);
    }
}

proof fn lemma_all_advanced_honest(s: State, ids: Seq<u64>, now: Instant)
    requires
        cache_sound(s.cache),
    ensures
        stays_honest(all_advanced(s, ids, now)),
    decreases ids.len(),
{
    if ids.len() > 0 {
        let rest = ids.drop_last();
        lemma_all_advanced_honest(s, rest, now);
        let (s1, a) = all_advanced(s, rest, now);
        lemma_advanced_honest(s1, ids.last(), now);
        lemma_join(a, advanced(s1, ids.last(), now).1);
    }
}

/// What a question for records is told is honest.
pub proof fn lemma_resolved_honest(s: State, qid: u64, text: Seq<u8>, rtype: u16, no_cache: bool, now: Instant)
    requires
        cache_sound(s.cache),
    ensures
        stays_honest(resolved(s, qid, text, rtype, no_cache, now)),
{
    if let Ok(name) = name_of_text(text) {
        let s1 = started(counted(s), Owner::Resolve(qid), name, rtype, no_cache);
        lemma_advanced_honest(s1, s.next_id, now);
    }
}

proof fn lemma_lookup_started_cache(s: State, qid: u64, name: Labels, types: Seq<u16>)
    ensures
        lookup_started(s, qid, name, types).cache == s.cache,
    decreases types.len(),
{
    if types.len() > 0 {
        lemma_lookup_started_cache(s, qid, name, types.drop_last());
    }
}

/// What a question for addresses is told is honest.
pub proof fn lemma_looked_up_honest(s: State, qid: u64, text: Seq<u8>, family: Family, now: Instant)
    requires
        cache_sound(s.cache),
    ensures
        stays_honest(looked_up(s, qid, text, family, now)),
{
    if let Ok(name) = name_of_text(text) {
        let ids = run_of(s.next_id, types_of(family).len());
        let s1 = lookup_started(counted(s), qid, name, types_of(family));
        lemma_lookup_started_cache(counted(s), qid, name, types_of(family));
        let s2 = State {
            lookups: s1.lookups.insert(qid, LookupView { name, pending: ids, results: Seq::empty() }),
            ..s1
        };
        lemma_all_advanced_honest(s2, ids, now);
    }
}

/// What a reply leaves in the cache may be told.
pub proof fn lemma_reply_entry_honest(m: MessageView, name: Labels, server: Seq<u8>, now: Instant)
    ensures
        ({
            let e = reply_entry(m, name, server, now);
            e.outcome != Outcome::Unavailable && honest_records(
                e.outcome,
                e.records,
            )
        }),
{
    lemma_recased(m.answers, name);
}

/// What is told when bytes arrive is honest.
pub proof fn lemma_received_honest(s: State, tx: u64, bytes: Seq<u8>, now: Instant)
    requires
        cache_sound(s.cache),
    ensures
        stays_honest(received(s, tx, bytes, now)),
{
    if s.txs.contains_key(tx) {
        if let Ok(m) = decode(bytes) {
            if answers(s.txs[tx], m) {
                lemma_replied_honest(s, tx, m, now);
            }
        }
    }
}

proof fn lemma_replied_honest(s: State, tx: u64, m: MessageView, now: Instant)
    requires
        cache_sound(s.cache),
    ensures
        stays_honest(replied(s, tx, m, now)),
{
    let t = s.txs[tx];
    let s1 = State { txs: s.txs.remove(tx), ..s };
    if s1.tasks.contains_key(t.task) {
        let s2 = State {
            counters: Counters { upstream_answered: s.counters.upstream_answered.wrapping_add(1), ..s.counters },
            ..idle(s1, t.task)
        };
        lemma_accepted_honest(s2, t.task, t.server, m, now);
        let s3 = State {
            counters: Counters { upstream_failed: s.counters.upstream_failed.wrapping_add(1), ..s2.counters },
            ..demoted(s2, t.server, now)
        };
        lemma_attempted_honest(s3, t.task, now);
        assert(stays_honest(sent(s2, t.task, t.server, true, now)));
    }
}

proof fn lemma_accepted_honest(s: State, id: u64, server: Seq<u8>, m: MessageView, now: Instant)
    requires
        cache_sound(s.cache),
    ensures
        stays_honest(accepted(s, id, server, m, now)),
{
    let task = s.tasks[id];
    let name = task.name();
    let key = key_of(name, task.rtype, task.scope_id());
    let e = reply_entry(m, name, server, now);
    lemma_reply_entry_honest(m, name, server, now);
    lemma_inserted_sound(s.cache, key, e);
    let cache = if reply_ttl(m, name) > 0 {
        inserted(s.cache, key, e)
    } else {
        s.cache
    };
    let s1 = State { demoted: s.demoted.remove(server), cache, ..s };
    lemma_next_candidate_honest(s1, id, now);
    lemma_settled_honest(
        s1,
        id,
        AnswerView {
            outcome: e.outcome,
            records: reply_records(m, name),
            source: Source::Dns,
            server: Some(server),
            interface: interface_of(s.scopes, task.scope_id()),
            rcode: m.rcode(),
            resolved_name: Some(name),
        },
    );
}

/// What is told when a transport failed is honest.
pub proof fn lemma_failed_honest(s: State, tx: u64, now: Instant)
    requires
        cache_sound(s.cache),
    ensures
        stays_honest(failed(s, tx, now)),
{
    if s.txs.contains_key(tx) {
        let t = s.txs[tx];
        let s1 = State {
            txs: s.txs.remove(tx),
            counters: Counters { upstream_failed: s.counters.upstream_failed.wrapping_add(1), ..s.counters },
            ..s
        };
        lemma_attempted_honest(idle(demoted(s1, t.server, now), t.task), t.task, now);
    }
}

proof fn lemma_all_failed_honest(s: State, gone: Seq<u64>, now: Instant)
    requires
        cache_sound(s.cache),
    ensures
        stays_honest(all_failed(s, gone, now)),
    decreases gone.len(),
{
    if gone.len() > 0 {
        let rest = gone.drop_last();
        lemma_all_failed_honest(s, rest, now);
        let (s1, a) = all_failed(s, rest, now);
        lemma_failed_honest(s1, gone.last(), now);
        let cancel = seq![ActionView::Cancel { tx: gone.last() }];
        assert(all_honest(cancel));
        lemma_join(a, cancel);
        lemma_join(a + cancel, failed(s1, gone.last(), now).1);
    }
}

/// What is told as time passes is honest.
pub proof fn lemma_ticked_honest(s: State, now: Instant)
    requires
        cache_sound(s.cache),
    ensures
        stays_honest(ticked(s, now)),
{
    lemma_all_failed_honest(s, overdue(s, numbers(s.txs), now), now);
}

} // verus!

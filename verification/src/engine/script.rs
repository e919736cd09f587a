//! Whole runs of the engine: whatever it is asked and told, and in whatever
//! order, every question is answered exactly once.
use crate::cache::{inserted, key_of};
use crate::dns::message::decode;
use crate::dns::name::{name_of_text, name_text, reverse_name, Labels};
use crate::dns::rtype;
use crate::engine::answer::Hosts;
use crate::engine::model::{
    advanced, all_advanced, all_failed, answers, attempted, counted, failed, idle, initial, lemma_advanced_ids,
    lemma_failed_ids, lemma_next_candidate_ids, looked_up, lookup_started, next_candidate, overdue, received, replied,
    reply_entry, reply_ttl, rescoped, resolved, reversed, run_of, started, ticked, types_of, with_fallback,
    with_next_candidate, ActionView, Actions, Counters, Family, LookupView, Owner, State, TaskView, TxView,
    MAX_ATTEMPTS, MAX_IN_FLIGHT, SERVER_TIMEOUT,
};
use crate::engine::scope::{candidates, route, ScopeView};
use crate::engine::soundness::{
    answered, count, dones, due, is_open, is_send, law_configuration_is_sound, law_failure_is_sound, law_fallback_is_sound,
    law_initial_is_sound, law_lookup_is_sound, law_reply_is_sound, law_resolve_is_sound, law_reverse_is_sound,
    law_scopes_are_sound, law_tick_is_sound, lemma_all_failed, lemma_dones_join, lemma_overdue, lemma_push_contains,
    lookup_sound, sound, steps, task_sound, tx_sound,
};
use crate::table::{increasing, lemma_numbers, lemma_numbers_len, numbers};
use crate::time::{Instant, LATEST};
use vstd::prelude::*;

verus! {

/// Something that the engine is asked or told.
pub enum Input {
    Resolve { qid: u64, text: Seq<u8>, rtype: u16, no_cache: bool },
    Lookup { qid: u64, text: Seq<u8>, family: Family },
    Reverse { qid: u64, address: Seq<u8> },
    Received { tx: u64, bytes: Seq<u8> },
    Failed { tx: u64 },
    Tick,
    Scopes(Seq<ScopeView>),
    Fallback { servers: Seq<Seq<u8>>, domains: Seq<Labels> },
    Hostname(Option<Labels>),
    StaticHosts(Hosts),
    Flush,
}

impl Input {
    /// The question that is asked.
    pub open spec fn asked(self) -> Option<u64> {
        match self {
            Input::Resolve { qid, text: _, rtype: _, no_cache: _ } => Some(qid),
            Input::Lookup { qid, text: _, family: _ } => Some(qid),
            Input::Reverse { qid, address: _ } => Some(qid),
            _ => None,
        }
    }

    /// The transactions that are over by it.
    pub open spec fn spends(self, s: State, now: Instant) -> Set<u64> {
        match self {
            Input::Received { tx, bytes } => answered(s, tx, bytes),
            Input::Failed { tx } => Set::empty().insert(tx),
            Input::Tick => due(s, now).to_set(),
            _ => Set::empty(),
        }
    }
}

/// What an input does.
pub open spec fn stepped(s: State, input: Input, now: Instant) -> (State, Actions) {
    match input {
        Input::Resolve { qid, text, rtype, no_cache } => resolved(s, qid, text, rtype, no_cache, now),
        Input::Lookup { qid, text, family } => looked_up(s, qid, text, family, now),
        Input::Reverse { qid, address } => reversed(s, qid, address, now),
        Input::Received { tx, bytes } => received(s, tx, bytes, now),
        Input::Failed { tx } => failed(s, tx, now),
        Input::Tick => ticked(s, now),
        Input::Scopes(new) => (rescoped(s, new), Seq::empty()),
        Input::Fallback { servers, domains } => (with_fallback(s, servers, domains), Seq::empty()),
        Input::Hostname(hostname) => (State { hostname, ..s }, Seq::empty()),
        Input::StaticHosts(hosts) => (State { hosts, ..s }, Seq::empty()),
        Input::Flush => (State { cache: Seq::empty(), ..s }, Seq::empty()),
    }
}

/// More numbers than any input uses.
pub const MOST_NUMBERS: u64 = 4100;

proof fn lemma_received_ids(s: State, tx: u64, bytes: Seq<u8>, now: Instant)
    requires
        s.next_id < u64::MAX,
    ensures
        received(s, tx, bytes, now).0.next_id <= s.next_id + 1,
{
    if s.txs.contains_key(tx) {
        if let Ok(m) = decode(bytes) {
            if answers(s.txs[tx], m) {
                let t = s.txs[tx];
                let s1 = State { txs: s.txs.remove(tx), ..s };
                let s2 = State {
                    counters: Counters {
                        upstream_answered: s.counters.upstream_answered.wrapping_add(1),
                        ..s.counters
                    },
                    ..idle(s1, t.task)
                };
                let task = s2.tasks[t.task];
                let name = task.name();
                let key = key_of(name, task.rtype, task.scope_id());
                let cache = if reply_ttl(m, name) > 0 {
                    inserted(s2.cache, key, reply_entry(m, name, t.server, now))
                } else {
                    s2.cache
                };
                lemma_next_candidate_ids(State { demoted: s2.demoted.remove(t.server), cache, ..s2 }, t.task, now);
                assert(replied(s, tx, m, now).0.next_id <= s.next_id + 1);
            }
        }
    }
}

/// Whatever the input, the tables stay in order: see [`steps`].
pub proof fn law_input_is_sound(s: State, input: Input, now: Instant)
    requires
        sound(s),
        s.next_id + MOST_NUMBERS < u64::MAX,
        input.asked() matches Some(q) ==> !is_open(s, q),
    ensures
        sound(stepped(s, input, now).0),
        steps(s, stepped(s, input, now).0, stepped(s, input, now).1, input.asked(), input.spends(s, now)),
        stepped(s, input, now).0.next_id <= s.next_id + MOST_NUMBERS,
{
    match input {
        Input::Resolve { qid, text, rtype, no_cache } => {
            law_resolve_is_sound(s, qid, text, rtype, no_cache, now);
            lemma_resolved_ids(s, qid, text, rtype, no_cache, now);
        },
        Input::Lookup { qid, text, family } => {
            law_lookup_is_sound(s, qid, text, family, now);
        },
        Input::Reverse { qid, address } => {
            law_reverse_is_sound(s, qid, address, now);
            lemma_resolved_ids(s, qid, name_text(reverse_name(address)), rtype::PTR, false, now);
        },
        Input::Received { tx, bytes } => {
            law_reply_is_sound(s, tx, bytes, now);
            lemma_received_ids(s, tx, bytes, now);
        },
        Input::Failed { tx } => {
            law_failure_is_sound(s, tx, now);
            lemma_failed_ids(s, tx, now);
        },
        Input::Tick => {
            law_tick_is_sound(s, now);
        },
        Input::Scopes(new) => {
            law_scopes_are_sound(s, new);
        },
        Input::Fallback { servers, domains } => {
            law_fallback_is_sound(s, servers, domains);
        },
        Input::Hostname(hostname) => {
            law_configuration_is_sound(s, State { hostname, ..s });
        },
        Input::StaticHosts(hosts) => {
            law_configuration_is_sound(s, State { hosts, ..s });
        },
        Input::Flush => {
            law_configuration_is_sound(s, State { cache: Seq::empty(), ..s });
        },
    }
}

proof fn lemma_resolved_ids(s: State, qid: u64, text: Seq<u8>, rtype: u16, no_cache: bool, now: Instant)
    requires
        s.next_id < u64::MAX - 1,
    ensures
        resolved(s, qid, text, rtype, no_cache, now).0.next_id <= s.next_id + 2,
{
    if let Ok(name) = name_of_text(text) {
        lemma_advanced_ids(started(counted(s), Owner::Resolve(qid), name, rtype, no_cache), s.next_id, now);
    }
}

/// Inputs, each with its time.
pub type Script = Seq<(Input, Instant)>;

/// What a script comes to.
pub open spec fn run(s: State, script: Script) -> (State, Actions)
    decreases script.len(),
{
    if script.len() == 0 {
        (s, Seq::empty())
    } else {
        let (s1, before) = run(s, script.drop_last());
        let (s2, actions) = stepped(s1, script.last().0, script.last().1);
        (s2, before + actions)
    }
}

/// How often a question is asked.
pub open spec fn asks(script: Script, q: u64) -> nat
    decreases script.len(),
{
    if script.len() == 0 {
        0
    } else {
        asks(script.drop_last(), q) + count(script.last().0.asked() == Some(q))
    }
}

/// Whether no question is asked twice.
pub open spec fn asks_once(script: Script) -> bool {
    forall|q: u64| #[trigger] asks(script, q) <= 1
}

/// At any time of a script, a question that was asked is open or was answered
/// once.
pub proof fn law_run_is_sound(seed: u64, script: Script)
    requires
        asks_once(script),
        (script.len() + 1) * MOST_NUMBERS + 1 < u64::MAX,
    ensures
        sound(run(initial(seed), script).0),
        run(initial(seed), script).0.txs.len() <= MAX_IN_FLIGHT,
        run(initial(seed), script).0.next_id <= 1 + script.len() * MOST_NUMBERS,
        forall|q: u64| #[trigger]
            dones(run(initial(seed), script).1, q) + count(is_open(run(initial(seed), script).0, q)) == asks(script, q),
    decreases script.len(),
{
    let s = initial(seed);
    law_initial_is_sound(seed);
    if script.len() > 0 {
        let rest = script.drop_last();
        let (input, now) = script.last();
        assert forall|q: u64| #[trigger] asks(rest, q) <= 1 by {
            assert(asks(script, q) <= 1);
        }
        law_run_is_sound(seed, rest);
        let (s1, before) = run(s, rest);
        let (s2, actions) = stepped(s1, input, now);
        if let Some(q) = input.asked() {
            assert(asks(script, q) <= 1);
            assert(dones(before, q) + count(is_open(s1, q)) == asks(rest, q));
        }
        law_input_is_sound(s1, input, now);
        assert forall|q: u64| #[trigger] dones(before + actions, q) + count(is_open(s2, q)) == asks(script, q) by {
            lemma_dones_join(before, actions, q);
            assert(dones(before, q) + count(is_open(s1, q)) == asks(rest, q));
            assert(dones(actions, q) + count(is_open(s2, q)) == count(is_open(s1, q)) + count(input.asked() == Some(q)));
        }
    }
}

// Time alone.

/// Whether every transaction is past its deadline.
pub open spec fn all_due(s: State, now: Instant) -> bool {
    forall|tx: u64| #[trigger] s.txs.contains_key(tx) ==> s.txs[tx].deadline <= now
}

/// Whether every task has made so many attempts.
pub open spec fn tried_often(s: State, n: nat) -> bool {
    forall|id: u64| #[trigger] s.tasks.contains_key(id) ==> s.tasks[id].attempt >= n
}

proof fn lemma_failed_tables(s: State, tx: u64, now: Instant)
    requires
        sound(s),
        s.txs.contains_key(tx),
        now <= LATEST,
    ensures
        ({
            let s1 = failed(s, tx, now).0;
            &&& forall|x: u64| #[trigger]
                s1.tasks.contains_key(x) ==> s.tasks.contains_key(x) && (if x == s.txs[tx].task {
                    s1.tasks[x].attempt == s.tasks[x].attempt + 1
                } else {
                    s1.tasks[x] == s.tasks[x]
                })
            &&& forall|y: u64| #[trigger]
                s1.txs.contains_key(y) ==> (if y < s.next_id {
                    s.txs.contains_key(y) && y != tx && s1.txs[y] == s.txs[y]
                } else {
                    s1.txs[y].deadline == now + SERVER_TIMEOUT
                })
        }),
{
    assert(tx_sound(s, tx));
    assert(task_sound(s, s.txs[tx].task, Set::empty()));
    let s1 = failed(s, tx, now).0;
    assert forall|y: u64| #[trigger] s1.txs.contains_key(y) implies (if y < s.next_id {
        s.txs.contains_key(y) && y != tx && s1.txs[y] == s.txs[y]
    } else {
        s1.txs[y].deadline == now + SERVER_TIMEOUT
    }) by {
        if s.txs.contains_key(y) {
            assert(tx_sound(s, y));
        }
    }
}

/// What is left when transactions are given up.
proof fn lemma_all_failed_tables(s: State, gone: Seq<u64>, now: Instant)
    requires
        sound(s),
        increasing(gone),
        forall|i: int| 0 <= i < gone.len() ==> s.txs.contains_key(#[trigger] gone[i]),
        s.next_id + gone.len() < u64::MAX,
        now <= LATEST,
    ensures
        ({
            let s1 = all_failed(s, gone, now).0;
            &&& forall|x: u64| #[trigger]
                s1.tasks.contains_key(x) ==> s.tasks.contains_key(x) && (if gone.contains(s.tasks[x].tx->0) {
                    s1.tasks[x].attempt == s.tasks[x].attempt + 1
                } else {
                    s1.tasks[x] == s.tasks[x]
                })
            &&& forall|y: u64| #[trigger]
                s1.txs.contains_key(y) ==> (if y < s.next_id {
                    s.txs.contains_key(y) && !gone.contains(y) && s1.txs[y] == s.txs[y]
                } else {
                    s1.txs[y].deadline == now + SERVER_TIMEOUT
                })
        }),
    decreases gone.len(),
{
    if gone.len() > 0 {
        let rest = gone.drop_last();
        let tx = gone.last();
        lemma_all_failed(s, rest, now);
        lemma_all_failed_tables(s, rest, now);
        let (s0, a0) = all_failed(s, rest, now);
        let s1 = all_failed(s, gone, now).0;
        assert(gone =~= rest.push(tx));
        assert(s.txs.contains_key(gone[gone.len() - 1]));
        assert(!rest.contains(tx)) by {
            if rest.contains(tx) {
                let k = choose|k: int| 0 <= k < rest.len() && rest[k] == tx;
                assert(gone[k] < gone[gone.len() - 1]);
            }
        }
        assert(!rest.to_set().contains(tx));
        assert(s0.txs.contains_key(tx));
        assert(tx_sound(s, tx));
        assert(tx_sound(s0, tx));
        let id = s.txs[tx].task;
        assert(s0.txs[tx].task == id);
        lemma_failed_tables(s0, tx, now);
        assert forall|x: u64| #[trigger] gone.contains(x) <==> rest.contains(x) || x == tx by {
            lemma_push_contains(rest, tx, x);
        }
        assert forall|x: u64| #[trigger] s1.tasks.contains_key(x) implies s.tasks.contains_key(x) && (if gone.contains(
            s.tasks[x].tx->0,
        ) {
            s1.tasks[x].attempt == s.tasks[x].attempt + 1
        } else {
            s1.tasks[x] == s.tasks[x]
        }) by {
            assert(s0.tasks.contains_key(x));
            assert(s.tasks.contains_key(x));
            assert(task_sound(s, x, Set::empty()));
            assert(task_sound(s, id, Set::empty()));
        }
        assert forall|y: u64| #[trigger] s1.txs.contains_key(y) implies (if y < s.next_id {
            s.txs.contains_key(y) && !gone.contains(y) && s1.txs[y] == s.txs[y]
        } else {
            s1.txs[y].deadline == now + SERVER_TIMEOUT
        }) by {
            if y < s0.next_id {
                assert(s0.txs.contains_key(y));
            }
        }
    }
}

/// When all that is open is past its deadline, every task makes one more
/// attempt or ends, and waits no longer than the timeout.
proof fn lemma_tick_moves_all(s: State, now: Instant, n: nat)
    requires
        sound(s),
        s.next_id + s.txs.len() < u64::MAX,
        now <= LATEST,
        all_due(s, now),
        tried_often(s, n),
    ensures
        all_due(ticked(s, now).0, (now + SERVER_TIMEOUT) as u64),
        tried_often(ticked(s, now).0, n + 1),
{
    lemma_numbers(s.txs);
    lemma_numbers_len(s.txs);
    let all = numbers(s.txs);
    lemma_overdue(s, all, now);
    let d = due(s, now);
    lemma_all_failed_tables(s, d, now);
    let s1 = ticked(s, now).0;
    assert forall|tx: u64| #[trigger] s.txs.contains_key(tx) implies d.contains(tx) by {
        let k = choose|k: int| 0 <= k < all.len() && all[k] == tx;
        assert(d.contains(all[k]));
    }
    assert forall|x: u64| #[trigger] s1.tasks.contains_key(x) implies s1.tasks[x].attempt >= n + 1 by {
        assert(s.tasks.contains_key(x));
        assert(task_sound(s, x, Set::empty()));
        assert(d.contains(s.tasks[x].tx->0));
    }
}

/// Ticks one after the other.
pub open spec fn ticks(s: State, times: Seq<Instant>) -> (State, Actions)
    decreases times.len(),
{
    if times.len() == 0 {
        (s, Seq::empty())
    } else {
        let (s1, before) = ticks(s, times.drop_last());
        let (s2, actions) = ticked(s1, times.last());
        (s2, before + actions)
    }
}

/// Whether times follow each other by no less than the timeout, the first of
/// them past every deadline.
pub open spec fn spaced(s: State, times: Seq<Instant>) -> bool {
    &&& times.len() > 0 ==> all_due(s, times[0])
    &&& forall|i: int| 0 <= i < times.len() ==> #[trigger] times[i] <= LATEST
    &&& forall|i: int, j: int|
        0 <= i < times.len() && j == i + 1 && j < times.len() ==> #[trigger] times[i] + SERVER_TIMEOUT
            <= #[trigger] times[j]
}

proof fn lemma_ticks(s: State, times: Seq<Instant>)
    requires
        sound(s),
        s.next_id + times.len() * MOST_NUMBERS < u64::MAX,
        spaced(s, times),
    ensures
        sound(ticks(s, times).0),
        ticks(s, times).0.next_id <= s.next_id + times.len() * MOST_NUMBERS,
        times.len() > 0 ==> all_due(ticks(s, times).0, (times.last() + SERVER_TIMEOUT) as u64),
        tried_often(ticks(s, times).0, times.len() + 1),
        forall|q: u64| #[trigger] dones(ticks(s, times).1, q) + count(is_open(ticks(s, times).0, q)) == count(is_open(s, q)),
    decreases times.len(),
{
    if times.len() == 0 {
        assert forall|id: u64| #[trigger] s.tasks.contains_key(id) implies s.tasks[id].attempt >= 1 by {
            assert(task_sound(s, id, Set::empty()));
        }
    } else {
        let rest = times.drop_last();
        let now = times.last();
        assert(times[times.len() - 1] == now);
        assert forall|i: int| 0 <= i < rest.len() implies #[trigger] rest[i] <= LATEST by {
            assert(rest[i] == times[i]);
        }
        assert forall|i: int, j: int|
            0 <= i < rest.len() && j == i + 1 && j < rest.len() implies #[trigger] rest[i] + SERVER_TIMEOUT
            <= #[trigger] rest[j] by {
            assert(rest[i] == times[i] && rest[j] == times[j]);
        }
        if rest.len() > 0 {
            assert(rest[0] == times[0]);
        }
        lemma_ticks(s, rest);
        let (s1, before) = ticks(s, rest);
        let (s2, actions) = ticked(s1, now);
        assert(all_due(s1, now)) by {
            if rest.len() > 0 {
                let last = rest[rest.len() - 1];
                assert(times[rest.len() - 1] == last);
                assert(last + SERVER_TIMEOUT <= now);
            }
        }
        law_tick_is_sound(s1, now);
        lemma_tick_moves_all(s1, now, times.len());
        assert forall|q: u64| #[trigger] dones(before + actions, q) + count(is_open(s2, q)) == count(is_open(s, q)) by {
            lemma_dones_join(before, actions, q);
            assert(dones(before, q) + count(is_open(s1, q)) == count(is_open(s, q)));
            assert(dones(actions, q) + count(is_open(s2, q)) == count(is_open(s1, q)));
        }
    }
}

/// Time alone ends everything: after as many timeouts as there are attempts
/// nothing is in flight, no question is open, and those that were are
/// answered, once each.
pub proof fn law_time_drains(s: State, times: Seq<Instant>)
    requires
        sound(s),
        s.next_id + times.len() * MOST_NUMBERS < u64::MAX,
        spaced(s, times),
        times.len() >= MAX_ATTEMPTS,
    ensures
        forall|tx: u64| !#[trigger] ticks(s, times).0.txs.contains_key(tx),
        forall|q: u64| !#[trigger] is_open(ticks(s, times).0, q),
        forall|q: u64| #[trigger] dones(ticks(s, times).1, q) == count(is_open(s, q)),
{
    lemma_ticks(s, times);
    let end = ticks(s, times).0;
    assert forall|id: u64| !#[trigger] end.tasks.contains_key(id) by {
        if end.tasks.contains_key(id) {
            assert(task_sound(end, id, Set::empty()));
        }
    }
    assert forall|tx: u64| !#[trigger] end.txs.contains_key(tx) by {
        if end.txs.contains_key(tx) {
            assert(tx_sound(end, tx));
        }
    }
    assert forall|q: u64| !#[trigger] is_open(end, q) by {
        if end.lookups.contains_key(q) {
            assert(lookup_sound(end, q));
            assert(end.tasks.contains_key(end.lookups[q].pending[0]));
        }
    }
    assert forall|q: u64| #[trigger] dones(ticks(s, times).1, q) == count(is_open(s, q)) by {
        assert(!is_open(end, q));
    }
}

// How long things take.

proof fn lemma_attempted_deadlines(s: State, id: u64, now: Instant, by: Instant)
    requires
        all_due(s, by),
        now + SERVER_TIMEOUT == by,
    ensures
        all_due(attempted(s, id, now).0, by),
{
}

proof fn lemma_next_candidate_deadlines(s: State, id: u64, now: Instant, by: Instant)
    requires
        all_due(s, by),
        now + SERVER_TIMEOUT == by,
    ensures
        all_due(next_candidate(s, id, now).0, by),
    decreases s.tasks[id].candidates.len(),
{
    if s.tasks.contains_key(id) && s.tasks[id].candidates.len() > 0 {
        let task = with_next_candidate(s.tasks[id]);
        let name = s.tasks[id].candidates[0];
        if let Some(scope) = route(s.scopes, s.fallback_servers, name) {
            let s1 = State { tasks: s.tasks.insert(id, TaskView { scope: Some(scope), ..task }), ..s };
            let s2 = State {
                counters: Counters { cache_hits: s.counters.cache_hits.wrapping_add(1), ..s.counters },
                ..s1
            };
            lemma_attempted_deadlines(s1, id, now, by);
            lemma_next_candidate_deadlines(s2, id, now, by);
        }
    }
}

proof fn lemma_advanced_deadlines(s: State, id: u64, now: Instant, by: Instant)
    requires
        all_due(s, by),
        now + SERVER_TIMEOUT == by,
    ensures
        all_due(advanced(s, id, now).0, by),
{
    if s.tasks.contains_key(id) {
        let names = candidates(s.scopes, s.fallback_domains, s.tasks[id].original);
        lemma_next_candidate_deadlines(
            State { tasks: s.tasks.insert(id, TaskView { candidates: names, ..s.tasks[id] }), ..s },
            id,
            now,
            by,
        );
        lemma_next_candidate_deadlines(s, id, now, by);
    }
}

proof fn lemma_all_advanced_deadlines(s: State, ids: Seq<u64>, now: Instant, by: Instant)
    requires
        all_due(s, by),
        now + SERVER_TIMEOUT == by,
    ensures
        all_due(all_advanced(s, ids, now).0, by),
    decreases ids.len(),
{
    if ids.len() > 0 {
        lemma_all_advanced_deadlines(s, ids.drop_last(), now, by);
        lemma_advanced_deadlines(all_advanced(s, ids.drop_last(), now).0, ids.last(), now, by);
    }
}

proof fn lemma_lookup_started_txs(s: State, qid: u64, name: Labels, types: Seq<u16>)
    ensures
        lookup_started(s, qid, name, types).txs == s.txs,
    decreases types.len(),
{
    if types.len() > 0 {
        lemma_lookup_started_txs(s, qid, name, types.drop_last());
    }
}

proof fn lemma_received_deadlines(s: State, tx: u64, bytes: Seq<u8>, now: Instant, by: Instant)
    requires
        all_due(s, by),
        now + SERVER_TIMEOUT == by,
    ensures
        all_due(received(s, tx, bytes, now).0, by),
{
    if s.txs.contains_key(tx) {
        if let Ok(m) = decode(bytes) {
            if answers(s.txs[tx], m) {
                let t = s.txs[tx];
                let s1 = State { txs: s.txs.remove(tx), ..s };
                let s2 = State {
                    counters: Counters {
                        upstream_answered: s.counters.upstream_answered.wrapping_add(1),
                        ..s.counters
                    },
                    ..idle(s1, t.task)
                };
                let task = s2.tasks[t.task];
                let name = task.name();
                let key = key_of(name, task.rtype, task.scope_id());
                let cache = if reply_ttl(m, name) > 0 {
                    inserted(s2.cache, key, reply_entry(m, name, t.server, now))
                } else {
                    s2.cache
                };
                lemma_next_candidate_deadlines(
                    State { demoted: s2.demoted.remove(t.server), cache, ..s2 },
                    t.task,
                    now,
                    by,
                );
                assert(all_due(replied(s, tx, m, now).0, by));
            }
        }
    }
}

proof fn lemma_all_failed_deadlines(s: State, gone: Seq<u64>, now: Instant, by: Instant)
    requires
        all_due(s, by),
        now + SERVER_TIMEOUT == by,
    ensures
        all_due(all_failed(s, gone, now).0, by),
    decreases gone.len(),
{
    if gone.len() > 0 {
        lemma_all_failed_deadlines(s, gone.drop_last(), now, by);
        let s1 = all_failed(s, gone.drop_last(), now).0;
        assert(all_due(failed(s1, gone.last(), now).0, by));
    }
}

/// Whatever the input, no transaction waits longer than the timeout from then
/// on, where none did.
proof fn lemma_stepped_deadlines(s: State, input: Input, now: Instant, by: Instant)
    requires
        all_due(s, by),
        now + SERVER_TIMEOUT == by,
    ensures
        all_due(stepped(s, input, now).0, by),
{
    match input {
        Input::Resolve { qid, text, rtype, no_cache } => {
            if let Ok(name) = name_of_text(text) {
                let s1 = started(counted(s), Owner::Resolve(qid), name, rtype, no_cache);
                lemma_advanced_deadlines(s1, s.next_id, now, by);
            }
        },
        Input::Lookup { qid, text, family } => {
            if let Ok(name) = name_of_text(text) {
                let ids = run_of(s.next_id, types_of(family).len());
                let s1 = lookup_started(counted(s), qid, name, types_of(family));
                lemma_lookup_started_txs(counted(s), qid, name, types_of(family));
                let s2 = State {
                    lookups: s1.lookups.insert(qid, LookupView { name, pending: ids, results: Seq::empty() }),
                    ..s1
                };
                lemma_all_advanced_deadlines(s2, ids, now, by);
            }
        },
        Input::Reverse { qid, address } => {
            if let Ok(name) = name_of_text(name_text(reverse_name(address))) {
                let s1 = started(counted(s), Owner::Resolve(qid), name, rtype::PTR, false);
                lemma_advanced_deadlines(s1, s.next_id, now, by);
            }
        },
        Input::Received { tx, bytes } => lemma_received_deadlines(s, tx, bytes, now, by),
        Input::Failed { tx } => {},
        Input::Tick => lemma_all_failed_deadlines(s, overdue(s, numbers(s.txs), now), now, by),
        _ => {},
    }
}

/// Whether time never goes back in a script.
pub open spec fn in_time(script: Script) -> bool {
    &&& forall|i: int| 0 <= i < script.len() ==> (#[trigger] script[i]).1 <= LATEST
    &&& forall|i: int, j: int| 0 <= i < j < script.len() ==> (#[trigger] script[i]).1 <= (#[trigger] script[j]).1
}

/// Where time never goes back, every deadline is at most the timeout after the
/// last time used.
pub proof fn law_deadlines_are_near(seed: u64, script: Script)
    requires
        in_time(script),
    ensures
        script.len() == 0 ==> run(initial(seed), script).0.txs == Map::<u64, TxView>::empty(),
        script.len() > 0 ==> all_due(run(initial(seed), script).0, (script.last().1 + SERVER_TIMEOUT) as u64),
    decreases script.len(),
{
    if script.len() > 0 {
        let rest = script.drop_last();
        assert forall|i: int| 0 <= i < rest.len() implies (#[trigger] rest[i]).1 <= LATEST by {
            assert(rest[i] == script[i]);
        }
        assert forall|i: int, j: int| 0 <= i < j < rest.len() implies (#[trigger] rest[i]).1 <= (
        #[trigger] rest[j]).1 by {
            assert(rest[i] == script[i] && rest[j] == script[j]);
        }
        law_deadlines_are_near(seed, rest);
        let s = run(initial(seed), rest).0;
        let (input, now) = script.last();
        assert(script[script.len() - 1].1 <= LATEST);
        if rest.len() > 0 {
            assert(script[rest.len() - 1] == rest[rest.len() - 1]);
            assert(script[rest.len() - 1].1 <= script[script.len() - 1].1);
        }
        let by = (now + SERVER_TIMEOUT) as u64;
        assert(all_due(s, by));
        lemma_stepped_deadlines(s, input, now, by);
    }
}

/// Whether times follow each other, and what a script used, by no less than
/// the timeout.
pub open spec fn waits(script: Script, times: Seq<Instant>) -> bool {
    &&& times.len() > 0 && script.len() > 0 ==> script.last().1 + SERVER_TIMEOUT <= times[0]
    &&& forall|i: int| 0 <= i < times.len() ==> #[trigger] times[i] <= LATEST
    &&& forall|i: int, j: int|
        0 <= i < times.len() && j == i + 1 && j < times.len() ==> #[trigger] times[i] + SERVER_TIMEOUT
            <= #[trigger] times[j]
}

/// Where time never goes back, ticks that wait long enough find everything past
/// its deadline.
proof fn lemma_waits_are_spaced(seed: u64, script: Script, times: Seq<Instant>)
    requires
        in_time(script),
        waits(script, times),
    ensures
        spaced(run(initial(seed), script).0, times),
{
    law_deadlines_are_near(seed, script);
    if script.len() > 0 && times.len() > 0 {
        assert(script[script.len() - 1].1 <= LATEST);
    }
}

/// Whether a sent transaction stands right behind the end of an overdue one, and
/// is for the same task.
pub open spec fn retries(s: State, s1: State, a: Actions, i: int, y: u64) -> bool {
    i > 0 && (a[i - 1] matches ActionView::Cancel { tx } && s.txs.contains_key(tx) && s1.txs.contains_key(y)
        && s1.txs[y].task == s.txs[tx].task)
}

proof fn lemma_failed_sends(s: State, tx: u64, now: Instant)
    requires
        s.txs.contains_key(tx),
    ensures
        failed(s, tx, now).1.len() <= 1,
        forall|y: u64| failed(s, tx, now).1.len() == 1 && #[trigger] is_send(failed(s, tx, now).1[0], y) ==> failed(
            s,
            tx,
            now,
        ).0.txs.contains_key(y) && failed(s, tx, now).0.txs[y].task == s.txs[tx].task,
{
}

proof fn lemma_all_failed_retries(s: State, gone: Seq<u64>, now: Instant)
    requires
        sound(s),
        increasing(gone),
        forall|i: int| 0 <= i < gone.len() ==> s.txs.contains_key(#[trigger] gone[i]),
        s.next_id + gone.len() < u64::MAX,
        now <= LATEST,
    ensures
        ({
            let (s1, a) = all_failed(s, gone, now);
            forall|i: int, y: u64| 0 <= i < a.len() && #[trigger] is_send(a[i], y) ==> retries(s, s1, a, i, y)
        }),
    decreases gone.len(),
{
    if gone.len() > 0 {
        let rest = gone.drop_last();
        let tx = gone.last();
        lemma_all_failed(s, rest, now);
        lemma_all_failed_tables(s, rest, now);
        lemma_all_failed_retries(s, rest, now);
        let (s0, a0) = all_failed(s, rest, now);
        let (s1, a1) = failed(s0, tx, now);
        let a = all_failed(s, gone, now).1;
        let cancel = seq![ActionView::Cancel { tx }];
        assert(a == a0 + cancel + a1);
        assert(s.txs.contains_key(gone[gone.len() - 1]));
        assert(tx_sound(s, tx));
        assert(!rest.to_set().contains(tx)) by {
            if rest.contains(tx) {
                let k = choose|k: int| 0 <= k < rest.len() && rest[k] == tx;
                assert(gone[k] < gone[gone.len() - 1]);
            }
        }
        assert(s0.txs.contains_key(tx));
        assert(s0.txs[tx] == s.txs[tx]);
        law_failure_is_sound(s0, tx, now);
        lemma_failed_tables(s0, tx, now);
        lemma_failed_sends(s0, tx, now);
        assert forall|i: int, y: u64| 0 <= i < a.len() && #[trigger] is_send(a[i], y) implies retries(
            s,
            s1,
            a,
            i,
            y,
        ) by {
            if i < a0.len() {
                assert(a[i] == a0[i]);
                assert(is_send(a0[i], y));
                assert(retries(s, s0, a0, i, y));
                assert(a[i - 1] == a0[i - 1]);
                assert(s.next_id <= y < s0.next_id);
                assert(s1.txs.contains_key(y));
            } else {
                assert(i == a0.len() + 1);
                assert(a[i] == a1[0]);
                assert(a[i - 1] == ActionView::Cancel { tx });
                assert(is_send(a1[0], y));
            }
        }
    }
}

/// As time passes nothing is sent but retries, each right after the overdue
/// transaction of its task is cancelled.
pub proof fn law_retries_follow_cancels(s: State, now: Instant)
    requires
        sound(s),
        s.next_id + s.txs.len() < u64::MAX,
        now <= LATEST,
    ensures
        forall|i: int, y: u64|
            0 <= i < ticked(s, now).1.len() && #[trigger] is_send(ticked(s, now).1[i], y) ==> retries(
                s,
                ticked(s, now).0,
                ticked(s, now).1,
                i,
                y,
            ),
{
    lemma_numbers(s.txs);
    lemma_numbers_len(s.txs);
    lemma_overdue(s, numbers(s.txs), now);
    lemma_all_failed_retries(s, due(s, now), now);
}

/// Whatever the engine is asked and told, and in whatever order, as long as
/// time does not go back: after as many more ticks as there are attempts, each
/// a timeout after the last time used, nothing is in flight, and every question
/// that was asked has been answered exactly once.
pub proof fn law_every_question_is_answered_once(seed: u64, script: Script, times: Seq<Instant>)
    requires
        asks_once(script),
        (script.len() + times.len() + 1) * MOST_NUMBERS + 1 < u64::MAX,
        in_time(script),
        waits(script, times),
        times.len() >= MAX_ATTEMPTS,
    ensures
        forall|tx: u64| !#[trigger] ticks(run(initial(seed), script).0, times).0.txs.contains_key(tx),
        forall|q: u64| #[trigger]
            dones(run(initial(seed), script).1 + ticks(run(initial(seed), script).0, times).1, q) == asks(script, q),
{
    law_run_is_sound(seed, script);
    lemma_waits_are_spaced(seed, script, times);
    let (s, actions) = run(initial(seed), script);
    law_time_drains(s, times);
    let rest = ticks(s, times).1;
    assert forall|q: u64| #[trigger] dones(actions + rest, q) == asks(script, q) by {
        lemma_dones_join(actions, rest, q);
        assert(dones(actions, q) + count(is_open(s, q)) == asks(script, q));
        assert(dones(rest, q) == count(is_open(s, q)));
    }
}

} // verus!

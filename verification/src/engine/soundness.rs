//! What holds of the engine whatever happens to it: its tables agree with
//! each other, what it has open stays below its ceiling, and every question
//! is answered exactly once.
use crate::cache::{
    aged, cached, distinct, flushed, inserted, key_of, lemma_flushed, lemma_inserted_distinct, lemma_place,
    lemma_soonest_from, place, seconds_in, soonest, CacheKeyView, Entries, EntryView, MAX_ENTRIES,
};
use crate::dns::message::{decode, MessageView};
use crate::dns::name::{name_of_text, name_text, reverse_name, Labels};
use crate::dns::record::RecordView;
use crate::dns::{class, rcode, rtype};
use crate::engine::answer::{
    address_records, bare, gathered, host_from, hostname_addresses, loopbacks, recased, synthetic, AddressesView,
    AnswerView, Hosts, Results, Source,
};
use crate::engine::demotion::healthy_first;
use crate::engine::model::{
    abandoned, accepted, advanced, all_advanced, all_dropped, all_failed, answers, attempted, cache_answer, counted,
    demoted, failed, flush_changed, flush_gone, idle, initial, lemma_advanced_ids, lemma_failed_ids, looked_up, lookup_started,
    next_candidate, overdue, picked, received, replied, reply_entry, reply_outcome, reply_records, reply_ttl,
    rescoped, resolved, reversed, run_of, sent, settled, started, tasks_of, ticked, types_of, with_fallback,
    with_next_candidate, without, ActionView, Actions, CompletionView, Counters, Family, LookupView, Owner, State,
    TaskView, MAX_ATTEMPTS, MAX_IN_FLIGHT,
};
use crate::engine::scope::{candidates, interface_of, route, servers_of, ScopeView, FALLBACK_SCOPE};
use crate::protocol::Outcome;
use crate::table::{increasing, lemma_numbers, lemma_numbers_len, numbers};
use crate::time::Instant;
use vstd::prelude::*;

verus! {

// Answers.

/// Whether records are all of class IN, and there are none but where
/// something was found.
pub open spec fn honest_records(outcome: Outcome, records: Seq<RecordView>) -> bool {
    &&& outcome != Outcome::Found ==> records.len() == 0
    &&& forall|i: int| 0 <= i < records.len() ==> (#[trigger] records[i]).class == class::IN
}

pub open spec fn honest_answer(a: AnswerView) -> bool {
    honest_records(a.outcome, a.records)
}

pub open spec fn honest_addresses(a: AddressesView) -> bool {
    a.outcome != Outcome::Found ==> a.addresses.len() == 0
}

/// Whether what a question is answered fits the outcome.
pub open spec fn honest(a: ActionView) -> bool {
    match a {
        ActionView::Done { qid: _, completion } => match completion {
            CompletionView::Answer(a) => honest_answer(a),
            CompletionView::Addresses(a) => honest_addresses(a),
        },
        _ => true,
    }
}

/// Whether the cache holds nothing but what was found or is absent, under each
/// key once, and no more than it may.
pub open spec fn cache_sound(c: Entries) -> bool {
    &&& distinct(c)
    &&& c.len() <= MAX_ENTRIES
    &&& forall|i: int|
        0 <= i < c.len() ==> (#[trigger] c[i]).1.outcome != Outcome::Unavailable && honest_records(
            c[i].1.outcome,
            c[i].1.records,
        )
}

// The tables.

/// Whether a task fits the other tables. A task that is `idle` is being
/// worked on and has no transaction; any other waits for one.
pub open spec fn task_sound(s: State, id: u64, idle: Set<u64>) -> bool {
    let task = s.tasks[id];
    &&& id < s.next_id
    &&& task.attempt <= MAX_ATTEMPTS
    &&& match task.tx {
        None => idle.contains(id),
        Some(tx) => !idle.contains(id) && task.attempt >= 1 && s.txs.contains_key(tx) && s.txs[tx].task == id,
    }
    &&& match task.owner {
        Owner::Resolve(q) => !s.lookups.contains_key(q),
        Owner::Lookup(q) => s.lookups.contains_key(q) && s.lookups[q].pending.contains(id),
    }
}

/// Whether a transaction is that of a task.
pub open spec fn tx_sound(s: State, tx: u64) -> bool {
    &&& tx < s.next_id
    &&& s.tasks.contains_key(s.txs[tx].task)
    &&& s.tasks[s.txs[tx].task].tx == Some(tx)
}

/// Whether a lookup waits for tasks of its own.
pub open spec fn lookup_sound(s: State, q: u64) -> bool {
    let pending = s.lookups[q].pending;
    &&& pending.len() > 0
    &&& forall|i: int|
        0 <= i < pending.len() ==> s.tasks.contains_key(#[trigger] pending[i]) && s.tasks[pending[i]].owner
            == Owner::Lookup(q)
}

/// Whether the tables agree, some tasks being worked on.
pub open spec fn sound_but(s: State, idle: Set<u64>) -> bool {
    &&& forall|id: u64| #[trigger] s.tasks.contains_key(id) ==> task_sound(s, id, idle)
    &&& forall|id: u64| #[trigger] idle.contains(id) ==> s.tasks.contains_key(id)
    &&& forall|tx: u64| #[trigger] s.txs.contains_key(tx) ==> tx_sound(s, tx)
    &&& forall|q: u64| #[trigger] s.lookups.contains_key(q) ==> lookup_sound(s, q)
    &&& forall|a: u64, b: u64|
        #[trigger] s.tasks.contains_key(a) && #[trigger] s.tasks.contains_key(b) && a != b && s.tasks[a].owner
            == s.tasks[b].owner ==> s.tasks[a].owner is Lookup
    &&& s.txs.len() <= MAX_IN_FLIGHT
    &&& cache_sound(s.cache)
}

/// Whether the tables agree and every task waits for a server.
pub open spec fn sound(s: State) -> bool {
    sound_but(s, Set::empty())
}

// Steps.

/// Whether a question is open.
pub open spec fn is_open(s: State, q: u64) -> bool {
    s.lookups.contains_key(q) || exists|id: u64| #[trigger]
        s.tasks.contains_key(id) && s.tasks[id].owner == Owner::Resolve(q)
}

pub open spec fn count(b: bool) -> nat {
    if b {
        1
    } else {
        0
    }
}

/// How often a question is answered.
pub open spec fn dones(a: Actions, q: u64) -> nat
    decreases a.len(),
{
    if a.len() == 0 {
        0
    } else {
        dones(a.drop_last(), q) + count(a.last() matches ActionView::Done { qid, completion: _ } && qid == q)
    }
}

/// Whether a transaction is sent.
pub open spec fn sends(a: Actions, tx: u64) -> bool {
    exists|i: int| 0 <= i < a.len() && is_send(#[trigger] a[i], tx)
}

pub open spec fn is_send(a: ActionView, tx: u64) -> bool {
    a matches ActionView::Send { tx: t, server: _, tcp: _, payload: _ } && t == tx
}

/// How actions take one state to the next, where a question may be asked and
/// the transactions in `spent` are over: a question that was open or is asked
/// either stays open or is answered, and that once; the transactions that are
/// open are those that were and those that are sent; and numbers are not used
/// again.
pub open spec fn steps(s: State, s1: State, a: Actions, asked: Option<u64>, spent: Set<u64>) -> bool {
    &&& s.next_id <= s1.next_id
    &&& forall|q: u64| #[trigger]
        dones(a, q) + count(is_open(s1, q)) == count(is_open(s, q)) + count(asked == Some(q))
    &&& forall|tx: u64| #[trigger]
        s1.txs.contains_key(tx) <==> (s.txs.contains_key(tx) && !spent.contains(tx)) || sends(a, tx)
    &&& forall|i: int, tx: u64|
        0 <= i < a.len() && #[trigger] is_send(a[i], tx) ==> s.next_id <= tx < s1.next_id && s1.txs.contains_key(tx)
    &&& forall|i: int, j: int, tx: u64|
        0 <= i < j < a.len() && #[trigger] is_send(a[i], tx) ==> !#[trigger] is_send(a[j], tx)
    &&& forall|i: int| 0 <= i < a.len() ==> honest(#[trigger] a[i])
}

/// A step in which nothing is asked.
pub open spec fn follows(s: State, s1: State, a: Actions, spent: Set<u64>) -> bool {
    steps(s, s1, a, None, spent)
}

pub proof fn lemma_dones_join(a: Actions, b: Actions, q: u64)
    ensures
        dones(a + b, q) == dones(a, q) + dones(b, q),
    decreases b.len(),
{
    if b.len() == 0 {
        assert(a + b =~= a);
    } else {
        lemma_dones_join(a, b.drop_last(), q);
        assert((a + b).drop_last() =~= a + b.drop_last());
    }
}

proof fn lemma_sends_join(a: Actions, b: Actions, tx: u64)
    ensures
        sends(a + b, tx) == (sends(a, tx) || sends(b, tx)),
{
    let c = a + b;
    if sends(a, tx) {
        let i = choose|i: int| 0 <= i < a.len() && is_send(#[trigger] a[i], tx);
        assert(c[i] == a[i]);
    }
    if sends(b, tx) {
        let i = choose|i: int| 0 <= i < b.len() && is_send(#[trigger] b[i], tx);
        assert(c[a.len() + i] == b[i]);
    }
}

proof fn lemma_one_done(x: ActionView, q: u64)
    ensures
        dones(seq![x], q) == count(x matches ActionView::Done { qid, completion: _ } && qid == q),
{
    reveal_with_fuel(dones, 2);
    assert(seq![x].drop_last() =~= Seq::<ActionView>::empty());
}

/// One step after another.
proof fn lemma_follows_on(
    s: State,
    s1: State,
    a1: Actions,
    asked: Option<u64>,
    spent1: Set<u64>,
    s2: State,
    a2: Actions,
    spent2: Set<u64>,
)
    requires
        steps(s, s1, a1, asked, spent1),
        follows(s1, s2, a2, spent2),
        forall|tx: u64| #[trigger] spent2.contains(tx) ==> tx < s.next_id,
    ensures
        steps(s, s2, a1 + a2, asked, spent1 + spent2),
{
    let a = a1 + a2;
    assert forall|q: u64| #[trigger]
        dones(a, q) + count(is_open(s2, q)) == count(is_open(s, q)) + count(asked == Some(q)) by {
        lemma_dones_join(a1, a2, q);
        assert(dones(a1, q) + count(is_open(s1, q)) == count(is_open(s, q)) + count(asked == Some(q)));
        assert(dones(a2, q) + count(is_open(s2, q)) == count(is_open(s1, q)));
    }
    assert forall|tx: u64| #[trigger]
        s2.txs.contains_key(tx) <==> (s.txs.contains_key(tx) && !(spent1 + spent2).contains(tx)) || sends(a, tx) by {
        lemma_sends_join(a1, a2, tx);
        assert(s1.txs.contains_key(tx) <==> (s.txs.contains_key(tx) && !spent1.contains(tx)) || sends(a1, tx));
        if sends(a1, tx) {
            let i = choose|i: int| 0 <= i < a1.len() && is_send(#[trigger] a1[i], tx);
            assert(is_send(a1[i], tx));
            assert(!spent2.contains(tx));
        }
    }
    assert forall|i: int, tx: u64| 0 <= i < a.len() && #[trigger] is_send(a[i], tx) implies s.next_id <= tx < s2.next_id
        && s2.txs.contains_key(tx) by {
        if i < a1.len() {
            assert(is_send(a1[i], tx));
            assert(s1.txs.contains_key(tx));
        } else {
            assert(is_send(a2[i - a1.len()], tx));
        }
    }
    assert forall|i: int, j: int, tx: u64| 0 <= i < j < a.len() && #[trigger] is_send(a[i], tx) implies !#[trigger] is_send(
        a[j],
        tx,
    ) by {
        if i < a1.len() {
            assert(is_send(a1[i], tx));
            if j < a1.len() {
                assert(a1[j] == a[j]);
                assert(!is_send(a1[j], tx));
            } else {
                assert(a2[j - a1.len()] == a[j]);
                if is_send(a[j], tx) {
                    assert(is_send(a2[j - a1.len()], tx));
                }
            }
        } else {
            assert(is_send(a2[i - a1.len()], tx));
            assert(a2[j - a1.len()] == a[j]);
            assert(!is_send(a2[j - a1.len()], tx));
        }
    }
    assert forall|i: int| 0 <= i < a.len() implies honest(#[trigger] a[i]) by {
        if i < a1.len() {
            assert(a[i] == a1[i]);
        } else {
            assert(a[i] == a2[i - a1.len()]);
        }
    }
}

// Tasks that end or wait.

proof fn lemma_without(v: Seq<u64>, id: u64)
    ensures
        forall|x: u64| #[trigger] without(v, id).contains(x) <==> v.contains(x) && x != id,
    decreases v.len(),
{
    if v.len() > 0 {
        lemma_without(v.drop_last(), id);
        let before = without(v.drop_last(), id);
        assert forall|x: u64| #[trigger] without(v, id).contains(x) <==> v.contains(x) && x != id by {
            assert(v.contains(x) <==> v.drop_last().contains(x) || x == v.last()) by {
                if v.contains(x) {
                    let i = choose|i: int| 0 <= i < v.len() && v[i] == x;
                    if i < v.len() - 1 {
                        assert(v.drop_last()[i] == x);
                    }
                }
                if v.drop_last().contains(x) {
                    let i = choose|i: int| 0 <= i < v.drop_last().len() && v.drop_last()[i] == x;
                    assert(v[i] == x);
                }
                assert(v[v.len() - 1] == v.last());
            }
            if v.last() != id {
                assert(before.push(v.last()).contains(x) <==> before.contains(x) || x == v.last()) by {
                    let w = before.push(v.last());
                    if w.contains(x) {
                        let i = choose|i: int| 0 <= i < w.len() && w[i] == x;
                        if i < before.len() {
                            assert(before[i] == x);
                        }
                    }
                    if before.contains(x) {
                        let i = choose|i: int| 0 <= i < before.len() && before[i] == x;
                        assert(w[i] == x);
                    }
                    assert(w[before.len() as int] == v.last());
                }
            }
        }
    }
}

proof fn lemma_gathered(name: Labels, r: Results)
    ensures
        !gathered(name, r).any_found ==> gathered(name, r).addresses.len() == 0,
    decreases r.len(),
{
    if r.len() > 0 {
        lemma_gathered(name, r.drop_last());
    }
}

/// A task that is over leaves the tables in order, and its question is
/// answered where nothing else is pending for it.
proof fn lemma_settled(s: State, idle: Set<u64>, id: u64, answer: AnswerView)
    requires
        sound_but(s, idle),
        idle.contains(id),
        honest_answer(answer),
    ensures
        sound_but(settled(s, id, answer).0, idle.remove(id)),
        follows(s, settled(s, id, answer).0, settled(s, id, answer).1, Set::empty()),
        settled(s, id, answer).0.txs == s.txs,
{
    let (s1, a) = settled(s, id, answer);
    let rest = idle.remove(id);
    assert(s.tasks.contains_key(id));
    assert(task_sound(s, id, idle));
    let task = s.tasks[id];
    assert(s1.txs == s.txs);
    assert(s1.tasks == s.tasks.remove(id));
    match task.owner {
        Owner::Resolve(q) => {
            assert forall|x: u64| #[trigger] s1.tasks.contains_key(x) implies task_sound(s1, x, rest) by {
                assert(s.tasks.contains_key(x));
                assert(task_sound(s, x, idle));
            }
            assert forall|x: u64| #[trigger] s1.lookups.contains_key(x) implies lookup_sound(s1, x) by {
                assert(lookup_sound(s, x));
                let pending = s.lookups[x].pending;
                assert forall|i: int| 0 <= i < pending.len() implies s1.tasks.contains_key(#[trigger] pending[i])
                    && s1.tasks[pending[i]].owner == Owner::Lookup(x) by {
                    assert(s.tasks.contains_key(pending[i]));
                    assert(pending[i] != id);
                }
            }
            assert forall|tx: u64| #[trigger] s1.txs.contains_key(tx) implies tx_sound(s1, tx) by {
                assert(tx_sound(s, tx));
            }
            assert forall|x: u64| #[trigger] dones(a, x) + count(is_open(s1, x)) == count(is_open(s, x)) by {
                lemma_one_done(a[0], x);
                assert(a =~= seq![a[0]]);
                lemma_open_without(s, s1, id, x);
            }
        },
        Owner::Lookup(q) => {
            let l = s.lookups[q];
            lemma_without(l.pending, id);
            let pending = without(l.pending, id);
            assert(lookup_sound(s, q));
            assert forall|x: u64| #[trigger] s1.tasks.contains_key(x) implies task_sound(s1, x, rest) by {
                assert(s.tasks.contains_key(x));
                assert(task_sound(s, x, idle));
                if s.tasks[x].owner == Owner::Lookup(q) {
                    assert(pending.contains(x));
                }
            }
            assert forall|x: u64| #[trigger] s1.lookups.contains_key(x) implies lookup_sound(s1, x) by {
                assert(lookup_sound(s, x));
                let p = s1.lookups[x].pending;
                assert forall|i: int| 0 <= i < p.len() implies s1.tasks.contains_key(#[trigger] p[i])
                    && s1.tasks[p[i]].owner == Owner::Lookup(x) by {
                    assert(p.contains(p[i]));
                    if x == q {
                        assert(l.pending.contains(p[i]));
                        let k = choose|k: int| 0 <= k < l.pending.len() && l.pending[k] == p[i];
                        assert(s.tasks.contains_key(l.pending[k]));
                    } else {
                        assert(s.tasks.contains_key(s.lookups[x].pending[i]));
                    }
                }
            }
            assert forall|tx: u64| #[trigger] s1.txs.contains_key(tx) implies tx_sound(s1, tx) by {
                assert(tx_sound(s, tx));
            }
            lemma_gathered(l.name, l.results.push((task.rtype, answer)));
            assert forall|x: u64| #[trigger] dones(a, x) + count(is_open(s1, x)) == count(is_open(s, x)) by {
                if a.len() > 0 {
                    lemma_one_done(a[0], x);
                    assert(a =~= seq![a[0]]);
                }
                if x == q && is_open(s1, q) && pending.len() == 0 {
                    let k = choose|k: u64| #[trigger] s1.tasks.contains_key(k) && s1.tasks[k].owner == Owner::Resolve(q);
                    assert(s.tasks.contains_key(k));
                    assert(task_sound(s, k, idle));
                }
                if x != q {
                    lemma_open_without(s, s1, id, x);
                }
            }
        },
    }
}

/// Which questions a task's end leaves open.
proof fn lemma_open_without(s: State, s1: State, id: u64, q: u64)
    requires
        s.tasks.contains_key(id),
        s1.tasks == s.tasks.remove(id),
        s1.lookups.contains_key(q) == s.lookups.contains_key(q),
        s.tasks[id].owner == Owner::Resolve(q) ==> !s.lookups.contains_key(q),
        forall|a: u64, b: u64|
            #[trigger] s.tasks.contains_key(a) && #[trigger] s.tasks.contains_key(b) && a != b && s.tasks[a].owner
                == s.tasks[b].owner ==> s.tasks[a].owner is Lookup,
    ensures
        is_open(s1, q) == (is_open(s, q) && s.tasks[id].owner != Owner::Resolve(q)),
{
    if is_open(s, q) && !s.lookups.contains_key(q) && s.tasks[id].owner != Owner::Resolve(q) {
        let k = choose|k: u64| #[trigger] s.tasks.contains_key(k) && s.tasks[k].owner == Owner::Resolve(q);
        assert(s1.tasks.contains_key(k));
    }
    if is_open(s1, q) && !s1.lookups.contains_key(q) {
        let k = choose|k: u64| #[trigger] s1.tasks.contains_key(k) && s1.tasks[k].owner == Owner::Resolve(q);
        assert(s.tasks.contains_key(k));
    }
}

/// A task that a question is sent for waits for its transaction.
proof fn lemma_sent(s: State, idle: Set<u64>, id: u64, server: Seq<u8>, tcp: bool, now: Instant)
    requires
        sound_but(s, idle),
        idle.contains(id),
        s.tasks[id].attempt >= 1,
        s.txs.len() < MAX_IN_FLIGHT,
        s.next_id < u64::MAX,
    ensures
        sound_but(sent(s, id, server, tcp, now).0, idle.remove(id)),
        follows(s, sent(s, id, server, tcp, now).0, sent(s, id, server, tcp, now).1, Set::empty()),
{
    let (s1, a) = sent(s, id, server, tcp, now);
    let rest = idle.remove(id);
    assert(s.tasks.contains_key(id));
    assert(task_sound(s, id, idle));
    let tx = s.next_id;
    assert(!s.txs.contains_key(tx)) by {
        if s.txs.contains_key(tx) {
            assert(tx_sound(s, tx));
        }
    }
    lemma_numbers_len(s.txs);
    assert(s1.txs.len() == s.txs.len() + 1);
    assert forall|x: u64| #[trigger] s1.tasks.contains_key(x) implies task_sound(s1, x, rest) by {
        assert(s.tasks.contains_key(x));
        assert(task_sound(s, x, idle));
    }
    assert forall|t: u64| #[trigger] s1.txs.contains_key(t) implies tx_sound(s1, t) by {
        if t != tx {
            assert(tx_sound(s, t));
        }
    }
    assert forall|x: u64| #[trigger] s1.lookups.contains_key(x) implies lookup_sound(s1, x) by {
        assert(lookup_sound(s, x));
    }
    assert forall|x: u64, y: u64|
        #[trigger] s1.tasks.contains_key(x) && #[trigger] s1.tasks.contains_key(y) && x != y && s1.tasks[x].owner
            == s1.tasks[y].owner implies s1.tasks[x].owner is Lookup by {
        assert(s.tasks.contains_key(x) && s.tasks.contains_key(y));
    }
    assert forall|x: u64| #[trigger] dones(a, x) + count(is_open(s1, x)) == count(is_open(s, x)) by {
        lemma_one_done(a[0], x);
        assert(a =~= seq![a[0]]);
        lemma_open_same(s, s1, x);
    }
    assert forall|t: u64| #[trigger]
        s1.txs.contains_key(t) <==> (s.txs.contains_key(t) && !Set::<u64>::empty().contains(t)) || sends(a, t) by {
        assert(is_send(a[0], tx));
        if sends(a, t) {
            let i = choose|i: int| 0 <= i < a.len() && is_send(#[trigger] a[i], t);
            assert(t == tx);
        }
    }
}

/// Where tasks keep their owners the same questions are open.
proof fn lemma_open_same(s: State, s1: State, q: u64)
    requires
        s1.lookups.contains_key(q) == s.lookups.contains_key(q),
        forall|id: u64| #[trigger] s1.tasks.contains_key(id) <==> s.tasks.contains_key(id),
        forall|id: u64| #[trigger] s1.tasks.contains_key(id) ==> s1.tasks[id].owner == s.tasks[id].owner,
    ensures
        is_open(s1, q) == is_open(s, q),
{
    if is_open(s, q) && !s.lookups.contains_key(q) {
        let k = choose|k: u64| #[trigger] s.tasks.contains_key(k) && s.tasks[k].owner == Owner::Resolve(q);
        assert(s1.tasks.contains_key(k));
    }
    if is_open(s1, q) && !s1.lookups.contains_key(q) {
        let k = choose|k: u64| #[trigger] s1.tasks.contains_key(k) && s1.tasks[k].owner == Owner::Resolve(q);
        assert(s.tasks.contains_key(k));
    }
}

/// A task that is worked on may change, its owner apart.
proof fn lemma_reworked(s: State, s1: State, idle: Set<u64>, id: u64, task: TaskView)
    requires
        sound_but(s, idle),
        idle.contains(id),
        s1.tasks == s.tasks.insert(id, task),
        task.owner == s.tasks[id].owner,
        task.tx is None,
        task.attempt <= MAX_ATTEMPTS,
        s1.txs == s.txs,
        s1.lookups == s.lookups,
        s1.next_id == s.next_id,
        cache_sound(s1.cache),
    ensures
        sound_but(s1, idle),
        follows(s, s1, Seq::empty(), Set::empty()),
{
    assert(s.tasks.contains_key(id));
    assert(task_sound(s, id, idle));
    assert forall|x: u64| #[trigger] s1.tasks.contains_key(x) implies task_sound(s1, x, idle) by {
        assert(s.tasks.contains_key(x));
        assert(task_sound(s, x, idle));
    }
    assert forall|t: u64| #[trigger] s1.txs.contains_key(t) implies tx_sound(s1, t) by {
        assert(tx_sound(s, t));
    }
    assert forall|x: u64| #[trigger] s1.lookups.contains_key(x) implies lookup_sound(s1, x) by {
        assert(lookup_sound(s, x));
    }
    assert forall|x: u64, y: u64|
        #[trigger] s1.tasks.contains_key(x) && #[trigger] s1.tasks.contains_key(y) && x != y && s1.tasks[x].owner
            == s1.tasks[y].owner implies s1.tasks[x].owner is Lookup by {
        assert(s.tasks.contains_key(x) && s.tasks.contains_key(y));
    }
    let a = Seq::<ActionView>::empty();
    assert forall|x: u64| #[trigger] dones(a, x) + count(is_open(s1, x)) == count(is_open(s, x)) by {
        lemma_open_same(s, s1, x);
    }
}

/// Nothing spent, and then a step that spends nothing.
proof fn lemma_follows_quietly(s: State, s1: State, s2: State, a: Actions)
    requires
        follows(s, s1, Seq::empty(), Set::empty()),
        follows(s1, s2, a, Set::empty()),
    ensures
        follows(s, s2, a, Set::empty()),
{
    lemma_follows_on(s, s1, Seq::empty(), None, Set::empty(), s2, a, Set::empty());
    assert(Seq::<ActionView>::empty() + a =~= a);
    assert(Set::<u64>::empty() + Set::<u64>::empty() =~= Set::<u64>::empty());
}

/// A task goes to a server or gives up.
proof fn lemma_attempted(s: State, idle: Set<u64>, id: u64, now: Instant)
    requires
        sound_but(s, idle),
        idle.contains(id),
        s.tasks[id].attempt == 0 || s.txs.len() < MAX_IN_FLIGHT,
        s.next_id < u64::MAX,
    ensures
        sound_but(attempted(s, id, now).0, idle.remove(id)),
        follows(s, attempted(s, id, now).0, attempted(s, id, now).1, Set::empty()),
{
    assert(s.tasks.contains_key(id));
    assert(task_sound(s, id, idle));
    let task = s.tasks[id];
    let servers = healthy_first(servers_of(s.scopes, s.fallback_servers, task.scope_id()), s.demoted, now);
    let (end, actions) = attempted(s, id, now);
    if task.attempt >= MAX_ATTEMPTS {
        lemma_settled(
            s,
            idle,
            id,
            AnswerView { interface: interface_of(s.scopes, task.scope_id()), ..bare(Outcome::Unavailable) },
        );
    } else if servers.len() == 0 {
        lemma_settled(s, idle, id, bare(Outcome::Unavailable));
    } else if task.attempt == 0 && s.txs.len() >= MAX_IN_FLIGHT {
        let s1 = State { counters: Counters { refused: s.counters.refused.wrapping_add(1), ..s.counters }, ..s };
        assert(s.tasks =~= s1.tasks.insert(id, task));
        lemma_reworked(s, s1, idle, id, task);
        lemma_settled(s1, idle, id, bare(Outcome::Unavailable));
        lemma_follows_quietly(s, s1, end, actions);
    } else {
        let server = picked(servers, task.tried, task.attempt);
        let next = TaskView { attempt: (task.attempt + 1) as u32, tried: task.tried.push(server), ..task };
        let s1 = State { tasks: s.tasks.insert(id, next), ..s };
        lemma_reworked(s, s1, idle, id, next);
        lemma_sent(s1, idle, id, server, false, now);
        lemma_follows_quietly(s, s1, end, actions);
    }
}

/// What comes out of a sound cache is honest.
pub proof fn lemma_cached(c: Entries, k: CacheKeyView, now: Instant)
    requires
        cache_sound(c),
    ensures
        cached(c, k, now) matches Some(e) ==> honest_records(e.outcome, e.records) && e.outcome
            != Outcome::Unavailable,
{
    if cached(c, k, now) is Some {
        lemma_place(c, k);
        let e = c[place(c, k)].1;
        let r = aged(e.records, seconds_in(e.stored, now));
        assert forall|i: int| 0 <= i < r.len() implies (#[trigger] r[i]).class == class::IN by {
            assert(e.records[i].class == class::IN);
        }
    }
}

/// A task that goes on with its next candidate waits or is over.
proof fn lemma_next_candidate(s: State, idle: Set<u64>, id: u64, now: Instant)
    requires
        sound_but(s, idle),
        idle.contains(id),
        s.next_id < u64::MAX,
    ensures
        sound_but(next_candidate(s, id, now).0, idle.remove(id)),
        follows(s, next_candidate(s, id, now).0, next_candidate(s, id, now).1, Set::empty()),
    decreases s.tasks[id].candidates.len(),
{
    assert(s.tasks.contains_key(id));
    assert(task_sound(s, id, idle));
    let (end, actions) = next_candidate(s, id, now);
    if s.tasks[id].candidates.len() == 0 {
        lemma_settled(s, idle, id, bare(Outcome::NotFound));
    } else {
        let task = with_next_candidate(s.tasks[id]);
        let name = s.tasks[id].candidates[0];
        match route(s.scopes, s.fallback_servers, name) {
            None => {
                let s1 = State { tasks: s.tasks.insert(id, task), ..s };
                lemma_reworked(s, s1, idle, id, task);
                lemma_settled(s1, idle, id, bare(Outcome::Unavailable));
                lemma_follows_quietly(s, s1, end, actions);
            },
            Some(scope) => {
                let scoped = TaskView { scope: Some(scope), ..task };
                let s1 = State { tasks: s.tasks.insert(id, scoped), ..s };
                lemma_reworked(s, s1, idle, id, scoped);
                let key = key_of(name, task.rtype, scope);
                let hit = if task.no_cache {
                    None
                } else {
                    cached(s.cache, key, now)
                };
                match hit {
                    None => {
                        lemma_attempted(s1, idle, id, now);
                        lemma_follows_quietly(s, s1, end, actions);
                    },
                    Some(e) => {
                        lemma_cached(s.cache, key, now);
                        let s2 = State {
                            counters: Counters { cache_hits: s.counters.cache_hits.wrapping_add(1), ..s.counters },
                            ..s1
                        };
                        assert(s1.tasks =~= s1.tasks.insert(id, scoped));
                        lemma_reworked(s1, s2, idle, id, scoped);
                        lemma_follows_quietly(s, s1, s2, Seq::empty());
                        if e.outcome == Outcome::NotFound && task.candidates.len() > 0 {
                            lemma_next_candidate(s2, idle, id, now);
                        } else {
                            lemma_settled(s2, idle, id, cache_answer(s, e, scope, name));
                        }
                        lemma_follows_quietly(s, s2, end, actions);
                    },
                }
            },
        }
    }
}

proof fn lemma_address_records(name: Labels, a: Seq<Seq<u8>>, asked: u16)
    ensures
        honest_records(Outcome::Found, address_records(name, a, asked)),
    decreases a.len(),
{
    if a.len() > 0 {
        lemma_address_records(name, a.drop_last(), asked);
    }
}

/// A synthetic answer is honest.
pub proof fn lemma_synthetic(s: Seq<ScopeView>, hostname: Option<Labels>, hosts: Hosts, name: Labels, asked: u16)
    ensures
        synthetic(s, hostname, hosts, name, asked) matches Some(a) ==> honest_answer(a),
{
    lemma_address_records(name, loopbacks(), asked);
    lemma_address_records(name, hostname_addresses(s), asked);
    if let Some(a) = host_from(hosts, name, 0) {
        lemma_address_records(name, a, asked);
    }
}

/// A fresh task waits or is over.
proof fn lemma_advanced(s: State, idle: Set<u64>, id: u64, now: Instant)
    requires
        sound_but(s, idle),
        idle.contains(id),
        s.next_id < u64::MAX,
    ensures
        sound_but(advanced(s, id, now).0, idle.remove(id)),
        follows(s, advanced(s, id, now).0, advanced(s, id, now).1, Set::empty()),
{
    assert(s.tasks.contains_key(id));
    assert(task_sound(s, id, idle));
    let task = s.tasks[id];
    let (end, actions) = advanced(s, id, now);
    if task.current is None && task.candidates.len() == 0 && task.attempt == 0 {
        lemma_synthetic(s.scopes, s.hostname, s.hosts, task.original, task.rtype);
        match synthetic(s.scopes, s.hostname, s.hosts, task.original, task.rtype) {
            Some(answer) => {
                let s1 = State {
                    counters: Counters { synthetic: s.counters.synthetic.wrapping_add(1), ..s.counters },
                    ..s
                };
                assert(s1.tasks =~= s.tasks.insert(id, task));
                lemma_reworked(s, s1, idle, id, task);
                lemma_settled(s1, idle, id, answer);
                lemma_follows_quietly(s, s1, end, actions);
            },
            None => {
                let names = candidates(s.scopes, s.fallback_domains, task.original);
                if names.len() == 0 {
                    lemma_settled(s, idle, id, bare(Outcome::NotFound));
                } else {
                    let next = TaskView { candidates: names, ..task };
                    let s1 = State { tasks: s.tasks.insert(id, next), ..s };
                    lemma_reworked(s, s1, idle, id, next);
                    lemma_next_candidate(s1, idle, id, now);
                    lemma_follows_quietly(s, s1, end, actions);
                }
            },
        }
    } else {
        lemma_next_candidate(s, idle, id, now);
    }
}

// Replies and failures.

/// A transaction that is over leaves its task to be worked on.
proof fn lemma_parted(s: State, s1: State, tx: u64)
    requires
        sound(s),
        s.txs.contains_key(tx),
        s1.txs == s.txs.remove(tx),
        s1.tasks == s.tasks.insert(s.txs[tx].task, TaskView { tx: None, ..s.tasks[s.txs[tx].task] }),
        s1.lookups == s.lookups,
        s1.next_id == s.next_id,
        cache_sound(s1.cache),
    ensures
        sound_but(s1, Set::empty().insert(s.txs[tx].task)),
        follows(s, s1, Seq::empty(), Set::empty().insert(tx)),
        s1.txs.len() < MAX_IN_FLIGHT,
        1 <= s1.tasks[s.txs[tx].task].attempt,
{
    let id = s.txs[tx].task;
    let none = Set::<u64>::empty();
    let idle = none.insert(id);
    assert(tx_sound(s, tx));
    assert(task_sound(s, id, none));
    lemma_numbers_len(s.txs);
    assert forall|x: u64| #[trigger] s1.tasks.contains_key(x) implies task_sound(s1, x, idle) by {
        assert(s.tasks.contains_key(x));
        assert(task_sound(s, x, none));
    }
    assert forall|t: u64| #[trigger] s1.txs.contains_key(t) implies tx_sound(s1, t) by {
        assert(tx_sound(s, t));
    }
    assert forall|x: u64| #[trigger] s1.lookups.contains_key(x) implies lookup_sound(s1, x) by {
        assert(lookup_sound(s, x));
    }
    assert forall|x: u64, y: u64|
        #[trigger] s1.tasks.contains_key(x) && #[trigger] s1.tasks.contains_key(y) && x != y && s1.tasks[x].owner
            == s1.tasks[y].owner implies s1.tasks[x].owner is Lookup by {
        assert(s.tasks.contains_key(x) && s.tasks.contains_key(y));
    }
    let a = Seq::<ActionView>::empty();
    assert forall|x: u64| #[trigger] dones(a, x) + count(is_open(s1, x)) == count(is_open(s, x)) by {
        lemma_open_same(s, s1, x);
    }
}

/// What a task that lost its transaction does next, from the state before.
proof fn lemma_follows_parted(s: State, s1: State, tx: u64, s2: State, a: Actions)
    requires
        follows(s, s1, Seq::empty(), Set::empty().insert(tx)),
        follows(s1, s2, a, Set::empty()),
    ensures
        follows(s, s2, a, Set::empty().insert(tx)),
{
    lemma_follows_on(s, s1, Seq::empty(), None, Set::empty().insert(tx), s2, a, Set::empty());
    assert(Seq::<ActionView>::empty() + a =~= a);
    assert(Set::<u64>::empty().insert(tx) + Set::<u64>::empty() =~= Set::<u64>::empty().insert(tx));
}

proof fn lemma_failed(s: State, tx: u64, now: Instant)
    requires
        sound(s),
        s.txs.contains_key(tx),
        s.next_id < u64::MAX,
    ensures
        sound(failed(s, tx, now).0),
        follows(s, failed(s, tx, now).0, failed(s, tx, now).1, Set::empty().insert(tx)),
{
    let t = s.txs[tx];
    assert(tx_sound(s, tx));
    let s1 = State {
        txs: s.txs.remove(tx),
        counters: Counters { upstream_failed: s.counters.upstream_failed.wrapping_add(1), ..s.counters },
        ..s
    };
    let s2 = idle(demoted(s1, t.server, now), t.task);
    let idle = Set::empty().insert(t.task);
    lemma_parted(s, s2, tx);
    lemma_attempted(s2, idle, t.task, now);
    assert(idle.remove(t.task) =~= Set::empty());
    let (end, a) = attempted(s2, t.task, now);
    lemma_follows_parted(s, s2, tx, end, a);
}

pub proof fn lemma_recased(r: Seq<RecordView>, name: Labels)
    ensures
        honest_records(Outcome::Found, recased(r, name)),
    decreases r.len(),
{
    if r.len() > 0 {
        lemma_recased(r.drop_last(), name);
    }
}

pub proof fn lemma_inserted_sound(c: Entries, k: CacheKeyView, e: EntryView)
    requires
        cache_sound(c),
        e.outcome != Outcome::Unavailable,
        honest_records(e.outcome, e.records),
    ensures
        cache_sound(inserted(c, k, e)),
{
    lemma_place(c, k);
    lemma_inserted_distinct(c, k, e);
    if c.len() >= MAX_ENTRIES {
        lemma_soonest_from(c, 0);
    }
    let after = inserted(c, k, e);
    assert forall|i: int| 0 <= i < after.len() implies (#[trigger] after[i]).1.outcome != Outcome::Unavailable
        && honest_records(after[i].1.outcome, after[i].1.records) by {
        if after[i].1 != e {
            if place(c, k) < c.len() || c.len() < MAX_ENTRIES || i < soonest(c) {
                assert(after[i] == c[i]);
            } else {
                assert(after[i] == c[i + 1]);
            }
        }
    }
}

/// A reply that answers ends the task or sends it to its next candidate.
proof fn lemma_accepted(s: State, idle: Set<u64>, id: u64, server: Seq<u8>, m: MessageView, now: Instant)
    requires
        sound_but(s, idle),
        idle.contains(id),
        s.next_id < u64::MAX,
    ensures
        sound_but(accepted(s, id, server, m, now).0, idle.remove(id)),
        follows(s, accepted(s, id, server, m, now).0, accepted(s, id, server, m, now).1, Set::empty()),
{
    assert(s.tasks.contains_key(id));
    assert(task_sound(s, id, idle));
    let task = s.tasks[id];
    let name = task.name();
    let scope = task.scope_id();
    lemma_recased(m.answers, name);
    let entry = reply_entry(m, name, server, now);
    let key = key_of(name, task.rtype, scope);
    lemma_inserted_sound(s.cache, key, entry);
    let cache = if reply_ttl(m, name) > 0 {
        inserted(s.cache, key, entry)
    } else {
        s.cache
    };
    let s1 = State { demoted: s.demoted.remove(server), cache, ..s };
    let (end, actions) = accepted(s, id, server, m, now);
    assert(s1.tasks =~= s.tasks.insert(id, task));
    lemma_reworked(s, s1, idle, id, task);
    if reply_outcome(m) == Outcome::NotFound && task.candidates.len() > 0 {
        lemma_next_candidate(s1, idle, id, now);
    } else {
        let answer = AnswerView {
            outcome: reply_outcome(m),
            records: reply_records(m, name),
            source: Source::Dns,
            server: Some(server),
            interface: interface_of(s.scopes, scope),
            rcode: m.rcode(),
            resolved_name: Some(name),
        };
        lemma_settled(s1, idle, id, answer);
    }
    lemma_follows_quietly(s, s1, end, actions);
}

proof fn lemma_replied(s: State, tx: u64, m: MessageView, now: Instant)
    requires
        sound(s),
        s.txs.contains_key(tx),
        s.next_id < u64::MAX,
    ensures
        sound(replied(s, tx, m, now).0),
        follows(s, replied(s, tx, m, now).0, replied(s, tx, m, now).1, Set::empty().insert(tx)),
{
    let t = s.txs[tx];
    assert(tx_sound(s, tx));
    let s1 = State { txs: s.txs.remove(tx), ..s };
    let s2 = State {
        counters: Counters { upstream_answered: s.counters.upstream_answered.wrapping_add(1), ..s.counters },
        ..idle(s1, t.task)
    };
    let idle = Set::empty().insert(t.task);
    let (end, a) = replied(s, tx, m, now);
    assert(idle.remove(t.task) =~= Set::empty());
    if m.header.truncated && !t.tcp {
        lemma_parted(s, s2, tx);
        lemma_sent(s2, idle, t.task, t.server, true, now);
        lemma_follows_parted(s, s2, tx, end, a);
    } else if m.rcode() == rcode::NOERROR || m.rcode() == rcode::NXDOMAIN {
        lemma_parted(s, s2, tx);
        lemma_accepted(s2, idle, t.task, t.server, m, now);
        lemma_follows_parted(s, s2, tx, end, a);
    } else {
        let s3 = State {
            counters: Counters { upstream_failed: s.counters.upstream_failed.wrapping_add(1), ..s2.counters },
            ..demoted(s2, t.server, now)
        };
        lemma_parted(s, s3, tx);
        lemma_attempted(s3, idle, t.task, now);
        lemma_follows_parted(s, s3, tx, end, a);
    }
}

// Time.

pub proof fn lemma_overdue(s: State, ids: Seq<u64>, now: Instant)
    requires
        increasing(ids),
        forall|i: int| 0 <= i < ids.len() ==> s.txs.contains_key(#[trigger] ids[i]),
    ensures
        overdue(s, ids, now).len() <= ids.len(),
        increasing(overdue(s, ids, now)),
        forall|i: int|
            0 <= i < overdue(s, ids, now).len() ==> ids.contains(#[trigger] overdue(s, ids, now)[i]) && s.txs.contains_key(
                overdue(s, ids, now)[i],
            ) && s.txs[overdue(s, ids, now)[i]].deadline <= now,
        forall|i: int|
            0 <= i < ids.len() && s.txs[#[trigger] ids[i]].deadline <= now ==> overdue(s, ids, now).contains(ids[i]),
    decreases ids.len(),
{
    if ids.len() > 0 {
        let rest = ids.drop_last();
        lemma_overdue(s, rest, now);
        let before = overdue(s, rest, now);
        let all = overdue(s, ids, now);
        assert forall|i: int| 0 <= i < all.len() implies ids.contains(#[trigger] all[i]) && s.txs.contains_key(all[i])
            && s.txs[all[i]].deadline <= now by {
            if i < before.len() {
                assert(all[i] == before[i]);
                let k = choose|k: int| 0 <= k < rest.len() && rest[k] == before[i];
                assert(ids[k] == all[i]);
            } else {
                assert(all[i] == ids[ids.len() - 1]);
            }
        }
        assert forall|i: int, j: int| 0 <= i < j < all.len() implies #[trigger] all[i] < #[trigger] all[j] by {
            assert(all[i] == before[i]);
            let k = choose|k: int| 0 <= k < rest.len() && rest[k] == before[i];
            if j < before.len() {
                assert(all[j] == before[j]);
            } else {
                assert(ids[k] < ids[ids.len() - 1]);
            }
        }
        assert forall|i: int| 0 <= i < ids.len() && s.txs[#[trigger] ids[i]].deadline <= now implies all.contains(
            ids[i],
        ) by {
            if i < rest.len() {
                assert(rest[i] == ids[i]);
                let k = choose|k: int| 0 <= k < before.len() && before[k] == rest[i];
                assert(all[k] == ids[i]);
            } else {
                assert(all[before.len() as int] == ids[i]);
            }
        }
    }
}

/// Giving a transaction up tells the transport, and nothing else happens.
proof fn lemma_cancel(s: State, tx: u64)
    ensures
        follows(s, s, seq![ActionView::Cancel { tx }], Set::empty()),
{
    let a = seq![ActionView::Cancel { tx }];
    assert forall|q: u64| #[trigger] dones(a, q) + count(is_open(s, q)) == count(is_open(s, q)) by {
        lemma_one_done(a[0], q);
    }
}

/// Whether a transaction is cancelled.
pub open spec fn cancels(a: Actions, tx: u64) -> bool {
    a.contains(ActionView::Cancel { tx })
}

/// Transactions given up one after the other leave the tables in order.
pub proof fn lemma_all_failed(s: State, due: Seq<u64>, now: Instant)
    requires
        sound(s),
        increasing(due),
        forall|i: int| 0 <= i < due.len() ==> s.txs.contains_key(#[trigger] due[i]),
        s.next_id + due.len() < u64::MAX,
    ensures
        sound(all_failed(s, due, now).0),
        follows(s, all_failed(s, due, now).0, all_failed(s, due, now).1, due.to_set()),
        all_failed(s, due, now).0.next_id <= s.next_id + due.len(),
        forall|i: int| 0 <= i < due.len() ==> cancels(all_failed(s, due, now).1, #[trigger] due[i]),
    decreases due.len(),
{
    let (end, a) = all_failed(s, due, now);
    if due.len() == 0 {
        assert(due.to_set() =~= Set::<u64>::empty());
    } else {
        let rest = due.drop_last();
        let tx = due.last();
        lemma_all_failed(s, rest, now);
        let (s1, a1) = all_failed(s, rest, now);
        let (s2, a2) = failed(s1, tx, now);
        assert(s.txs.contains_key(due[due.len() - 1]));
        assert(!rest.to_set().contains(tx)) by {
            if rest.contains(tx) {
                let k = choose|k: int| 0 <= k < rest.len() && rest[k] == tx;
                assert(due[k] < due[due.len() - 1]);
            }
        }
        assert(s1.txs.contains_key(tx));
        let cancel = seq![ActionView::Cancel { tx }];
        lemma_failed(s1, tx, now);
        lemma_failed_ids(s1, tx, now);
        lemma_cancel(s1, tx);
        lemma_follows_on(s, s1, a1, None, rest.to_set(), s1, cancel, Set::empty());
        assert(tx_sound(s, tx));
        lemma_follows_on(
            s,
            s1,
            a1 + cancel,
            None,
            rest.to_set() + Set::empty(),
            s2,
            a2,
            Set::empty().insert(tx),
        );
        assert(rest.to_set() + Set::empty() + Set::empty().insert(tx) =~= due.to_set()) by {
            assert forall|x: u64| due.to_set().contains(x) <==> rest.to_set().contains(x) || x == tx by {
                if due.contains(x) {
                    let k = choose|k: int| 0 <= k < due.len() && due[k] == x;
                    if k < rest.len() {
                        assert(rest[k] == x);
                    }
                }
                if rest.contains(x) {
                    let k = choose|k: int| 0 <= k < rest.len() && rest[k] == x;
                    assert(due[k] == x);
                }
                assert(due[due.len() - 1] == tx);
            }
        }
        assert forall|i: int| 0 <= i < due.len() implies cancels(a, #[trigger] due[i]) by {
            if i < rest.len() {
                assert(rest[i] == due[i]);
                assert(cancels(a1, rest[i]));
                let k = choose|k: int| 0 <= k < a1.len() && a1[k] == ActionView::Cancel { tx: due[i] };
                assert(a[k] == ActionView::Cancel { tx: due[i] });
            } else {
                assert(a[a1.len() as int] == ActionView::Cancel { tx });
            }
        }
    }
}

/// The transactions that are over their deadlines.
pub open spec fn due(s: State, now: Instant) -> Seq<u64> {
    overdue(s, numbers(s.txs), now)
}

/// Time leaves the tables in order: the transactions past their deadlines are
/// over, and each is cancelled.
pub proof fn law_tick_is_sound(s: State, now: Instant)
    requires
        sound(s),
        s.next_id + s.txs.len() < u64::MAX,
    ensures
        sound(ticked(s, now).0),
        follows(s, ticked(s, now).0, ticked(s, now).1, due(s, now).to_set()),
        ticked(s, now).0.next_id <= s.next_id + s.txs.len(),
        forall|tx: u64| #[trigger]
            s.txs.contains_key(tx) && s.txs[tx].deadline <= now ==> cancels(ticked(s, now).1, tx) && !ticked(
                s,
                now,
            ).0.txs.contains_key(tx),
{
    lemma_numbers(s.txs);
    lemma_numbers_len(s.txs);
    lemma_overdue(s, numbers(s.txs), now);
    let d = due(s, now);
    lemma_all_failed(s, d, now);
    let (s1, a) = ticked(s, now);
    assert forall|tx: u64| #[trigger] s.txs.contains_key(tx) && s.txs[tx].deadline <= now implies cancels(a, tx)
        && !s1.txs.contains_key(tx) by {
        let k = choose|k: int| 0 <= k < numbers(s.txs).len() && numbers(s.txs)[k] == tx;
        assert(d.contains(numbers(s.txs)[k]));
        let j = choose|j: int| 0 <= j < d.len() && d[j] == tx;
        assert(cancels(a, d[j]));
        assert(d.to_set().contains(tx));
        assert(!sends(a, tx)) by {
            if sends(a, tx) {
                let i = choose|i: int| 0 <= i < a.len() && is_send(#[trigger] a[i], tx);
                assert(is_send(a[i], tx));
                assert(tx_sound(s, tx));
            }
        }
    }
}

/// A failed transport leaves the tables in order.
pub proof fn law_failure_is_sound(s: State, tx: u64, now: Instant)
    requires
        sound(s),
        s.next_id < u64::MAX,
    ensures
        sound(failed(s, tx, now).0),
        follows(s, failed(s, tx, now).0, failed(s, tx, now).1, Set::empty().insert(tx)),
{
    if s.txs.contains_key(tx) {
        lemma_failed(s, tx, now);
    }
}

/// The transactions that bytes for one of them end: that one, where they
/// answer it.
pub open spec fn answered(s: State, tx: u64, bytes: Seq<u8>) -> Set<u64> {
    if s.txs.contains_key(tx) && (decode(bytes) matches Ok(m) && answers(s.txs[tx], m)) {
        Set::empty().insert(tx)
    } else {
        Set::empty()
    }
}

/// Whatever arrives leaves the tables in order.
pub proof fn law_reply_is_sound(s: State, tx: u64, bytes: Seq<u8>, now: Instant)
    requires
        sound(s),
        s.next_id < u64::MAX,
    ensures
        sound(received(s, tx, bytes, now).0),
        follows(s, received(s, tx, bytes, now).0, received(s, tx, bytes, now).1, answered(s, tx, bytes)),
{
    if s.txs.contains_key(tx) {
        if let Ok(m) = decode(bytes) {
            if answers(s.txs[tx], m) {
                lemma_replied(s, tx, m, now);
            }
        }
    }
}

// Questions.

/// A question that is not open may be asked for records.
pub proof fn law_resolve_is_sound(s: State, qid: u64, text: Seq<u8>, rtype: u16, no_cache: bool, now: Instant)
    requires
        sound(s),
        !is_open(s, qid),
        s.next_id < u64::MAX - 1,
    ensures
        sound(resolved(s, qid, text, rtype, no_cache, now).0),
        steps(
            s,
            resolved(s, qid, text, rtype, no_cache, now).0,
            resolved(s, qid, text, rtype, no_cache, now).1,
            Some(qid),
            Set::empty(),
        ),
{
    let (end, a) = resolved(s, qid, text, rtype, no_cache, now);
    match name_of_text(text) {
        Err(_) => {
            assert forall|x: u64| #[trigger] end.tasks.contains_key(x) implies task_sound(end, x, Set::empty()) by {
                assert(task_sound(s, x, Set::empty()));
            }
            assert forall|t: u64| #[trigger] end.txs.contains_key(t) implies tx_sound(end, t) by {
                assert(tx_sound(s, t));
            }
            assert forall|x: u64| #[trigger] end.lookups.contains_key(x) implies lookup_sound(end, x) by {
                assert(lookup_sound(s, x));
            }
            assert forall|x: u64| #[trigger]
                dones(a, x) + count(is_open(end, x)) == count(is_open(s, x)) + count(Some(qid) == Some(x)) by {
                lemma_one_done(a[0], x);
                assert(a =~= seq![a[0]]);
                lemma_open_same(s, end, x);
            }
        },
        Ok(name) => {
            let none = Set::<u64>::empty();
            let id = s.next_id;
            let idle = none.insert(id);
            let s1 = started(counted(s), Owner::Resolve(qid), name, rtype, no_cache);
            assert forall|x: u64| #[trigger] s1.tasks.contains_key(x) implies task_sound(s1, x, idle) by {
                if x != id {
                    assert(s.tasks.contains_key(x));
                    assert(task_sound(s, x, none));
                }
            }
            assert forall|t: u64| #[trigger] s1.txs.contains_key(t) implies tx_sound(s1, t) by {
                assert(tx_sound(s, t));
                assert(task_sound(s, s.txs[t].task, none));
            }
            assert forall|x: u64| #[trigger] s1.lookups.contains_key(x) implies lookup_sound(s1, x) by {
                assert(lookup_sound(s, x));
                let pending = s.lookups[x].pending;
                assert forall|i: int| 0 <= i < pending.len() implies s1.tasks.contains_key(#[trigger] pending[i])
                    && s1.tasks[pending[i]].owner == Owner::Lookup(x) by {
                    assert(s.tasks.contains_key(pending[i]));
                    assert(task_sound(s, pending[i], none));
                }
            }
            assert forall|x: u64, y: u64|
                #[trigger] s1.tasks.contains_key(x) && #[trigger] s1.tasks.contains_key(y) && x != y
                    && s1.tasks[x].owner == s1.tasks[y].owner implies s1.tasks[x].owner is Lookup by {
                if x != id {
                    assert(s.tasks.contains_key(x));
                }
                if y != id {
                    assert(s.tasks.contains_key(y));
                }
            }
            assert(sound_but(s1, idle));
            let quiet = Seq::<ActionView>::empty();
            assert(!s.tasks.contains_key(id)) by {
                if s.tasks.contains_key(id) {
                    assert(task_sound(s, id, none));
                }
            }
            assert(s1.tasks.remove(id) =~= s.tasks);
            assert forall|x: u64| #[trigger]
                dones(quiet, x) + count(is_open(s1, x)) == count(is_open(s, x)) + count(Some(qid) == Some(x)) by {
                lemma_open_with(s, s1, id, qid, x);
            }
            lemma_advanced(s1, idle, id, now);
            assert(idle.remove(id) =~= none);
            lemma_follows_on(s, s1, quiet, Some(qid), none, end, a, none);
            assert(quiet + a =~= a);
            assert(none + none =~= none);
        },
    }
}

/// Which questions a new task leaves open.
proof fn lemma_open_with(s: State, s1: State, id: u64, qid: u64, q: u64)
    requires
        !s.tasks.contains_key(id),
        s1.lookups == s.lookups,
        s1.tasks.remove(id) == s.tasks,
        s1.tasks.contains_key(id),
        s1.tasks[id].owner == Owner::Resolve(qid),
        !is_open(s, qid),
    ensures
        is_open(s1, q) == (is_open(s, q) || q == qid),
{
    if is_open(s, q) && !s.lookups.contains_key(q) {
        let k = choose|k: u64| #[trigger] s.tasks.contains_key(k) && s.tasks[k].owner == Owner::Resolve(q);
        assert(s1.tasks.remove(id).contains_key(k));
        assert(s1.tasks.contains_key(k));
    }
    if is_open(s1, q) && !s1.lookups.contains_key(q) && q != qid {
        let k = choose|k: u64| #[trigger] s1.tasks.contains_key(k) && s1.tasks[k].owner == Owner::Resolve(q);
        assert(s1.tasks.remove(id).contains_key(k));
        assert(s.tasks.contains_key(k));
    }
}

/// A question that is not open may be asked for the names of an address.
pub proof fn law_reverse_is_sound(s: State, qid: u64, address: Seq<u8>, now: Instant)
    requires
        sound(s),
        !is_open(s, qid),
        s.next_id < u64::MAX - 1,
    ensures
        sound(reversed(s, qid, address, now).0),
        steps(s, reversed(s, qid, address, now).0, reversed(s, qid, address, now).1, Some(qid), Set::empty()),
{
    law_resolve_is_sound(s, qid, name_text(reverse_name(address)), rtype::PTR, false, now);
}

/// The state in which a lookup's tasks wait to be worked on.
spec fn lookup_ready(s: State, qid: u64, name: Labels, family: Family) -> State {
    let s1 = lookup_started(counted(s), qid, name, types_of(family));
    let ids = run_of(s.next_id, types_of(family).len());
    State {
        lookups: s1.lookups.insert(qid, LookupView { name, pending: ids, results: Seq::empty() }),
        ..s1
    }
}

proof fn lemma_lookup_ready(s: State, qid: u64, name: Labels, family: Family)
    requires
        sound(s),
        !is_open(s, qid),
        s.next_id < u64::MAX - 4,
    ensures
        sound_but(lookup_ready(s, qid, name, family), run_of(s.next_id, types_of(family).len()).to_set()),
        steps(s, lookup_ready(s, qid, name, family), Seq::empty(), Some(qid), Set::empty()),
        lookup_ready(s, qid, name, family).next_id == s.next_id + types_of(family).len(),
{
    reveal_with_fuel(lookup_started, 3);
    let none = Set::<u64>::empty();
    let types = types_of(family);
    let ids = run_of(s.next_id, types.len());
    let idle = ids.to_set();
    let s1 = lookup_ready(s, qid, name, family);
    let id = s.next_id;
    assert(types.len() == 2 ==> types.drop_last().drop_last() =~= Seq::empty());
    assert(types.len() == 1 ==> types.drop_last() =~= Seq::empty());
    assert(ids[0] == id);
    assert(types.len() == 2 ==> ids[1] == id + 1);
    assert forall|x: u64| #[trigger] idle.contains(x) <==> x == id || (types.len() == 2 && x == id + 1) by {
        if idle.contains(x) {
            let k = choose|k: int| 0 <= k < ids.len() && ids[k] == x;
            assert(k == 0 || k == 1);
        }
    }
    assert(s1.next_id == id + types.len());
    assert forall|x: u64| #[trigger] s1.tasks.contains_key(x) implies s.tasks.contains_key(x) || idle.contains(x) by {}
    assert forall|x: u64| #[trigger] idle.contains(x) implies s1.tasks.contains_key(x) && s1.tasks[x].owner
        == Owner::Lookup(qid) && s1.tasks[x].tx is None && s1.tasks[x].attempt == 0 && x < s1.next_id && ids.contains(x) by {}
    assert forall|x: u64| #[trigger] s.tasks.contains_key(x) implies s1.tasks.contains_key(x) && s1.tasks[x]
        == s.tasks[x] && !idle.contains(x) by {
        assert(task_sound(s, x, none));
    }
    assert forall|x: u64| #[trigger] s1.tasks.contains_key(x) implies task_sound(s1, x, idle) by {
        if idle.contains(x) {
        } else {
            assert(s.tasks.contains_key(x));
            assert(task_sound(s, x, none));
        }
    }
    assert forall|t: u64| #[trigger] s1.txs.contains_key(t) implies tx_sound(s1, t) by {
        assert(tx_sound(s, t));
    }
    assert forall|x: u64| #[trigger] s1.lookups.contains_key(x) implies lookup_sound(s1, x) by {
        if x == qid {
            assert forall|i: int| 0 <= i < ids.len() implies s1.tasks.contains_key(#[trigger] ids[i])
                && s1.tasks[ids[i]].owner == Owner::Lookup(x) by {
                assert(idle.contains(ids[i]));
            }
        } else {
            assert(lookup_sound(s, x));
            let pending = s.lookups[x].pending;
            assert forall|i: int| 0 <= i < pending.len() implies s1.tasks.contains_key(#[trigger] pending[i])
                && s1.tasks[pending[i]].owner == Owner::Lookup(x) by {
                assert(s.tasks.contains_key(pending[i]));
            }
        }
    }
    assert forall|x: u64, y: u64|
        #[trigger] s1.tasks.contains_key(x) && #[trigger] s1.tasks.contains_key(y) && x != y && s1.tasks[x].owner
            == s1.tasks[y].owner implies s1.tasks[x].owner is Lookup by {
        if !idle.contains(x) && !idle.contains(y) {
            assert(s.tasks.contains_key(x) && s.tasks.contains_key(y));
        }
    }
    let quiet = Seq::<ActionView>::empty();
    assert forall|x: u64| #[trigger]
        dones(quiet, x) + count(is_open(s1, x)) == count(is_open(s, x)) + count(Some(qid) == Some(x)) by {
        if is_open(s, x) && !s.lookups.contains_key(x) {
            let k = choose|k: u64| #[trigger] s.tasks.contains_key(k) && s.tasks[k].owner == Owner::Resolve(x);
            assert(s1.tasks.contains_key(k));
        }
        if is_open(s1, x) && !s1.lookups.contains_key(x) {
            let k = choose|k: u64| #[trigger] s1.tasks.contains_key(k) && s1.tasks[k].owner == Owner::Resolve(x);
            assert(s.tasks.contains_key(k));
        }
    }
}

/// Tasks advanced one after the other leave the tables in order.
proof fn lemma_all_advanced(s: State, idle: Set<u64>, ids: Seq<u64>, now: Instant)
    requires
        sound_but(s, idle),
        ids.no_duplicates(),
        forall|i: int| 0 <= i < ids.len() ==> idle.contains(#[trigger] ids[i]),
        s.next_id + ids.len() < u64::MAX,
    ensures
        sound_but(all_advanced(s, ids, now).0, idle - ids.to_set()),
        follows(s, all_advanced(s, ids, now).0, all_advanced(s, ids, now).1, Set::empty()),
        all_advanced(s, ids, now).0.next_id <= s.next_id + ids.len(),
    decreases ids.len(),
{
    if ids.len() == 0 {
        assert(idle - ids.to_set() =~= idle);
    } else {
        let rest = ids.drop_last();
        let id = ids.last();
        assert forall|i: int| 0 <= i < rest.len() implies idle.contains(#[trigger] rest[i]) by {
            assert(ids[i] == rest[i]);
        }
        lemma_all_advanced(s, idle, rest, now);
        let (s1, a1) = all_advanced(s, rest, now);
        let (s2, a2) = advanced(s1, id, now);
        let left = idle - rest.to_set();
        assert(idle.contains(ids[ids.len() - 1]));
        assert(!rest.contains(id)) by {
            if rest.contains(id) {
                let k = choose|k: int| 0 <= k < rest.len() && rest[k] == id;
                assert(ids[k] == ids[ids.len() - 1]);
            }
        }
        assert(left.contains(id));
        lemma_advanced(s1, left, id, now);
        lemma_advanced_ids(s1, id, now);
        assert(left.remove(id) =~= idle - ids.to_set()) by {
            assert forall|x: u64| ids.contains(x) <==> rest.contains(x) || x == id by {
                if ids.contains(x) {
                    let k = choose|k: int| 0 <= k < ids.len() && ids[k] == x;
                    if k < rest.len() {
                        assert(rest[k] == x);
                    }
                }
                if rest.contains(x) {
                    let k = choose|k: int| 0 <= k < rest.len() && rest[k] == x;
                    assert(ids[k] == x);
                }
                assert(ids[ids.len() - 1] == id);
            }
        }
        lemma_follows_on(s, s1, a1, None, Set::empty(), s2, a2, Set::empty());
        assert(Set::<u64>::empty() + Set::<u64>::empty() =~= Set::<u64>::empty());
    }
}

/// A question that is not open may be asked for the addresses of a name.
pub proof fn law_lookup_is_sound(s: State, qid: u64, text: Seq<u8>, family: Family, now: Instant)
    requires
        sound(s),
        !is_open(s, qid),
        s.next_id < u64::MAX - 4,
    ensures
        sound(looked_up(s, qid, text, family, now).0),
        steps(
            s,
            looked_up(s, qid, text, family, now).0,
            looked_up(s, qid, text, family, now).1,
            Some(qid),
            Set::empty(),
        ),
        looked_up(s, qid, text, family, now).0.next_id <= s.next_id + 4,
{
    let (end, a) = looked_up(s, qid, text, family, now);
    match name_of_text(text) {
        Err(_) => {
            assert forall|x: u64| #[trigger] end.tasks.contains_key(x) implies task_sound(end, x, Set::empty()) by {
                assert(task_sound(s, x, Set::empty()));
            }
            assert forall|t: u64| #[trigger] end.txs.contains_key(t) implies tx_sound(end, t) by {
                assert(tx_sound(s, t));
            }
            assert forall|x: u64| #[trigger] end.lookups.contains_key(x) implies lookup_sound(end, x) by {
                assert(lookup_sound(s, x));
            }
            assert forall|x: u64| #[trigger]
                dones(a, x) + count(is_open(end, x)) == count(is_open(s, x)) + count(Some(qid) == Some(x)) by {
                lemma_one_done(a[0], x);
                assert(a =~= seq![a[0]]);
                lemma_open_same(s, end, x);
            }
        },
        Ok(name) => {
            let ids = run_of(s.next_id, types_of(family).len());
            let ready = lookup_ready(s, qid, name, family);
            lemma_lookup_ready(s, qid, name, family);
            lemma_all_advanced(ready, ids.to_set(), ids, now);
            assert(ids.to_set() - ids.to_set() =~= Set::empty());
            let quiet = Seq::<ActionView>::empty();
            lemma_follows_on(s, ready, quiet, Some(qid), Set::empty(), end, a, Set::empty());
            assert(quiet + a =~= a);
            assert(Set::<u64>::empty() + Set::<u64>::empty() =~= Set::<u64>::empty());
        },
    }
}

// Configuration.

pub proof fn lemma_flushed_sound(c: Entries, scope: Seq<char>)
    requires
        cache_sound(c),
    ensures
        cache_sound(flushed(c, scope)),
{
    lemma_flushed(c, scope);
    let after = flushed(c, scope);
    assert forall|i: int| 0 <= i < after.len() implies (#[trigger] after[i]).1.outcome != Outcome::Unavailable
        && honest_records(after[i].1.outcome, after[i].1.records) by {
        assert(c.contains(after[i]));
        let k = choose|k: int| 0 <= k < c.len() && c[k] == after[i];
        assert(c[k].1.outcome != Outcome::Unavailable);
    }
}

proof fn lemma_flush_changed_sound(c: Entries, was: Seq<ScopeView>, new: Seq<ScopeView>)
    requires
        cache_sound(c),
    ensures
        cache_sound(flush_changed(c, was, new)),
    decreases new.len(),
{
    if new.len() > 0 {
        lemma_flush_changed_sound(c, was, new.drop_last());
        lemma_flushed_sound(flush_changed(c, was, new.drop_last()), new.last().id);
    }
}

proof fn lemma_flush_gone_sound(c: Entries, was: Seq<ScopeView>, new: Seq<ScopeView>)
    requires
        cache_sound(c),
    ensures
        cache_sound(flush_gone(c, was, new)),
    decreases was.len(),
{
    if was.len() > 0 {
        lemma_flush_gone_sound(c, was.drop_last(), new);
        lemma_flushed_sound(flush_gone(c, was.drop_last(), new), was.last().id);
    }
}

/// Where only what is configured and the cache change, the tables stay in
/// order and nothing happens.
pub proof fn law_configuration_is_sound(s: State, s1: State)
    requires
        sound(s),
        s1.tasks == s.tasks,
        s1.txs == s.txs,
        s1.lookups == s.lookups,
        s1.next_id == s.next_id,
        cache_sound(s1.cache),
    ensures
        sound(s1),
        follows(s, s1, Seq::empty(), Set::empty()),
{
    let none = Set::<u64>::empty();
    assert forall|x: u64| #[trigger] s1.tasks.contains_key(x) implies task_sound(s1, x, none) by {
        assert(task_sound(s, x, none));
    }
    assert forall|t: u64| #[trigger] s1.txs.contains_key(t) implies tx_sound(s1, t) by {
        assert(tx_sound(s, t));
    }
    assert forall|x: u64| #[trigger] s1.lookups.contains_key(x) implies lookup_sound(s1, x) by {
        assert(lookup_sound(s, x));
    }
    let quiet = Seq::<ActionView>::empty();
    assert forall|x: u64| #[trigger] dones(quiet, x) + count(is_open(s1, x)) == count(is_open(s, x)) by {
        lemma_open_same(s, s1, x);
    }
}

/// Other scopes leave the tables in order.
pub proof fn law_scopes_are_sound(s: State, new: Seq<ScopeView>)
    requires
        sound(s),
    ensures
        sound(rescoped(s, new)),
        follows(s, rescoped(s, new), Seq::empty(), Set::empty()),
{
    lemma_flush_changed_sound(s.cache, s.scopes, new);
    lemma_flush_gone_sound(flush_changed(s.cache, s.scopes, new), s.scopes, new);
    law_configuration_is_sound(s, rescoped(s, new));
}

/// Other fallback servers leave the tables in order.
pub proof fn law_fallback_is_sound(s: State, servers: Seq<Seq<u8>>, domains: Seq<Labels>)
    requires
        sound(s),
    ensures
        sound(with_fallback(s, servers, domains)),
        follows(s, with_fallback(s, servers, domains), Seq::empty(), Set::empty()),
{
    lemma_flushed_sound(s.cache, FALLBACK_SCOPE@);
    law_configuration_is_sound(s, with_fallback(s, servers, domains));
}

/// A new engine's tables are in order, and no question is open.
pub proof fn law_initial_is_sound(seed: u64)
    ensures
        sound(initial(seed)),
        forall|q: u64| !#[trigger] is_open(initial(seed), q),
{
}

// Askers that went away.

proof fn lemma_tasks_of(s: State, ids: Seq<u64>, qid: u64)
    ensures
        forall|x: u64| #[trigger] tasks_of(s, ids, qid).contains(x) <==> ids.contains(x) && s.tasks[x].owner.qid() == qid,
    decreases ids.len(),
{
    if ids.len() > 0 {
        let rest = ids.drop_last();
        let id = ids.last();
        lemma_tasks_of(s, rest, qid);
        let before = tasks_of(s, rest, qid);
        let all = tasks_of(s, ids, qid);
        assert forall|x: u64| #[trigger] all.contains(x) <==> ids.contains(x) && s.tasks[x].owner.qid() == qid by {
            assert(ids =~= rest.push(id));
            assert(ids.contains(x) <==> rest.contains(x) || x == id) by {
                lemma_push_contains(rest, id, x);
            }
            lemma_push_contains(before, id, x);
        }
    }
}

pub proof fn lemma_push_contains(v: Seq<u64>, id: u64, x: u64)
    ensures
        v.push(id).contains(x) <==> v.contains(x) || x == id,
{
    let w = v.push(id);
    if w.contains(x) {
        let k = choose|k: int| 0 <= k < w.len() && w[k] == x;
        if k < v.len() {
            assert(v[k] == x);
        }
    }
    if v.contains(x) {
        let k = choose|k: int| 0 <= k < v.len() && v[k] == x;
        assert(w[k] == x);
    }
    assert(w[v.len() as int] == id);
}

/// What is left when tasks are dropped.
proof fn lemma_all_dropped(s: State, ids: Seq<u64>)
    requires
        sound(s),
        forall|i: int| 0 <= i < ids.len() ==> s.tasks.contains_key(#[trigger] ids[i]),
    ensures
        ({
            let (s1, a) = all_dropped(s, ids);
            &&& s1 == State { tasks: s1.tasks, txs: s1.txs, ..s }
            &&& forall|x: u64| #[trigger] s1.tasks.contains_key(x) <==> s.tasks.contains_key(x) && !ids.contains(x)
            &&& forall|x: u64| #[trigger] s1.tasks.contains_key(x) ==> s1.tasks[x] == s.tasks[x]
            &&& forall|t: u64| #[trigger]
                s1.txs.contains_key(t) <==> s.txs.contains_key(t) && !ids.contains(s.txs[t].task)
            &&& forall|t: u64| #[trigger] s1.txs.contains_key(t) ==> s1.txs[t] == s.txs[t]
            &&& forall|t: u64| #[trigger] cancels(a, t) <==> s.txs.contains_key(t) && ids.contains(s.txs[t].task)
            &&& forall|i: int| 0 <= i < a.len() ==> #[trigger] a[i] is Cancel
        }),
    decreases ids.len(),
{
    let (s1, a) = all_dropped(s, ids);
    if ids.len() == 0 {
        assert forall|t: u64| #[trigger] cancels(a, t) <==> s.txs.contains_key(t) && ids.contains(s.txs[t].task) by {}
    } else {
        let none = Set::<u64>::empty();
        let rest = ids.drop_last();
        let id = ids.last();
        assert forall|i: int| 0 <= i < rest.len() implies s.tasks.contains_key(#[trigger] rest[i]) by {
            assert(rest[i] == ids[i]);
        }
        lemma_all_dropped(s, rest);
        let (s0, a0) = all_dropped(s, rest);
        assert(s.tasks.contains_key(ids[ids.len() - 1]));
        assert(task_sound(s, id, none));
        assert(ids =~= rest.push(id));
        assert forall|x: u64| #[trigger] ids.contains(x) <==> rest.contains(x) || x == id by {
            lemma_push_contains(rest, id, x);
        }
        assert forall|t: u64| s.txs.contains_key(t) implies (s.txs[t].task == id <==> s.tasks[id].tx == Some(t)) by {
            assert(tx_sound(s, t));
        }
        assert forall|t: u64| #[trigger] cancels(a, t) <==> s.txs.contains_key(t) && ids.contains(s.txs[t].task) by {
            assert(cancels(a0, t) <==> s.txs.contains_key(t) && rest.contains(s.txs[t].task));
            if s0.tasks.contains_key(id) {
                let tx = s0.tasks[id].tx->0;
                let last = ActionView::Cancel { tx };
                assert(a == a0.push(last));
                if cancels(a0, t) {
                    let k = choose|k: int| 0 <= k < a0.len() && a0[k] == ActionView::Cancel { tx: t };
                    assert(a[k] == a0[k]);
                }
                assert(a[a0.len() as int] == last);
                if cancels(a, t) {
                    let k = choose|k: int| 0 <= k < a.len() && a[k] == ActionView::Cancel { tx: t };
                    if k < a0.len() {
                        assert(a0[k] == a[k]);
                    }
                }
            }
        }
    }
}

/// A question whose asker went away is open no more and is not answered; what
/// was on its way for it is cancelled, and nothing else changes.
pub proof fn law_abandoned_is_forgotten(s: State, qid: u64)
    requires
        sound(s),
    ensures
        sound(abandoned(s, qid).0),
        !is_open(abandoned(s, qid).0, qid),
        forall|q: u64| q != qid ==> (#[trigger] is_open(abandoned(s, qid).0, q) <==> is_open(s, q)),
        forall|i: int| 0 <= i < abandoned(s, qid).1.len() ==> #[trigger] abandoned(s, qid).1[i] is Cancel,
        forall|tx: u64| #[trigger]
            cancels(abandoned(s, qid).1, tx) <==> s.txs.contains_key(tx) && s.tasks[s.txs[tx].task].owner.qid() == qid,
        forall|tx: u64| #[trigger]
            abandoned(s, qid).0.txs.contains_key(tx) <==> s.txs.contains_key(tx) && !cancels(abandoned(s, qid).1, tx),
{
    let none = Set::<u64>::empty();
    let all = numbers(s.tasks);
    lemma_numbers(s.tasks);
    let ids = tasks_of(s, all, qid);
    lemma_tasks_of(s, all, qid);
    assert forall|x: u64| #[trigger] ids.contains(x) <==> s.tasks.contains_key(x) && s.tasks[x].owner.qid() == qid by {
        if all.contains(x) {
            let k = choose|k: int| 0 <= k < all.len() && all[k] == x;
            assert(s.tasks.contains_key(all[k]));
        }
    }
    assert forall|i: int| 0 <= i < ids.len() implies s.tasks.contains_key(#[trigger] ids[i]) by {
        assert(ids.contains(ids[i]));
    }
    lemma_all_dropped(s, ids);
    let (s0, a) = all_dropped(s, ids);
    let s1 = abandoned(s, qid).0;
    assert forall|tx: u64| #[trigger] cancels(a, tx) <==> s.txs.contains_key(tx) && s.tasks[s.txs[tx].task].owner.qid()
        == qid by {
        if s.txs.contains_key(tx) {
            assert(tx_sound(s, tx));
        }
    }
    assert forall|x: u64| #[trigger] s1.tasks.contains_key(x) implies task_sound(s1, x, none) by {
        assert(s0.tasks.contains_key(x));
        assert(task_sound(s, x, none));
        let tx = s.tasks[x].tx->0;
        assert(s0.txs.contains_key(tx));
    }
    assert forall|t: u64| #[trigger] s1.txs.contains_key(t) implies tx_sound(s1, t) by {
        assert(s0.txs.contains_key(t));
        assert(tx_sound(s, t));
        assert(s0.tasks.contains_key(s.txs[t].task));
    }
    assert forall|x: u64| #[trigger] s1.lookups.contains_key(x) implies lookup_sound(s1, x) by {
        assert(lookup_sound(s, x));
        let pending = s.lookups[x].pending;
        assert forall|i: int| 0 <= i < pending.len() implies s1.tasks.contains_key(#[trigger] pending[i])
            && s1.tasks[pending[i]].owner == Owner::Lookup(x) by {
            assert(s.tasks.contains_key(pending[i]));
            assert(s0.tasks.contains_key(pending[i]));
        }
    }
    assert forall|x: u64, y: u64|
        #[trigger] s1.tasks.contains_key(x) && #[trigger] s1.tasks.contains_key(y) && x != y && s1.tasks[x].owner
            == s1.tasks[y].owner implies s1.tasks[x].owner is Lookup by {
        assert(s0.tasks.contains_key(x) && s0.tasks.contains_key(y));
        assert(s.tasks.contains_key(x) && s.tasks.contains_key(y));
    }
    lemma_numbers_len(s.txs);
    lemma_numbers_len(s1.txs);
    assert(s1.txs.dom().subset_of(s.txs.dom())) by {
        assert forall|t: u64| s1.txs.dom().contains(t) implies s.txs.dom().contains(t) by {
            assert(s0.txs.contains_key(t));
        }
    }
    vstd::set_lib::lemma_len_subset(s1.txs.dom(), s.txs.dom());
    assert(!is_open(s1, qid)) by {
        if is_open(s1, qid) {
            let k = choose|k: u64| #[trigger] s1.tasks.contains_key(k) && s1.tasks[k].owner == Owner::Resolve(qid);
            assert(s0.tasks.contains_key(k));
            assert(ids.contains(k));
        }
    }
    assert forall|q: u64| q != qid implies (#[trigger] is_open(s1, q) <==> is_open(s, q)) by {
        if is_open(s, q) && !s.lookups.contains_key(q) {
            let k = choose|k: u64| #[trigger] s.tasks.contains_key(k) && s.tasks[k].owner == Owner::Resolve(q);
            assert(!ids.contains(k));
            assert(s0.tasks.contains_key(k));
        }
        if is_open(s1, q) && !s1.lookups.contains_key(q) {
            let k = choose|k: u64| #[trigger] s1.tasks.contains_key(k) && s1.tasks[k].owner == Owner::Resolve(q);
            assert(s0.tasks.contains_key(k));
        }
    }
    assert forall|tx: u64| #[trigger] s1.txs.contains_key(tx) <==> s.txs.contains_key(tx) && !cancels(a, tx) by {
        assert(s0.txs.contains_key(tx) <==> s.txs.contains_key(tx) && !ids.contains(s.txs[tx].task));
    }
}

} // verus!

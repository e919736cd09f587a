//! What becomes of a question, step by step.
use crate::cache::{cached, key_of};
use crate::dns::layout::{law_names_are_compared_without_case, spelled_alike};
use crate::dns::message::decode;
use crate::dns::name::{law_case_randomisation_keeps_equality, letters, same_name, Labels};
use crate::dns::record::RecordView;
use crate::engine::answer::{combined, AnswerView, Source};
use crate::engine::local_laws::{law_every_record_is_told, lemma_push_has, told_as};
use crate::engine::model::{
    answers, attempted, bits_from, demoted, failed, next_candidate, output, picked, received, scrambled, settled,
    types_of, untried_from, without, ActionView, CompletionView, Counters, Family, LookupView, Owner, State, TaskView,
};
use crate::engine::route_laws::law_healthy_servers_come_first;
use crate::engine::scope::{interface_of, route, servers_of};
use crate::protocol::Outcome;
use crate::time::Instant;
use vstd::prelude::*;

verus! {

/// A moment some nanoseconds later.
pub open spec fn later(now: Instant, by: int) -> Instant {
    (now + by) as u64
}

// Replies.

/// Whether bytes are a reply to a transaction: they decode, as a response with
/// its id and exactly its one question, in the case in which it was sent.
pub open spec fn is_reply(s: State, tx: u64, bytes: Seq<u8>) -> bool {
    s.txs.contains_key(tx) && s.tasks.contains_key(s.txs[tx].task) && (decode(bytes) matches Ok(m) && m.header.response
        && m.header.id == s.txs[tx].dns_id && m.questions == seq![s.txs[tx].question])
}

proof fn lemma_is_reply(s: State, tx: u64, bytes: Seq<u8>)
    requires
        is_reply(s, tx, bytes),
    ensures
        answers(s.txs[tx], decode(bytes)->Ok_0),
{
    let m = decode(bytes)->Ok_0;
    assert(m.questions[0] == s.txs[tx].question);
}

/// What a server says is told as it says it: the records of class 1, in order, as
/// found, for a code of 0; and the name as absent, without records, for a code of
/// 3; with the server, its interface and the code, at the name that was asked for.
/// Where the name is absent and others are left, that is not yet told.
pub proof fn law_replies_are_told(s: State, tx: u64, bytes: Seq<u8>, now: Instant)
    requires
        is_reply(s, tx, bytes),
        !decode(bytes)->Ok_0.header.truncated || s.txs[tx].tcp,
        s.tasks[s.txs[tx].task].owner is Resolve,
    ensures
        ({
            let m = decode(bytes)->Ok_0;
            let task = s.tasks[s.txs[tx].task];
            let name = task.name();
            let (s1, a) = received(s, tx, bytes, now);
            let told = |outcome: Outcome, records: Seq<RecordView>|
                seq![
                    ActionView::Done {
                        qid: task.owner.qid(),
                        completion: CompletionView::Answer(
                            AnswerView {
                                outcome,
                                records,
                                source: Source::Dns,
                                server: Some(s.txs[tx].server),
                                interface: interface_of(s.scopes, task.scope_id()),
                                rcode: m.rcode(),
                                resolved_name: Some(name),
                            },
                        ),
                    },
                ];
            &&& m.rcode() == 0 ==> a == told(
                Outcome::Found,
                m.answers.filter_map(|r: RecordView| told_as(r, name)),
            ) && !s1.tasks.contains_key(s.txs[tx].task)
            &&& m.rcode() == 3 && task.candidates.len() == 0 ==> a == told(Outcome::NotFound, Seq::empty())
                && !s1.tasks.contains_key(s.txs[tx].task)
            &&& m.rcode() == 0 || (m.rcode() == 3 && task.candidates.len() == 0) ==> s1.demoted == s.demoted.remove(
                s.txs[tx].server,
            )
            &&& m.rcode() == 0 ==> s1.counters == (Counters {
                upstream_answered: s.counters.upstream_answered.wrapping_add(1),
                ..s.counters
            })
        }),
{
    let m = decode(bytes)->Ok_0;
    let name = s.tasks[s.txs[tx].task].name();
    lemma_is_reply(s, tx, bytes);
    law_every_record_is_told(m.answers, name);
}

/// A server that says that it cannot answer is demoted for thirty seconds, and the
/// question goes on as it does after a failed transport; so does one whose
/// transport failed.
pub proof fn law_failing_servers_are_demoted(s: State, tx: u64, bytes: Seq<u8>, now: Instant)
    requires
        s.txs.contains_key(tx),
        s.tasks.contains_key(s.txs[tx].task),
    ensures
        ({
            let s1 = failed(s, tx, now).0;
            &&& s1.demoted == s.demoted.insert(s.txs[tx].server, later(now, 30_000_000_000))
            &&& s1.counters.upstream_failed == s.counters.upstream_failed.wrapping_add(1)
        }),
        is_reply(s, tx, bytes) && (!decode(bytes)->Ok_0.header.truncated || s.txs[tx].tcp) && decode(
            bytes,
        )->Ok_0.rcode() != 0 && decode(bytes)->Ok_0.rcode() != 3 ==> ({
            let (s1, a) = received(s, tx, bytes, now);
            &&& s1.demoted == s.demoted.insert(s.txs[tx].server, later(now, 30_000_000_000))
            &&& a == failed(s, tx, now).1
            &&& s1.tasks == failed(s, tx, now).0.tasks
            &&& s1.txs == failed(s, tx, now).0.txs
            &&& s1.cache == s.cache
            &&& s1.counters.upstream_answered == s.counters.upstream_answered.wrapping_add(1)
            &&& s1.counters.upstream_failed == s.counters.upstream_failed.wrapping_add(1)
        }),
{
    if is_reply(s, tx, bytes) {
        lemma_is_reply(s, tx, bytes);
    }
}

// Attempts.

proof fn lemma_untried(servers: Seq<Seq<u8>>, tried: Seq<Seq<u8>>, i: int, k: int)
    requires
        0 <= i <= k <= servers.len(),
        forall|j: int| 0 <= j < k ==> tried.contains(#[trigger] servers[j]),
        k < servers.len() ==> !tried.contains(servers[k]),
    ensures
        untried_from(servers, tried, i) == if k < servers.len() {
            Some(servers[k])
        } else {
            None
        },
    decreases k - i,
{
    if i < k {
        assert(tried.contains(servers[i]));
        lemma_untried(servers, tried, i + 1, k);
    }
}

/// The servers of a scope in the order in which they are tried: those that are
/// not demoted, and then those that are.
pub open spec fn in_order(s: State, scope: Seq<char>, now: Instant) -> Seq<Seq<u8>> {
    let all = servers_of(s.scopes, s.fallback_servers, scope);
    let m = s.demoted;
    all.filter(|x: Seq<u8>| !(m.contains_key(x) && now < m[x])) + all.filter(
        |x: Seq<u8>| m.contains_key(x) && now < m[x],
    )
}

/// A question that was tried less than three times goes to the first server in
/// order that was not asked for it yet, or, where all were, to the next in turn:
/// over UDP, to be answered within two seconds. It is one attempt more, and that
/// server is asked.
pub proof fn law_an_attempt(s: State, id: u64, now: Instant, k: int)
    requires
        s.tasks.contains_key(id),
        s.tasks[id].attempt < 3,
        s.tasks[id].attempt > 0 || s.txs.len() < 4096,
        ({
            let servers = in_order(s, s.tasks[id].scope_id(), now);
            &&& servers.len() > 0
            &&& 0 <= k <= servers.len()
            &&& forall|j: int| 0 <= j < k ==> s.tasks[id].tried.contains(#[trigger] servers[j])
            &&& k < servers.len() ==> !s.tasks[id].tried.contains(servers[k])
        }),
    ensures
        ({
            let servers = in_order(s, s.tasks[id].scope_id(), now);
            let server = if k < servers.len() {
                servers[k]
            } else {
                servers[s.tasks[id].attempt as int % servers.len() as int]
            };
            let (s1, a) = attempted(s, id, now);
            let tx = s.next_id;
            let task = s.tasks[id];
            &&& a.len() == 1
            &&& a[0] matches ActionView::Send { tx: t, server: to, tcp, payload: _ } && t == tx && to == server && !tcp
            &&& s1.txs.dom() == s.txs.dom().insert(tx)
            &&& s1.txs[tx].task == id
            &&& s1.txs[tx].server == server
            &&& !s1.txs[tx].tcp
            &&& s1.txs[tx].deadline == later(now, 2_000_000_000)
            &&& s1.txs[tx].question.rtype == task.rtype
            &&& s1.txs[tx].question.class == 1
            &&& same_name(s1.txs[tx].question.name, task.name())
            &&& s1.tasks == s.tasks.insert(
                id,
                TaskView {
                    attempt: (task.attempt + 1) as u32,
                    tried: task.tried.push(server),
                    tx: Some(tx),
                    ..task
                },
            )
            &&& s1.counters == (Counters {
                upstream_sent: s.counters.upstream_sent.wrapping_add(1),
                ..s.counters
            })
        }),
{
    let task = s.tasks[id];
    let all = servers_of(s.scopes, s.fallback_servers, task.scope_id());
    law_healthy_servers_come_first(all, s.demoted, now);
    let servers = in_order(s, task.scope_id(), now);
    lemma_untried(servers, task.tried, 0, k);
    let (s1, a) = attempted(s, id, now);
    let rng = scrambled(scrambled(s.rng));
    let choices = bits_from(rng, output(rng), 0, letters(task.name())).0;
    law_case_randomisation_keeps_equality(task.name(), choices);
    let server = picked(servers, task.tried, task.attempt);
    assert(s1.tasks =~= s.tasks.insert(
        id,
        TaskView { attempt: (task.attempt + 1) as u32, tried: task.tried.push(server), tx: Some(s.next_id), ..task },
    ));
    assert(s1.txs.dom() =~= s.txs.dom().insert(s.next_id));
}

/// A question that was tried three times, or that no server is there for, is told
/// that nothing could answer it.
pub proof fn law_giving_up(s: State, id: u64, now: Instant)
    requires
        s.tasks.contains_key(id),
        s.tasks[id].owner is Resolve,
        s.tasks[id].attempt >= 3 || in_order(s, s.tasks[id].scope_id(), now).len() == 0,
    ensures
        ({
            let (s1, a) = attempted(s, id, now);
            &&& a.len() == 1
            &&& a[0] matches ActionView::Done { qid, completion } && qid == s.tasks[id].owner.qid() && (
            completion matches CompletionView::Answer(x) && x.outcome == Outcome::Unavailable && x.records.len() == 0
                && x.server is None)
            &&& s1.tasks == s.tasks.remove(id)
            &&& s1.cache == s.cache
        }),
{
    let all = servers_of(s.scopes, s.fallback_servers, s.tasks[id].scope_id());
    law_healthy_servers_come_first(all, s.demoted, now);
}

/// The next of the names to try is taken from the front, with nobody asked for it
/// yet; and where the cache has nothing for it, it goes to the scope that it is
/// routed to.
pub proof fn law_the_next_name(s: State, id: u64, now: Instant, scope: Seq<char>)
    requires
        s.tasks.contains_key(id),
        s.tasks[id].candidates.len() > 0,
        route(s.scopes, s.fallback_servers, s.tasks[id].candidates[0]) == Some(scope),
        s.tasks[id].no_cache || cached(s.cache, key_of(s.tasks[id].candidates[0], s.tasks[id].rtype, scope), now)
            is None,
    ensures
        ({
            let task = s.tasks[id];
            let s1 = State {
                tasks: s.tasks.insert(
                    id,
                    TaskView {
                        candidates: task.candidates.skip(1),
                        current: Some(task.candidates[0]),
                        scope: Some(scope),
                        attempt: 0,
                        tried: Seq::empty(),
                        ..task
                    },
                ),
                ..s
            };
            next_candidate(s, id, now) == attempted(s1, id, now)
        }),
{
}

/// Where no name is left, the name that was asked for is absent; and where the
/// next goes nowhere, nothing could answer.
pub proof fn law_no_name_is_left(s: State, id: u64, now: Instant)
    requires
        s.tasks.contains_key(id),
        s.tasks[id].owner is Resolve,
    ensures
        s.tasks[id].candidates.len() == 0 ==> next_candidate(s, id, now).1 == seq![
            ActionView::Done { qid: s.tasks[id].owner.qid(), completion: CompletionView::Answer(nothing(Outcome::NotFound)) },
        ],
        s.tasks[id].candidates.len() > 0 && route(s.scopes, s.fallback_servers, s.tasks[id].candidates[0]) is None
            ==> next_candidate(s, id, now).1 == seq![
            ActionView::Done {
                qid: s.tasks[id].owner.qid(),
                completion: CompletionView::Answer(nothing(Outcome::Unavailable)),
            },
        ],
{
}

/// An outcome that came from nobody.
pub open spec fn nothing(outcome: Outcome) -> AnswerView {
    AnswerView {
        outcome,
        records: Seq::empty(),
        source: Source::Local,
        server: None,
        interface: None,
        rcode: 0,
        resolved_name: None,
    }
}

// Lookups.

/// A lookup asks for records of type 1, of type 28, or of the one and then the
/// other.
pub proof fn law_lookups_ask_for_their_family()
    ensures
        types_of(Family::V4) == seq![1u16],
        types_of(Family::V6) == seq![28u16],
        types_of(Family::Any) == seq![1u16, 28u16],
{
}

proof fn lemma_without(s: Seq<u64>, id: u64)
    ensures
        forall|x: u64| #[trigger] without(s, id).contains(x) <==> s.contains(x) && x != id,
        without(s, id) == s.filter(|x: u64| x != id),
    decreases s.len(),
{
    reveal(Seq::filter);
    if s.len() > 0 {
        let rest = s.drop_last();
        lemma_without(rest, id);
        assert(s =~= rest.push(s.last()));
        assert forall|x: u64| #[trigger] without(s, id).contains(x) <==> s.contains(x) && x != id by {
            lemma_push_has(rest, s.last(), x);
            lemma_push_has(without(rest, id), s.last(), x);
            assert(without(rest, id).contains(x) <==> rest.contains(x) && x != id);
        }
    }
}

/// A lookup keeps each answer with the type that it is for, in the order in which
/// they come, and is told once the last has come: what they come to together.
pub proof fn law_lookups_wait_for_all(s: State, id: u64, qid: u64, answer: AnswerView)
    requires
        s.tasks.contains_key(id),
        s.tasks[id].owner == Owner::Lookup(qid),
        s.lookups.contains_key(qid),
    ensures
        ({
            let l = s.lookups[qid];
            let results = l.results.push((s.tasks[id].rtype, answer));
            let others = l.pending.filter(|x: u64| x != id);
            let (s1, a) = settled(s, id, answer);
            &&& s1.tasks == s.tasks.remove(id)
            &&& others.len() > 0 ==> a.len() == 0 && s1.lookups == s.lookups.insert(
                qid,
                LookupView { name: l.name, pending: others, results },
            )
            &&& others.len() == 0 ==> s1.lookups == s.lookups.remove(qid) && a == seq![
                ActionView::Done { qid, completion: CompletionView::Addresses(combined(l.name, results)) },
            ]
        }),
{
    lemma_without(s.lookups[qid].pending, id);
}

/// A question for records that is over is told its answer, and nobody else is.
pub proof fn law_answers_go_to_their_askers(s: State, id: u64, answer: AnswerView)
    requires
        s.tasks.contains_key(id),
        s.tasks[id].owner is Resolve,
    ensures
        settled(s, id, answer).1 == seq![
            ActionView::Done { qid: s.tasks[id].owner->Resolve_0, completion: CompletionView::Answer(answer) },
        ],
        settled(s, id, answer).0.tasks == s.tasks.remove(id),
        settled(s, id, answer).0.lookups == s.lookups,
        s.tasks[id].tx matches Some(tx) ==> settled(s, id, answer).0.txs == s.txs.remove(tx),
        s.tasks[id].tx is None ==> settled(s, id, answer).0.txs == s.txs,
{
}

// What the cache goes by.

/// The cache tells questions apart by the name, whatever its case, the type and
/// the scope, and by nothing else.
pub proof fn law_cache_keys(a: Labels, b: Labels, t: u16, u: u16, x: Seq<char>, y: Seq<char>)
    ensures
        key_of(a, t, x) == key_of(b, u, y) <==> t == u && x == y && a.len() == b.len() && forall|i: int|
            0 <= i < a.len() ==> spelled_alike(#[trigger] a[i], b[i]),
{
    law_names_are_compared_without_case(a, b);
}

} // verus!

//! What the engine is and what each input does to it, as functions of its
//! state.
use crate::cache::{cached, flushed, inserted, key_of, Entries, EntryView};
use crate::dns::message::{decode, message_bytes, query, question_in, MessageView, QuestionView};
use crate::dns::name::{flipped, letters, name_of_text, name_text, reverse_name, Labels};
use crate::dns::record::RecordView;
use crate::dns::{rcode, rtype};
use crate::engine::answer::{
    bare, combined, least_ttl, negative_ttl, no_addresses, recased, synthetic, AddressesView, AnswerView, Hosts,
    Results, Source, MAX_POSITIVE_TTL,
};
use crate::engine::demotion::healthy_first;
use crate::engine::scope::{candidates, interface_of, named, route, servers_of, ScopeView, FALLBACK_SCOPE};
use crate::protocol::Outcome;
use crate::table::numbers;
use crate::time::{Duration, Instant, SECOND};
use vstd::prelude::*;

verus! {

/// Per-server timeout, then the next server: long enough for a recursive
/// resolver's own recursion, short enough that a dead first server costs a
/// few seconds rather than a minute.
pub const SERVER_TIMEOUT: Duration = 2_000_000_000;

/// Attempts per question across the scope's servers.
pub const MAX_ATTEMPTS: u32 = 3;

/// How long a failing server is tried last.
pub const DEMOTION: Duration = 30_000_000_000;

/// A ceiling on outstanding upstream transactions (each is a socket);
/// beyond it a question that needs the network is refused rather than
/// queued without bound. Synthetic and cached answers are never refused.
pub const MAX_IN_FLIGHT: usize = 4096;

#[derive(Debug, Clone, Copy, PartialEq, Eq, Structural)]
pub enum Family {
    Any,
    V4,
    V6,
}

#[derive(Debug, Clone, Copy, PartialEq, Eq, Structural)]
pub struct Counters {
    pub queries: u64,
    pub synthetic: u64,
    pub cache_hits: u64,
    pub upstream_sent: u64,
    pub upstream_answered: u64,
    pub upstream_failed: u64,
    pub refused: u64,
}

/// Nothing counted.
pub open spec fn no_counts() -> Counters {
    Counters {
        queries: 0,
        synthetic: 0,
        cache_hits: 0,
        upstream_sent: 0,
        upstream_answered: 0,
        upstream_failed: 0,
        refused: 0,
    }
}

impl Default for Counters {
    fn default() -> (r: Counters)
        ensures
            r == no_counts(),
    {
        Counters {
            queries: 0,
            synthetic: 0,
            cache_hits: 0,
            upstream_sent: 0,
            upstream_answered: 0,
            upstream_failed: 0,
            refused: 0,
        }
    }
}

/// Whose question a task works on.
#[derive(Debug, Clone, Copy, PartialEq, Eq, Structural)]
pub enum Owner {
    Resolve(u64),
    Lookup(u64),
}

impl Owner {
    pub open spec fn qid(self) -> u64 {
        match self {
            Owner::Resolve(q) => q,
            Owner::Lookup(q) => q,
        }
    }
}

/// One question being worked on.
#[verifier::ext_equal]
pub struct TaskView {
    pub owner: Owner,
    pub original: Labels,
    pub rtype: u16,
    pub no_cache: bool,
    pub candidates: Seq<Labels>,
    /// The candidate in flight.
    pub current: Option<Labels>,
    pub scope: Option<Seq<char>>,
    pub attempt: u32,
    /// Servers already asked for this candidate, so a retry goes elsewhere.
    pub tried: Seq<Seq<u8>>,
    pub tx: Option<u64>,
}

impl TaskView {
    /// The name that is asked for.
    pub open spec fn name(self) -> Labels {
        match self.current {
            Some(n) => n,
            None => self.original,
        }
    }

    pub open spec fn scope_id(self) -> Seq<char> {
        match self.scope {
            Some(s) => s,
            None => Seq::empty(),
        }
    }
}

/// One transaction with a server.
#[verifier::ext_equal]
pub struct TxView {
    pub task: u64,
    pub dns_id: u16,
    /// The question exactly as sent, for matching.
    pub question: QuestionView,
    pub server: Seq<u8>,
    pub tcp: bool,
    pub deadline: Instant,
}

/// One lookup of addresses, and the answers it has so far.
#[verifier::ext_equal]
pub struct LookupView {
    pub name: Labels,
    pub pending: Seq<u64>,
    pub results: Results,
}

pub enum CompletionView {
    Answer(AnswerView),
    Addresses(AddressesView),
}

pub enum ActionView {
    Send { tx: u64, server: Seq<u8>, tcp: bool, payload: Seq<u8> },
    Cancel { tx: u64 },
    Done { qid: u64, completion: CompletionView },
}

pub type Actions = Seq<ActionView>;

/// The whole engine.
#[verifier::ext_equal]
pub struct State {
    pub scopes: Seq<ScopeView>,
    pub fallback_servers: Seq<Seq<u8>>,
    pub fallback_domains: Seq<Labels>,
    pub hostname: Option<Labels>,
    pub hosts: Hosts,
    pub cache: Entries,
    pub demoted: Map<Seq<u8>, Instant>,
    pub tasks: Map<u64, TaskView>,
    pub txs: Map<u64, TxView>,
    pub lookups: Map<u64, LookupView>,
    pub next_id: u64,
    pub rng: u64,
    pub counters: Counters,
}

/// The engine that knows nothing yet.
pub open spec fn initial(seed: u64) -> State {
    State {
        scopes: Seq::empty(),
        fallback_servers: Seq::empty(),
        fallback_domains: Seq::empty(),
        hostname: None,
        hosts: Seq::empty(),
        cache: Seq::empty(),
        demoted: Map::empty(),
        tasks: Map::empty(),
        txs: Map::empty(),
        lookups: Map::empty(),
        next_id: 1,
        rng: seed | 1,
        counters: no_counts(),
    }
}

// Random numbers.

/// The next state of the generator (xorshift64*): not cryptographic, but the
/// id and the case pattern are two of three things a forger must guess (the
/// port is the third).
pub open spec fn scrambled(x: u64) -> u64 {
    let a = x ^ (x >> 12u64);
    let b = a ^ (a << 25u64);
    b ^ (b >> 27u64)
}

/// The number that a state of the generator gives.
pub open spec fn output(x: u64) -> u64 {
    x.wrapping_mul(0x2545_F491_4F6C_DD1Du64)
}

/// `k` bits: what is left of a word of which `used` were taken, lowest first,
/// and then those of new words. Also the generator's state after them.
#[verifier::opaque]
pub open spec fn bits_from(rng: u64, word: u64, used: nat, k: nat) -> (Seq<bool>, u64)
    decreases k, (if used >= 64 { 1nat } else { 0nat }),
{
    if k == 0 {
        (Seq::empty(), rng)
    } else if used >= 64 {
        bits_from(scrambled(rng), output(scrambled(rng)), 0, k)
    } else {
        let (more, end) = bits_from(rng, word / 2, used + 1, (k - 1) as nat);
        (seq![word % 2 == 1] + more, end)
    }
}

pub proof fn lemma_bits(rng: u64, word: u64, used: nat, k: nat)
    ensures
        k == 0 ==> bits_from(rng, word, used, k) == (Seq::<bool>::empty(), rng),
        k > 0 && used >= 64 ==> bits_from(rng, word, used, k) == bits_from(
            scrambled(rng),
            output(scrambled(rng)),
            0,
            k,
        ),
        k > 0 && used < 64 ==> ({
            let (more, end) = bits_from(rng, word / 2, used + 1, (k - 1) as nat);
            bits_from(rng, word, used, k) == (seq![word % 2 == 1] + more, end)
        }),
{
    reveal_with_fuel(bits_from, 2);
}

// Sending.

/// What one transmission of a task's question is.
pub struct Transmission {
    pub dns_id: u16,
    pub question: QuestionView,
    pub rng: u64,
}

pub open spec fn transmission(rng: u64, name: Labels, rtype: u16) -> Transmission {
    let r1 = scrambled(rng);
    let r2 = scrambled(r1);
    let (choices, r3) = bits_from(r2, output(r2), 0, letters(name));
    Transmission {
        dns_id: (output(r1) % 0x1_0000) as u16,
        question: question_in(flipped(name, choices), rtype),
        rng: r3,
    }
}

/// A task's question goes to a server.
pub open spec fn sent(s: State, id: u64, server: Seq<u8>, tcp: bool, now: Instant) -> (State, Actions) {
    if !s.tasks.contains_key(id) {
        (s, Seq::empty())
    } else {
        let task = s.tasks[id];
        let t = transmission(s.rng, task.name(), task.rtype);
        let tx = s.next_id;
        (
            State {
                rng: t.rng,
                next_id: (tx + 1) as u64,
                txs: s.txs.insert(
                    tx,
                    TxView {
                        task: id,
                        dns_id: t.dns_id,
                        question: t.question,
                        server,
                        tcp,
                        deadline: (now + SERVER_TIMEOUT) as u64,
                    },
                ),
                tasks: s.tasks.insert(id, TaskView { tx: Some(tx), ..task }),
                counters: Counters { upstream_sent: s.counters.upstream_sent.wrapping_add(1), ..s.counters },
                ..s
            },
            seq![ActionView::Send { tx, server, tcp, payload: message_bytes(query(t.dns_id, t.question)) }],
        )
    }
}

/// A sequence without a number.
pub open spec fn without(s: Seq<u64>, id: u64) -> Seq<u64>
    decreases s.len(),
{
    if s.len() == 0 {
        Seq::empty()
    } else if s.last() == id {
        without(s.drop_last(), id)
    } else {
        without(s.drop_last(), id).push(s.last())
    }
}

/// A task without its row, and the transaction it had.
pub open spec fn dropped(s: State, id: u64) -> State {
    State {
        tasks: s.tasks.remove(id),
        txs: match s.tasks[id].tx {
            Some(tx) => s.txs.remove(tx),
            None => s.txs,
        },
        ..s
    }
}

/// The task is over: its owner gets the answer.
pub open spec fn settled(s: State, id: u64, answer: AnswerView) -> (State, Actions) {
    if !s.tasks.contains_key(id) {
        (s, Seq::empty())
    } else {
        let task = s.tasks[id];
        let s1 = dropped(s, id);
        match task.owner {
            Owner::Resolve(qid) => (
                s1,
                seq![ActionView::Done { qid, completion: CompletionView::Answer(answer) }],
            ),
            Owner::Lookup(qid) => if !s1.lookups.contains_key(qid) {
                (s1, Seq::empty())
            } else {
                let l = s1.lookups[qid];
                let l1 = LookupView {
                    name: l.name,
                    pending: without(l.pending, id),
                    results: l.results.push((task.rtype, answer)),
                };
                if l1.pending.len() > 0 {
                    (State { lookups: s1.lookups.insert(qid, l1), ..s1 }, Seq::empty())
                } else {
                    (
                        State { lookups: s1.lookups.remove(qid), ..s1 },
                        seq![
                            ActionView::Done {
                                qid,
                                completion: CompletionView::Addresses(combined(l1.name, l1.results)),
                            },
                        ],
                    )
                }
            },
        }
    }
}

/// The first server, from `i` on, that was not tried.
pub open spec fn untried_from(servers: Seq<Seq<u8>>, tried: Seq<Seq<u8>>, i: int) -> Option<Seq<u8>>
    decreases servers.len() - i,
{
    if i < 0 || i >= servers.len() {
        None
    } else if !tried.contains(servers[i]) {
        Some(servers[i])
    } else {
        untried_from(servers, tried, i + 1)
    }
}

/// A server not yet asked, healthiest first; else round-robin.
pub open spec fn picked(servers: Seq<Seq<u8>>, tried: Seq<Seq<u8>>, attempt: u32) -> Seq<u8> {
    match untried_from(servers, tried, 0) {
        Some(server) => server,
        None => servers[attempt as int % servers.len() as int],
    }
}

/// The current candidate goes to the next server, or the task gives up.
pub open spec fn attempted(s: State, id: u64, now: Instant) -> (State, Actions) {
    if !s.tasks.contains_key(id) {
        (s, Seq::empty())
    } else {
        let task = s.tasks[id];
        let servers = healthy_first(
            servers_of(s.scopes, s.fallback_servers, task.scope_id()),
            s.demoted,
            now,
        );
        if task.attempt >= MAX_ATTEMPTS {
            settled(
                s,
                id,
                AnswerView { interface: interface_of(s.scopes, task.scope_id()), ..bare(Outcome::Unavailable) },
            )
        } else if servers.len() == 0 {
            settled(s, id, bare(Outcome::Unavailable))
        } else if task.attempt == 0 && s.txs.len() >= MAX_IN_FLIGHT {
            settled(
                State { counters: Counters { refused: s.counters.refused.wrapping_add(1), ..s.counters }, ..s },
                id,
                bare(Outcome::Unavailable),
            )
        } else {
            let server = picked(servers, task.tried, task.attempt);
            let s1 = State {
                tasks: s.tasks.insert(
                    id,
                    TaskView { attempt: (task.attempt + 1) as u32, tried: task.tried.push(server), ..task },
                ),
                ..s
            };
            sent(s1, id, server, false, now)
        }
    }
}

/// An answer out of the cache.
pub open spec fn cache_answer(s: State, e: EntryView, scope: Seq<char>, name: Labels) -> AnswerView {
    AnswerView {
        outcome: e.outcome,
        records: e.records,
        source: Source::Cache,
        server: Some(e.server),
        interface: interface_of(s.scopes, scope),
        rcode: e.rcode,
        resolved_name: Some(name),
    }
}

/// A task with its next candidate current.
pub open spec fn with_next_candidate(task: TaskView) -> TaskView {
    TaskView {
        candidates: task.candidates.skip(1),
        current: Some(task.candidates[0]),
        attempt: 0,
        tried: Seq::empty(),
        ..task
    }
}

/// The task goes on with its next candidate: from the cache, or from a server.
pub open spec fn next_candidate(s: State, id: u64, now: Instant) -> (State, Actions)
    decreases s.tasks[id].candidates.len(),
{
    if !s.tasks.contains_key(id) {
        (s, Seq::empty())
    } else if s.tasks[id].candidates.len() == 0 {
        settled(s, id, bare(Outcome::NotFound))
    } else {
        let task = with_next_candidate(s.tasks[id]);
        let name = s.tasks[id].candidates[0];
        match route(s.scopes, s.fallback_servers, name) {
            None => settled(State { tasks: s.tasks.insert(id, task), ..s }, id, bare(Outcome::Unavailable)),
            Some(scope) => {
                let s1 = State { tasks: s.tasks.insert(id, TaskView { scope: Some(scope), ..task }), ..s };
                let hit = if task.no_cache {
                    None
                } else {
                    cached(s.cache, key_of(name, task.rtype, scope), now)
                };
                match hit {
                    None => attempted(s1, id, now),
                    Some(e) => {
                        let s2 = State {
                            counters: Counters { cache_hits: s.counters.cache_hits.wrapping_add(1), ..s.counters },
                            ..s1
                        };
                        if e.outcome == Outcome::NotFound && task.candidates.len() > 0 {
                            next_candidate(s2, id, now)
                        } else {
                            settled(s2, id, cache_answer(s, e, scope, name))
                        }
                    },
                }
            },
        }
    }
}

/// What a fresh task does: it answers locally, or builds its candidate list.
pub open spec fn advanced(s: State, id: u64, now: Instant) -> (State, Actions) {
    if !s.tasks.contains_key(id) {
        (s, Seq::empty())
    } else {
        let task = s.tasks[id];
        if task.current is None && task.candidates.len() == 0 && task.attempt == 0 {
            match synthetic(s.scopes, s.hostname, s.hosts, task.original, task.rtype) {
                Some(answer) => settled(
                    State {
                        counters: Counters { synthetic: s.counters.synthetic.wrapping_add(1), ..s.counters },
                        ..s
                    },
                    id,
                    answer,
                ),
                None => {
                    let names = candidates(s.scopes, s.fallback_domains, task.original);
                    if names.len() == 0 {
                        settled(s, id, bare(Outcome::NotFound))
                    } else {
                        next_candidate(
                            State { tasks: s.tasks.insert(id, TaskView { candidates: names, ..task }), ..s },
                            id,
                            now,
                        )
                    }
                },
            }
        } else {
            next_candidate(s, id, now)
        }
    }
}

/// A task that has done nothing yet.
pub open spec fn fresh_task(owner: Owner, name: Labels, rtype: u16, no_cache: bool) -> TaskView {
    TaskView {
        owner,
        original: name,
        rtype,
        no_cache,
        candidates: Seq::empty(),
        current: None,
        scope: None,
        attempt: 0,
        tried: Seq::empty(),
        tx: None,
    }
}

/// A new task under the next number.
pub open spec fn started(s: State, owner: Owner, name: Labels, rtype: u16, no_cache: bool) -> State {
    State {
        next_id: (s.next_id + 1) as u64,
        tasks: s.tasks.insert(s.next_id, fresh_task(owner, name, rtype, no_cache)),
        ..s
    }
}

/// One more question.
pub open spec fn counted(s: State) -> State {
    State { counters: Counters { queries: s.counters.queries.wrapping_add(1), ..s.counters }, ..s }
}

// Questions.

/// Records of a type at a name, the name given as text.
pub open spec fn resolved(s: State, qid: u64, text: Seq<u8>, rtype: u16, no_cache: bool, now: Instant) -> (
    State,
    Actions,
) {
    match name_of_text(text) {
        Err(_) => (
            counted(s),
            seq![ActionView::Done { qid, completion: CompletionView::Answer(bare(Outcome::NotFound)) }],
        ),
        Ok(name) => advanced(
            started(counted(s), Owner::Resolve(qid), name, rtype, no_cache),
            s.next_id,
            now,
        ),
    }
}

/// The record types that a family's addresses are in.
pub open spec fn types_of(family: Family) -> Seq<u16> {
    match family {
        Family::Any => seq![rtype::A, rtype::AAAA],
        Family::V4 => seq![rtype::A],
        Family::V6 => seq![rtype::AAAA],
    }
}

/// Tasks for the types of a lookup, under numbers that follow each other.
pub open spec fn lookup_started(s: State, qid: u64, name: Labels, types: Seq<u16>) -> State
    decreases types.len(),
{
    if types.len() == 0 {
        s
    } else {
        started(lookup_started(s, qid, name, types.drop_last()), Owner::Lookup(qid), name, types.last(), false)
    }
}

/// Tasks advanced one after the other.
pub open spec fn all_advanced(s: State, ids: Seq<u64>, now: Instant) -> (State, Actions)
    decreases ids.len(),
{
    if ids.len() == 0 {
        (s, Seq::empty())
    } else {
        let (s1, before) = all_advanced(s, ids.drop_last(), now);
        let (s2, actions) = advanced(s1, ids.last(), now);
        (s2, before + actions)
    }
}

/// Numbers that follow each other.
pub open spec fn run_of(start: u64, n: nat) -> Seq<u64> {
    Seq::new(n, |i: int| (start + i) as u64)
}

/// The addresses of a name, the name given as text.
pub open spec fn looked_up(s: State, qid: u64, text: Seq<u8>, family: Family, now: Instant) -> (State, Actions) {
    match name_of_text(text) {
        Err(_) => (
            counted(s),
            seq![
                ActionView::Done {
                    qid,
                    completion: CompletionView::Addresses(no_addresses(Outcome::NotFound, Seq::empty())),
                },
            ],
        ),
        Ok(name) => {
            let ids = run_of(s.next_id, types_of(family).len());
            let s1 = lookup_started(counted(s), qid, name, types_of(family));
            let s2 = State {
                lookups: s1.lookups.insert(qid, LookupView { name, pending: ids, results: Seq::empty() }),
                ..s1
            };
            all_advanced(s2, ids, now)
        },
    }
}

/// The names of an address.
pub open spec fn reversed(s: State, qid: u64, address: Seq<u8>, now: Instant) -> (State, Actions) {
    resolved(s, qid, name_text(reverse_name(address)), rtype::PTR, false, now)
}

// Inputs.

pub open spec fn demoted(s: State, server: Seq<u8>, now: Instant) -> State {
    State { demoted: s.demoted.insert(server, (now + DEMOTION) as u64), ..s }
}

/// A task without a transaction.
pub open spec fn idle(s: State, id: u64) -> State {
    if s.tasks.contains_key(id) {
        State { tasks: s.tasks.insert(id, TaskView { tx: None, ..s.tasks[id] }), ..s }
    } else {
        s
    }
}

/// Whether a message is the answer to what a transaction asked. Everything
/// must match: the id, the question as sent, and it must be a response. A
/// forged reply has to guess the port, the id and the case pattern.
pub open spec fn answers(t: TxView, m: MessageView) -> bool {
    &&& m.header.id == t.dns_id
    &&& m.header.response
    &&& m.question() == Some(t.question)
}

/// What a reply of the code says: records are what there is, but the name's
/// absence comes with none.
pub open spec fn reply_records(m: MessageView, name: Labels) -> Seq<RecordView> {
    if m.rcode() == rcode::NXDOMAIN {
        Seq::empty()
    } else {
        recased(m.answers, name)
    }
}

pub open spec fn reply_outcome(m: MessageView) -> Outcome {
    if m.rcode() == rcode::NXDOMAIN {
        Outcome::NotFound
    } else {
        Outcome::Found
    }
}

/// The seconds that a reply is kept.
pub open spec fn reply_ttl(m: MessageView, name: Labels) -> u32 {
    let records = reply_records(m, name);
    if reply_outcome(m) == Outcome::Found && records.len() > 0 {
        least_ttl(records, MAX_POSITIVE_TTL)
    } else {
        negative_ttl(m.authority)
    }
}

/// What a reply leaves in the cache.
pub open spec fn reply_entry(m: MessageView, name: Labels, server: Seq<u8>, now: Instant) -> EntryView {
    EntryView {
        outcome: reply_outcome(m),
        records: reply_records(m, name),
        rcode: m.rcode(),
        server,
        stored: now,
        expires: (now + reply_ttl(m, name) * SECOND) as u64,
    }
}

/// A reply that answers the question, the task being without a transaction.
pub open spec fn accepted(s: State, id: u64, server: Seq<u8>, m: MessageView, now: Instant) -> (State, Actions) {
    let task = s.tasks[id];
    let name = task.name();
    let scope = task.scope_id();
    let cache = if reply_ttl(m, name) > 0 {
        inserted(s.cache, key_of(name, task.rtype, scope), reply_entry(m, name, server, now))
    } else {
        s.cache
    };
    let s1 = State { demoted: s.demoted.remove(server), cache, ..s };
    if reply_outcome(m) == Outcome::NotFound && task.candidates.len() > 0 {
        next_candidate(s1, id, now)
    } else {
        settled(
            s1,
            id,
            AnswerView {
                outcome: reply_outcome(m),
                records: reply_records(m, name),
                source: Source::Dns,
                server: Some(server),
                interface: interface_of(s.scopes, scope),
                rcode: m.rcode(),
                resolved_name: Some(name),
            },
        )
    }
}

/// A message that answers a transaction.
pub open spec fn replied(s: State, tx: u64, m: MessageView, now: Instant) -> (State, Actions) {
    let t = s.txs[tx];
    let s1 = State { txs: s.txs.remove(tx), ..s };
    if !s1.tasks.contains_key(t.task) {
        (s1, Seq::empty())
    } else {
        let s2 = State {
            counters: Counters { upstream_answered: s.counters.upstream_answered.wrapping_add(1), ..s.counters },
            ..idle(s1, t.task)
        };
        if m.header.truncated && !t.tcp {
            sent(s2, t.task, t.server, true, now)
        } else if m.rcode() == rcode::NOERROR || m.rcode() == rcode::NXDOMAIN {
            accepted(s2, t.task, t.server, m, now)
        } else {
            let s3 = State {
                counters: Counters { upstream_failed: s.counters.upstream_failed.wrapping_add(1), ..s2.counters },
                ..demoted(s2, t.server, now)
            };
            attempted(s3, t.task, now)
        }
    }
}

/// Bytes that arrived for a transaction.
pub open spec fn received(s: State, tx: u64, bytes: Seq<u8>, now: Instant) -> (State, Actions) {
    if !s.txs.contains_key(tx) {
        (s, Seq::empty())
    } else {
        match decode(bytes) {
            Err(_) => (s, Seq::empty()),
            Ok(m) => if answers(s.txs[tx], m) {
                replied(s, tx, m, now)
            } else {
                (s, Seq::empty())
            },
        }
    }
}

/// The transport failed for a transaction.
pub open spec fn failed(s: State, tx: u64, now: Instant) -> (State, Actions) {
    if !s.txs.contains_key(tx) {
        (s, Seq::empty())
    } else {
        let t = s.txs[tx];
        let s1 = State {
            txs: s.txs.remove(tx),
            counters: Counters { upstream_failed: s.counters.upstream_failed.wrapping_add(1), ..s.counters },
            ..s
        };
        attempted(idle(demoted(s1, t.server, now), t.task), t.task, now)
    }
}

/// Those of the transactions that are past their deadlines.
pub open spec fn overdue(s: State, ids: Seq<u64>, now: Instant) -> Seq<u64>
    decreases ids.len(),
{
    if ids.len() == 0 {
        Seq::empty()
    } else if s.txs[ids.last()].deadline <= now {
        overdue(s, ids.drop_last(), now).push(ids.last())
    } else {
        overdue(s, ids.drop_last(), now)
    }
}

/// Transactions given up one after the other.
pub open spec fn all_failed(s: State, ids: Seq<u64>, now: Instant) -> (State, Actions)
    decreases ids.len(),
{
    if ids.len() == 0 {
        (s, Seq::empty())
    } else {
        let (s1, before) = all_failed(s, ids.drop_last(), now);
        let (s2, actions) = failed(s1, ids.last(), now);
        (s2, before + seq![ActionView::Cancel { tx: ids.last() }] + actions)
    }
}

/// Time passed. Expired transactions move to the next attempt.
pub open spec fn ticked(s: State, now: Instant) -> (State, Actions) {
    all_failed(s, overdue(s, numbers(s.txs), now), now)
}

/// Whether a moment is the first at which a transaction is overdue, there
/// being none where there is no transaction.
pub open spec fn is_next_deadline(txs: Map<u64, TxView>, next: Option<Instant>) -> bool {
    match next {
        Some(d) => {
            &&& exists|tx: u64| #[trigger] txs.contains_key(tx) && txs[tx].deadline == d
            &&& forall|tx: u64| #[trigger] txs.contains_key(tx) ==> d <= txs[tx].deadline
        },
        None => forall|tx: u64| !#[trigger] txs.contains_key(tx),
    }
}

/// The tasks of a question.
pub open spec fn tasks_of(s: State, ids: Seq<u64>, qid: u64) -> Seq<u64>
    decreases ids.len(),
{
    if ids.len() == 0 {
        Seq::empty()
    } else if s.tasks[ids.last()].owner.qid() == qid {
        tasks_of(s, ids.drop_last(), qid).push(ids.last())
    } else {
        tasks_of(s, ids.drop_last(), qid)
    }
}

/// Tasks dropped one after the other.
pub open spec fn all_dropped(s: State, ids: Seq<u64>) -> (State, Actions)
    decreases ids.len(),
{
    if ids.len() == 0 {
        (s, Seq::empty())
    } else {
        let (s1, before) = all_dropped(s, ids.drop_last());
        let id = ids.last();
        if !s1.tasks.contains_key(id) {
            (s1, before)
        } else {
            (
                dropped(s1, id),
                match s1.tasks[id].tx {
                    Some(tx) => before.push(ActionView::Cancel { tx }),
                    None => before,
                },
            )
        }
    }
}

/// A question whose asker went away.
pub open spec fn abandoned(s: State, qid: u64) -> (State, Actions) {
    let (s1, actions) = all_dropped(s, tasks_of(s, numbers(s.tasks), qid));
    (State { lookups: s1.lookups.remove(qid), ..s1 }, actions)
}

// Configuration.

/// Whether a scope is new or has other servers than before.
pub open spec fn changed(old_scopes: Seq<ScopeView>, new: ScopeView) -> bool {
    match named(old_scopes, new.id) {
        Some(i) => old_scopes[i].servers != new.servers,
        None => true,
    }
}

/// The cache without the entries of new scopes that changed.
pub open spec fn flush_changed(c: Entries, old_scopes: Seq<ScopeView>, new: Seq<ScopeView>) -> Entries
    decreases new.len(),
{
    if new.len() == 0 {
        c
    } else {
        let before = flush_changed(c, old_scopes, new.drop_last());
        if changed(old_scopes, new.last()) {
            flushed(before, new.last().id)
        } else {
            before
        }
    }
}

/// The cache without the entries of old scopes that are gone.
pub open spec fn flush_gone(c: Entries, old_scopes: Seq<ScopeView>, new: Seq<ScopeView>) -> Entries
    decreases old_scopes.len(),
{
    if old_scopes.len() == 0 {
        c
    } else {
        let before = flush_gone(c, old_scopes.drop_last(), new);
        if named(new, old_scopes.last().id) is None {
            flushed(before, old_scopes.last().id)
        } else {
            before
        }
    }
}

/// Other scopes. A scope whose servers changed loses its cache: a VPN's
/// answers die with the VPN.
pub open spec fn rescoped(s: State, new: Seq<ScopeView>) -> State {
    State {
        cache: flush_gone(flush_changed(s.cache, s.scopes, new), s.scopes, new),
        scopes: new,
        ..s
    }
}

/// Other fallback servers.
pub open spec fn with_fallback(s: State, servers: Seq<Seq<u8>>, domains: Seq<Labels>) -> State {
    State {
        cache: if servers != s.fallback_servers {
            flushed(s.cache, FALLBACK_SCOPE@)
        } else {
            s.cache
        },
        fallback_servers: servers,
        fallback_domains: domains,
        ..s
    }
}

/// The machine's name, where a text is one.
pub open spec fn hostname_of(text: Option<Seq<u8>>) -> Option<Labels> {
    match text {
        Some(b) => match name_of_text(b) {
            Ok(n) => if n.len() > 0 {
                Some(n)
            } else {
                None
            },
            Err(_) => None,
        },
        None => None,
    }
}

// Numbers are used up one at a time.

pub proof fn lemma_attempted_ids(s: State, id: u64, now: Instant)
    requires
        s.next_id < u64::MAX,
    ensures
        s.next_id <= attempted(s, id, now).0.next_id <= s.next_id + 1,
{
}

pub proof fn lemma_next_candidate_ids(s: State, id: u64, now: Instant)
    requires
        s.next_id < u64::MAX,
    ensures
        s.next_id <= next_candidate(s, id, now).0.next_id <= s.next_id + 1,
    decreases s.tasks[id].candidates.len(),
{
    if s.tasks.contains_key(id) && s.tasks[id].candidates.len() > 0 {
        let task = with_next_candidate(s.tasks[id]);
        let name = s.tasks[id].candidates[0];
        if let Some(scope) = route(s.scopes, s.fallback_servers, name) {
            let s1 = State { tasks: s.tasks.insert(id, TaskView { scope: Some(scope), ..task }), ..s };
            let s2 = State {
                counters: Counters { cache_hits: s.counters.cache_hits.wrapping_add(1), ..s.counters },
                ..s1
            };
            lemma_attempted_ids(s1, id, now);
            lemma_next_candidate_ids(s2, id, now);
        }
    }
}

pub proof fn lemma_advanced_ids(s: State, id: u64, now: Instant)
    requires
        s.next_id < u64::MAX,
    ensures
        s.next_id <= advanced(s, id, now).0.next_id <= s.next_id + 1,
{
    if s.tasks.contains_key(id) {
        let names = candidates(s.scopes, s.fallback_domains, s.tasks[id].original);
        lemma_next_candidate_ids(
            State { tasks: s.tasks.insert(id, TaskView { candidates: names, ..s.tasks[id] }), ..s },
            id,
            now,
        );
        lemma_next_candidate_ids(s, id, now);
    }
}

pub proof fn lemma_failed_ids(s: State, tx: u64, now: Instant)
    requires
        s.next_id < u64::MAX,
    ensures
        s.next_id <= failed(s, tx, now).0.next_id <= s.next_id + 1,
{
}

} // verus!

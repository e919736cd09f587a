//! The resolution engine: every door runs this and nothing else.
//!
//! A pure state machine. It owns the scopes, the cache, the synthetic names
//! and the in-flight table; it takes questions, replies and ticks, and returns
//! [`Action`]s: bytes to send to a server, transactions to abandon, questions
//! answered. It never touches a socket or a clock.
//!
//! # What the outcomes mean
//!
//! `Found` is an answer, including "the name exists but has no records of
//! that type". `NotFound` is authoritative absence and is cached briefly.
//! `Unavailable` is "nothing that could answer did": never cached, and
//! never rendered as absence by any door.

pub mod answer;
pub mod caching;
pub mod demotion;
pub mod honesty;
pub mod laws;
pub mod local_laws;
pub mod lookup_laws;
pub mod model;
pub mod route_laws;
pub mod scope;
pub mod search_laws;
pub mod script;
pub mod soundness;
pub mod store;
pub mod step_laws;
pub mod task_laws;

use crate::addr::IpAddr;
use crate::cache::{CacheKey, Entry};
use crate::dns::message::{encode, message_bytes, query, QuestionView};
use crate::dns::name::{lemma_name_bytes_len, name_text, valid_name};
use crate::dns::record::{copy_records, records_view, RecordView};
use crate::dns::{rcode, rtype, Message, Name, Question};
use crate::octets;
use crate::protocol::{views, Outcome};
use crate::table::{lemma_numbers, lemma_numbers_len, numbers, Table};
use crate::text::opt_text;
use crate::time::{Instant, LATEST, SECOND};
use answer::{
    bare, combine, contains_address, hosts_view, least_seconds, negative_seconds, opt_view, recase_records,
    results_view, synthetic, synthetic_answer,
};
use demotion::{is_demoted, Demotions};
use honesty::{
    all_honest, lemma_failed_honest, lemma_looked_up_honest, lemma_received_honest, lemma_reply_entry_honest,
    lemma_resolved_honest, lemma_ticked_honest,
};
use model::{
    abandoned, accepted, advanced, all_advanced, all_dropped, all_failed, attempted, bits_from, cache_answer,
    changed, counted, demoted, dropped, failed, flush_changed, flush_gone, fresh_task, hostname_of, idle, initial,
    is_next_deadline, lemma_advanced_ids, lemma_bits, lemma_failed_ids, looked_up, lookup_started, next_candidate,
    output, overdue, picked, received, replied, rescoped, resolved, reversed, run_of, scrambled, sent, settled,
    started, tasks_of, ticked, transmission, types_of, untried_from, with_fallback, with_next_candidate, without,
    ActionView, CompletionView, LookupView, State, TaskView, TxView,
};
use scope::{candidate_names, interface_name, named_scope, route_name, scope_servers};
use store::Store;
use vstd::prelude::*;
use vstd::utf8::*;

pub use answer::{Addresses, Answer, Source, MAX_NEGATIVE_TTL, MAX_POSITIVE_TTL};
pub use model::{Counters, Family, Owner, DEMOTION, MAX_ATTEMPTS, MAX_IN_FLIGHT, SERVER_TIMEOUT};
pub use scope::{Level, Scope, FALLBACK_SCOPE};

verus! {

pub type Qid = u64;

pub type Txid = u64;

#[derive(Debug, Clone, PartialEq, Eq)]
pub enum Completion {
    Answer(Answer),
    Addresses(Addresses),
}

impl View for Completion {
    type V = CompletionView;

    open spec fn view(&self) -> CompletionView {
        match self {
            Completion::Answer(a) => CompletionView::Answer(a@),
            Completion::Addresses(a) => CompletionView::Addresses(a@),
        }
    }
}

#[derive(Debug, Clone, PartialEq, Eq)]
pub enum Action {
    Send { tx: Txid, server: IpAddr, tcp: bool, payload: Vec<u8> },
    Cancel { tx: Txid },
    Done { qid: Qid, completion: Completion },
}

impl View for Action {
    type V = ActionView;

    open spec fn view(&self) -> ActionView {
        match self {
            Action::Send { tx, server, tcp, payload } => ActionView::Send {
                tx: *tx,
                server: server@,
                tcp: *tcp,
                payload: payload@,
            },
            Action::Cancel { tx } => ActionView::Cancel { tx: *tx },
            Action::Done { qid, completion } => ActionView::Done { qid: *qid, completion: completion@ },
        }
    }
}

fn no_actions() -> (r: Vec<Action>)
    ensures
        views(r@) == Seq::<ActionView>::empty(),
{
    let r: Vec<Action> = Vec::new();
    assert(views(r@) =~= Seq::<ActionView>::empty());
    r
}

fn one_action(a: Action) -> (r: Vec<Action>)
    ensures
        views(r@) == seq![a@],
{
    let mut r: Vec<Action> = Vec::new();
    r.push(a);
    assert(views(r@) =~= seq![a@]);
    r
}

fn add_actions(out: &mut Vec<Action>, mut more: Vec<Action>)
    ensures
        views(final(out)@) == views(old(out)@) + views(more@),
{
    let ghost before = views(out@);
    let ghost new = views(more@);
    out.append(&mut more);
    assert(views(out@) =~= before + new);
}

#[derive(Debug)]
struct Task {
    owner: Owner,
    original: Name,
    rtype: u16,
    no_cache: bool,
    candidates: Vec<Name>,
    current: Option<Name>,
    scope: Option<String>,
    attempt: u32,
    tried: Vec<IpAddr>,
    tx: Option<Txid>,
}

impl View for Task {
    type V = TaskView;

    closed spec fn view(&self) -> TaskView {
        TaskView {
            owner: self.owner,
            original: self.original@,
            rtype: self.rtype,
            no_cache: self.no_cache,
            candidates: views(self.candidates@),
            current: opt_view(self.current),
            scope: opt_text(self.scope),
            attempt: self.attempt,
            tried: views(self.tried@),
            tx: self.tx,
        }
    }
}

impl Task {
    /// The name that is asked for.
    fn name(&self) -> (r: Name)
        ensures
            r@ == self@.name(),
    {
        match &self.current {
            Some(n) => n.clone(),
            None => self.original.clone(),
        }
    }

    fn scope_id(&self) -> (r: String)
        ensures
            r@ == self@.scope_id(),
    {
        match &self.scope {
            Some(s) => s.clone(),
            None => {
                let none = String::new();
                assert(none@ =~= Seq::empty());
                none
            },
        }
    }
}

#[derive(Debug)]
struct Tx {
    task: u64,
    dns_id: u16,
    question: Question,
    server: IpAddr,
    tcp: bool,
    deadline: Instant,
}

impl View for Tx {
    type V = TxView;

    closed spec fn view(&self) -> TxView {
        TxView {
            task: self.task,
            dns_id: self.dns_id,
            question: self.question@,
            server: self.server@,
            tcp: self.tcp,
            deadline: self.deadline,
        }
    }
}

#[derive(Debug)]
struct Lookup {
    name: Name,
    pending: Vec<u64>,
    results: Vec<(u16, Answer)>,
}

impl View for Lookup {
    type V = LookupView;

    closed spec fn view(&self) -> LookupView {
        LookupView { name: self.name@, pending: self.pending@, results: results_view(self.results@) }
    }
}

/// The engine.
pub struct Engine {
    scopes: Vec<Scope>,
    fallback_servers: Vec<IpAddr>,
    fallback_domains: Vec<Name>,
    hostname: Option<Name>,
    hosts: Vec<(Name, Vec<IpAddr>)>,
    cache: Store,
    demoted: Demotions,
    tasks: Table<Task>,
    txs: Table<Tx>,
    lookups: Table<Lookup>,
    next_id: u64,
    rng: u64,
    pub counters: Counters,
}

impl View for Engine {
    type V = State;

    closed spec fn view(&self) -> State {
        State {
            scopes: views(self.scopes@),
            fallback_servers: views(self.fallback_servers@),
            fallback_domains: views(self.fallback_domains@),
            hostname: opt_view(self.hostname),
            hosts: hosts_view(self.hosts@),
            cache: self.cache@,
            demoted: self.demoted@,
            tasks: self.tasks@,
            txs: self.txs@,
            lookups: self.lookups@,
            next_id: self.next_id,
            rng: self.rng,
            counters: self.counters,
        }
    }
}

pub(crate) fn same_addresses(a: &Vec<IpAddr>, b: &Vec<IpAddr>) -> (r: bool)
    ensures
        r == (views(a@) == views(b@)),
{
    if a.len() != b.len() {
        assert(views(a@).len() != views(b@).len());
        return false;
    }
    let mut i: usize = 0;
    while i < a.len()
        invariant
            i <= a@.len() == b@.len(),
            forall|j: int| 0 <= j < i ==> #[trigger] views(a@)[j] == views(b@)[j],
        decreases a@.len() - i,
    {
        if !a[i].same(&b[i]) {
            assert(views(a@)[i as int] != views(b@)[i as int]);
            return false;
        }
        i += 1;
    }
    assert(views(a@) =~= views(b@));
    true
}

/// A query for one question always fits in a message.
pub(crate) proof fn lemma_query_encodes(id: u16, q: QuestionView)
    requires
        valid_name(q.name),
    ensures
        encode(query(id, q)) == Ok::<Seq<u8>, crate::dns::Error>(message_bytes(query(id, q))),
{
    let m = query(id, q);
    lemma_name_bytes_len(q.name);
    lemma_name_bytes_len(Seq::<Seq<u8>>::empty());
    assert(m.questions.skip(1) =~= Seq::empty());
    assert(m.additional.skip(1) =~= Seq::empty());
    reveal_with_fuel(crate::dns::message::questions_bytes, 2);
    reveal_with_fuel(crate::dns::message::records_bytes, 2);
    octets::lemma_be_round_trip(q.rtype as nat, 2);
    octets::lemma_be_round_trip(q.class as nat, 2);
    let o = m.additional[0];
    octets::lemma_be_round_trip(o.rtype as nat, 2);
    octets::lemma_be_round_trip(o.class as nat, 2);
    octets::lemma_be_round_trip(o.ttl as nat, 4);
    octets::lemma_be_round_trip(0, 2);
    octets::lemma_be_round_trip(id as nat, 2);
    octets::lemma_be_round_trip(crate::dns::header::flags(m.header) as nat, 2);
    octets::lemma_be_round_trip(m.questions.len(), 2);
    octets::lemma_be_round_trip(m.answers.len(), 2);
    octets::lemma_be_round_trip(m.authority.len(), 2);
    octets::lemma_be_round_trip(m.additional.len(), 2);
}

impl Engine {
    pub fn new(seed: u64) -> (r: Engine)
        ensures
            r@ == initial(seed),
    {
        let r = Engine {
            scopes: Vec::new(),
            fallback_servers: Vec::new(),
            fallback_domains: Vec::new(),
            hostname: None,
            hosts: Vec::new(),
            cache: Store::new(),
            demoted: Demotions::new(),
            tasks: Table::new(),
            txs: Table::new(),
            lookups: Table::new(),
            next_id: 1,
            rng: seed | 1,
            counters: Counters::default(),
        };
        assert(r@ =~= initial(seed));
        r
    }

    // Internals.

    fn fresh_id(&mut self) -> (id: u64)
        requires
            old(self)@.next_id < u64::MAX,
        ensures
            id == old(self)@.next_id,
            final(self)@ == (State { next_id: (old(self)@.next_id + 1) as u64, ..old(self)@ }),
    {
        let id: u64 = self.next_id;
        self.next_id = id + 1;
        id
    }

    fn random(&mut self) -> (r: u64)
        ensures
            r == output(scrambled(old(self)@.rng)),
            final(self)@ == (State { rng: scrambled(old(self)@.rng), ..old(self)@ }),
    {
        let x: u64 = self.rng;
        let a: u64 = x ^ (x >> 12u64);
        let b: u64 = a ^ (a << 25u64);
        let c: u64 = b ^ (b >> 27u64);
        self.rng = c;
        c.wrapping_mul(0x2545_F491_4F6C_DD1Du64)
    }

    /// `n` random bits.
    fn random_bits(&mut self, n: usize) -> (r: Vec<bool>)
        ensures
            ({
                let r2 = scrambled(old(self)@.rng);
                let (choices, r3) = bits_from(r2, output(r2), 0, n as nat);
                r@ == choices && final(self)@ == (State { rng: r3, ..old(self)@ })
            }),
            r@.len() == n,
    {
        let mut word: u64 = self.random();
        let mut used: u32 = 0;
        let mut out: Vec<bool> = Vec::new();
        let ghost r2 = scrambled(old(self)@.rng);
        let ghost whole = bits_from(r2, output(r2), 0, n as nat);
        assert(Seq::<bool>::empty() + whole.0 =~= whole.0);
        while out.len() < n
            invariant
                out@.len() <= n,
                used <= 64,
                r2 == scrambled(old(self)@.rng),
                whole == bits_from(r2, output(r2), 0, n as nat),
                self@ == (State { rng: self@.rng, ..old(self)@ }),
                ({
                    let (more, end) = bits_from(self@.rng, word, used as nat, (n - out@.len()) as nat);
                    whole == (out@ + more, end)
                }),
            decreases n - out@.len(),
        {
            let ghost before = out@;
            let ghost left = (n - out@.len()) as nat;
            proof {
                lemma_bits(self@.rng, word, used as nat, left);
            }
            if used == 64 {
                word = self.random();
                used = 0;
            }
            proof {
                lemma_bits(self@.rng, word, used as nat, left);
            }
            let bit: bool = word % 2 == 1;
            out.push(bit);
            word = word / 2;
            used += 1;
            proof {
                let (more, end) = bits_from(self@.rng, word, used as nat, (left - 1) as nat);
                assert(before + (seq![bit] + more) =~= out@ + more);
            }
        }
        proof {
            lemma_bits(self@.rng, word, used as nat, 0);
            assert(out@ + Seq::empty() =~= out@);
        }
        out
    }

    fn start_task(&mut self, owner: Owner, name: Name, rtype: u16, no_cache: bool) -> (id: u64)
        requires
            old(self)@.next_id < u64::MAX,
        ensures
            id == old(self)@.next_id,
            final(self)@ == started(old(self)@, owner, name@, rtype, no_cache),
    {
        let id: u64 = self.fresh_id();
        let task = Task {
            owner,
            original: name,
            rtype,
            no_cache,
            candidates: Vec::new(),
            current: None,
            scope: None,
            attempt: 0,
            tried: Vec::new(),
            tx: None,
        };
        assert(task@ =~= fresh_task(owner, name@, rtype, no_cache));
        self.tasks.insert(id, task);
        id
    }

    fn send(&mut self, id: u64, server: IpAddr, tcp: bool, now: Instant) -> (r: Vec<Action>)
        requires
            old(self)@.next_id < u64::MAX,
            now <= LATEST,
        ensures
            (final(self)@, views(r@)) == sent(old(self)@, id, server@, tcp, now),
    {
        let mut task = match self.tasks.remove(id) {
            Some(task) => task,
            None => {
                assert(old(self)@.tasks.remove(id) =~= old(self)@.tasks);
                return no_actions();
            },
        };
        let ghost view = task@;
        let ghost t = transmission(old(self)@.rng, view.name(), view.rtype);
        let candidate = task.name();
        let dns_id: u16 = (self.random() % 0x1_0000) as u16;
        let choices = self.random_bits(candidate.letter_count());
        let name = candidate.with_case(choices.as_slice());
        name.checked();
        let question = Question::new(name, task.rtype);
        assert(question@ == t.question);
        let message = Message::query(dns_id, question.clone());
        proof {
            lemma_query_encodes(dns_id, question@);
        }
        let payload = match message.encode() {
            Ok(payload) => payload,
            Err(_) => Vec::new(),
        };
        let tx: u64 = self.fresh_id();
        self.txs.insert(
            tx,
            Tx { task: id, dns_id, question, server, tcp, deadline: now + SERVER_TIMEOUT },
        );
        task.tx = Some(tx);
        self.tasks.insert(id, task);
        self.counters.upstream_sent = self.counters.upstream_sent.wrapping_add(1);
        assert(old(self)@.tasks.remove(id).insert(id, task@) =~= old(self)@.tasks.insert(id, task@));
        one_action(Action::Send { tx, server, tcp, payload })
    }

    /// The task is over: hand the answer to its owner.
    fn settle(&mut self, id: u64, answer: Answer) -> (r: Vec<Action>)
        ensures
            (final(self)@, views(r@)) == settled(old(self)@, id, answer@),
    {
        let task = match self.tasks.remove(id) {
            Some(task) => task,
            None => {
                assert(old(self)@.tasks.remove(id) =~= old(self)@.tasks);
                return no_actions();
            },
        };
        if let Some(tx) = task.tx {
            self.txs.remove(tx);
        }
        match task.owner {
            Owner::Resolve(qid) => one_action(Action::Done { qid, completion: Completion::Answer(answer) }),
            Owner::Lookup(qid) => {
                let mut lookup = match self.lookups.remove(qid) {
                    Some(lookup) => lookup,
                    None => {
                        assert(old(self)@.lookups.remove(qid) =~= old(self)@.lookups);
                        return no_actions();
                    },
                };
                let ghost before = lookup@;
                lookup.pending = numbers_without(&lookup.pending, id);
                let ghost results = results_view(lookup.results@);
                lookup.results.push((task.rtype, answer));
                assert(results_view(lookup.results@) =~= results.push((task@.rtype, answer@)));
                if lookup.pending.len() > 0 {
                    self.lookups.insert(qid, lookup);
                    assert(old(self)@.lookups.remove(qid).insert(qid, lookup@) =~= old(self)@.lookups.insert(
                        qid,
                        lookup@,
                    ));
                    return no_actions();
                }
                let addresses = combine(&lookup.name, &lookup.results);
                one_action(Action::Done { qid, completion: Completion::Addresses(addresses) })
            },
        }
    }
}

fn numbers_without(v: &Vec<u64>, id: u64) -> (r: Vec<u64>)
    ensures
        r@ == without(v@, id),
{
    let mut out: Vec<u64> = Vec::new();
    let mut i: usize = 0;
    assert(out@ =~= without(v@.take(0), id));
    while i < v.len()
        invariant
            i <= v@.len(),
            out@ == without(v@.take(i as int), id),
        decreases v@.len() - i,
    {
        assert(v@.take(i + 1).drop_last() =~= v@.take(i as int));
        if v[i] != id {
            out.push(v[i]);
        }
        i += 1;
    }
    assert(v@.take(i as int) =~= v@);
    out
}

fn first_untried(servers: &Vec<IpAddr>, tried: &Vec<IpAddr>) -> (r: Option<IpAddr>)
    ensures
        opt_view(r) == untried_from(views(servers@), views(tried@), 0),
{
    let ghost s = views(servers@);
    let mut i: usize = 0;
    while i < servers.len()
        invariant
            i <= servers@.len(),
            s == views(servers@),
            untried_from(s, views(tried@), 0) == untried_from(s, views(tried@), i as int),
        decreases servers@.len() - i,
    {
        assert(s[i as int] == servers@[i as int]@);
        if !contains_address(tried, &servers[i]) {
            return Some(servers[i]);
        }
        i += 1;
    }
    None
}

impl Engine {
    /// Send the current candidate to the next server, or give up.
    fn next_attempt(&mut self, id: u64, now: Instant) -> (r: Vec<Action>)
        requires
            old(self)@.next_id < u64::MAX,
            now <= LATEST,
        ensures
            (final(self)@, views(r@)) == attempted(old(self)@, id, now),
    {
        let task = match self.tasks.get(id) {
            Some(task) => task,
            None => return no_actions(),
        };
        let attempt: u32 = task.attempt;
        let scope = task.scope_id();
        if attempt >= MAX_ATTEMPTS {
            let mut answer = Answer::bare(Outcome::Unavailable);
            answer.interface = interface_name(&self.scopes, scope.as_str());
            return self.settle(id, answer);
        }
        let all = scope_servers(&self.scopes, &self.fallback_servers, scope.as_str());
        let servers = self.demoted.healthy_first(&all, now);
        if servers.len() == 0 {
            return self.settle(id, Answer::bare(Outcome::Unavailable));
        }
        if attempt == 0 && self.txs.len() >= MAX_IN_FLIGHT {
            self.counters.refused = self.counters.refused.wrapping_add(1);
            return self.settle(id, Answer::bare(Outcome::Unavailable));
        }
        let server = match first_untried(&servers, &task.tried) {
            Some(server) => server,
            None => {
                let at: usize = attempt as usize % servers.len();
                assert(views(servers@)[at as int] == servers@[at as int]@);
                servers[at]
            },
        };
        let ghost view = old(self)@.tasks[id];
        assert(server@ == picked(views(servers@), view.tried, view.attempt));
        if let Some(mut task) = self.tasks.remove(id) {
            task.attempt = attempt + 1;
            let ghost tried = views(task.tried@);
            task.tried.push(server);
            assert(views(task.tried@) =~= tried.push(server@));
            self.tasks.insert(id, task);
            assert(old(self)@.tasks.remove(id).insert(id, task@) =~= old(self)@.tasks.insert(id, task@));
        }
        self.send(id, server, false, now)
    }

    fn next_candidate(&mut self, id: u64, now: Instant) -> (r: Vec<Action>)
        requires
            old(self)@.next_id < u64::MAX,
            now <= LATEST,
        ensures
            (final(self)@, views(r@)) == next_candidate(old(self)@, id, now),
        decreases old(self)@.tasks[id].candidates.len(),
    {
        let mut task = match self.tasks.remove(id) {
            Some(task) => task,
            None => {
                assert(old(self)@.tasks.remove(id) =~= old(self)@.tasks);
                return no_actions();
            },
        };
        let ghost view = task@;
        if task.candidates.len() == 0 {
            self.tasks.insert(id, task);
            assert(old(self)@.tasks.remove(id).insert(id, view) =~= old(self)@.tasks);
            return self.settle(id, Answer::bare(Outcome::NotFound));
        }
        let candidate = task.candidates.remove(0);
        let more: bool = task.candidates.len() > 0;
        let rtype: u16 = task.rtype;
        let no_cache: bool = task.no_cache;
        task.current = Some(candidate.clone());
        task.attempt = 0;
        task.tried = Vec::new();
        proof {
            assert(views(task.candidates@) =~= view.candidates.skip(1));
            assert(views(task.tried@) =~= Seq::empty());
            assert(task@ == with_next_candidate(view));
        }
        let scope = match route_name(&self.scopes, &self.fallback_servers, &candidate) {
            Some(scope) => scope,
            None => {
                self.tasks.insert(id, task);
                assert(old(self)@.tasks.remove(id).insert(id, task@) =~= old(self)@.tasks.insert(id, task@));
                return self.settle(id, Answer::bare(Outcome::Unavailable));
            },
        };
        task.scope = Some(scope.clone());
        self.tasks.insert(id, task);
        assert(old(self)@.tasks.remove(id).insert(id, task@) =~= old(self)@.tasks.insert(id, task@));
        if !no_cache {
            let key = CacheKey::new(&candidate, rtype, scope.as_str());
            if let Some(entry) = self.cache.get(&key, now) {
                self.counters.cache_hits = self.counters.cache_hits.wrapping_add(1);
                let absent: bool = match entry.outcome {
                    Outcome::NotFound => true,
                    _ => false,
                };
                if absent && more {
                    return self.next_candidate(id, now);
                }
                let ghost e = entry@;
                let answer = Answer {
                    outcome: entry.outcome,
                    records: entry.records,
                    source: Source::Cache,
                    server: Some(entry.server),
                    interface: interface_name(&self.scopes, scope.as_str()),
                    rcode: entry.rcode,
                    resolved_name: Some(candidate),
                };
                assert(answer@ == cache_answer(old(self)@, e, scope@, candidate@));
                return self.settle(id, answer);
            }
        }
        self.next_attempt(id, now)
    }

    /// Decide what a fresh task does: answer locally, or build its candidate
    /// list.
    fn advance(&mut self, id: u64, now: Instant) -> (r: Vec<Action>)
        requires
            old(self)@.next_id < u64::MAX,
            now <= LATEST,
        ensures
            (final(self)@, views(r@)) == advanced(old(self)@, id, now),
    {
        let task = match self.tasks.get(id) {
            Some(task) => task,
            None => return no_actions(),
        };
        if task.current.is_none() && task.candidates.len() == 0 && task.attempt == 0 {
            let name = task.original.clone();
            let rtype: u16 = task.rtype;
            if let Some(answer) = synthetic_answer(&self.scopes, &self.hostname, &self.hosts, &name, rtype) {
                self.counters.synthetic = self.counters.synthetic.wrapping_add(1);
                return self.settle(id, answer);
            }
            let names = candidate_names(&self.scopes, &self.fallback_domains, &name);
            if names.len() == 0 {
                return self.settle(id, Answer::bare(Outcome::NotFound));
            }
            if let Some(mut task) = self.tasks.remove(id) {
                task.candidates = names;
                self.tasks.insert(id, task);
                assert(old(self)@.tasks.remove(id).insert(id, task@) =~= old(self)@.tasks.insert(id, task@));
            }
        }
        self.next_candidate(id, now)
    }

    // Configuration.

    /// Replace the scopes. A scope whose servers changed loses its cache:
    /// a VPN's answers die with the VPN.
    pub fn set_scopes(&mut self, scopes: Vec<Scope>)
        ensures
            final(self)@ == rescoped(old(self)@, views(scopes@)),
    {
        let ghost was = views(self.scopes@);
        let ghost new = views(scopes@);
        let ghost cache = self.cache@;
        let ghost base = self@;
        let mut i: usize = 0;
        assert(new.take(0) =~= Seq::empty());
        while i < scopes.len()
            invariant
                i <= scopes@.len(),
                new == views(scopes@),
                was == views(self.scopes@),
                self.cache@ == flush_changed(cache, was, new.take(i as int)),
                self@ == (State { cache: self.cache@, ..base }),
            decreases scopes@.len() - i,
        {
            assert(new.take(i + 1).drop_last() =~= new.take(i as int));
            assert(new[i as int] == scopes@[i as int]@);
            let changed: bool = match named_scope(&self.scopes, scopes[i].id.as_str()) {
                Some(k) => {
                    assert(was[k as int] == self.scopes@[k as int]@);
                    !same_addresses(&self.scopes[k].servers, &scopes[i].servers)
                },
                None => true,
            };
            if changed {
                self.cache.flush_scope(scopes[i].id.as_str());
            }
            i += 1;
        }
        assert(new.take(i as int) =~= new);
        let ghost middle = self.cache@;
        let mut k: usize = 0;
        assert(was.take(0) =~= Seq::empty());
        while k < self.scopes.len()
            invariant
                k <= self.scopes@.len(),
                new == views(scopes@),
                was == views(self.scopes@),
                self.cache@ == flush_gone(middle, was.take(k as int), new),
                self@ == (State { cache: self.cache@, ..base }),
            decreases self.scopes@.len() - k,
        {
            assert(was.take(k + 1).drop_last() =~= was.take(k as int));
            assert(was[k as int] == self.scopes@[k as int]@);
            if named_scope(&scopes, self.scopes[k].id.as_str()).is_none() {
                self.cache.flush_scope(self.scopes[k].id.as_str());
            }
            k += 1;
        }
        assert(was.take(k as int) =~= was);
        self.scopes = scopes;
    }

    pub fn scopes(&self) -> (r: &[Scope])
        ensures
            views(r@) == self@.scopes,
    {
        self.scopes.as_slice()
    }

    pub fn set_fallback(&mut self, servers: Vec<IpAddr>, domains: Vec<Name>)
        ensures
            final(self)@ == with_fallback(old(self)@, views(servers@), views(domains@)),
    {
        if !same_addresses(&servers, &self.fallback_servers) {
            self.cache.flush_scope(FALLBACK_SCOPE);
        }
        self.fallback_servers = servers;
        self.fallback_domains = domains;
    }

    pub fn fallback_servers(&self) -> (r: &[IpAddr])
        ensures
            views(r@) == self@.fallback_servers,
    {
        self.fallback_servers.as_slice()
    }

    pub fn set_hostname(&mut self, hostname: Option<&str>)
        ensures
            final(self)@ == (State {
                hostname: hostname_of(
                    match hostname {
                        Some(h) => Some(encode_utf8(h@)),
                        None => None,
                    },
                ),
                ..old(self)@
            }),
    {
        self.hostname = match hostname {
            Some(h) => match Name::parse(h) {
                Ok(n) => if n.is_root() {
                    None
                } else {
                    Some(n)
                },
                Err(_) => None,
            },
            None => None,
        };
    }

    pub fn hostname(&self) -> (r: Option<&Name>)
        ensures
            self@.hostname == (match r {
                Some(n) => Some(n@),
                None => None,
            }),
    {
        match &self.hostname {
            Some(n) => Some(n),
            None => None,
        }
    }

    /// Replace the static hosts: names and their addresses, the first entry
    /// of a name being the one that counts.
    pub fn set_hosts(&mut self, hosts: Vec<(Name, Vec<IpAddr>)>)
        ensures
            final(self)@ == (State { hosts: hosts_view(hosts@), ..old(self)@ }),
    {
        self.hosts = hosts;
    }

    pub fn flush(&mut self)
        ensures
            final(self)@ == (State { cache: Seq::empty(), ..old(self)@ }),
    {
        self.cache.clear();
    }

    pub fn cache_entries(&self) -> (n: usize)
        ensures
            n == self@.cache.len(),
    {
        self.cache.len()
    }

    /// The servers that are tried last, each once, in no stated order.
    pub fn demoted(&self, now: Instant) -> (r: Vec<IpAddr>)
        ensures
            views(r@).no_duplicates(),
            forall|a: Seq<u8>| views(r@).contains(a) <==> is_demoted(self@.demoted, a, now),
    {
        self.demoted.active(now)
    }

    /// The next moment `tick` has something to do.
    pub fn next_deadline(&self) -> (r: Option<Instant>)
        ensures
            is_next_deadline(self@.txs, r),
    {
        let all = self.txs.numbers();
        proof {
            lemma_numbers(self@.txs);
        }
        let mut best: Option<Instant> = None;
        let mut i: usize = 0;
        while i < all.len()
            invariant
                i <= all@.len(),
                forall|j: int| 0 <= j < all@.len() ==> self@.txs.contains_key(#[trigger] all@[j]),
                match best {
                    Some(d) => {
                        &&& exists|j: int| 0 <= j < i && self@.txs[#[trigger] all@[j]].deadline == d
                        &&& forall|j: int| 0 <= j < i ==> d <= self@.txs[#[trigger] all@[j]].deadline
                    },
                    None => i == 0,
                },
            decreases all@.len() - i,
        {
            assert(self@.txs.contains_key(all@[i as int]));
            if let Some(t) = self.txs.get(all[i]) {
                assert(self@.txs[all@[i as int]].deadline == t.deadline);
                best = match best {
                    Some(d) => if t.deadline < d {
                        Some(t.deadline)
                    } else {
                        Some(d)
                    },
                    None => Some(t.deadline),
                };
            }
            i += 1;
        }
        proof {
            assert forall|tx: u64| #[trigger] self@.txs.contains_key(tx) implies (best matches Some(d) && d
                <= self@.txs[tx].deadline) by {
                let j = choose|j: int| 0 <= j < all@.len() && all@[j] == tx;
                assert(self@.txs.contains_key(all@[j]));
            }
        }
        best
    }

    pub fn in_flight(&self) -> (n: usize)
        ensures
            n == self@.txs.len(),
    {
        self.txs.len()
    }

    /// Whether there are numbers left for whatever is asked or told next.
    pub fn has_numbers(&self) -> (r: bool)
        ensures
            r == (self@.next_id < u64::MAX - 4 && self@.next_id + self@.txs.len() < u64::MAX),
    {
        let open: usize = self.txs.len();
        self.next_id < u64::MAX - 4 && (open as u64) < u64::MAX - self.next_id
    }

    pub fn counters(&self) -> (r: Counters)
        ensures
            r == self@.counters,
    {
        self.counters
    }

    // Questions.

    /// Records of a type at a name.
    pub fn resolve(&mut self, qid: Qid, name: &str, rtype: u16, no_cache: bool, now: Instant) -> (r: Vec<Action>)
        requires
            old(self)@.next_id < u64::MAX - 1,
            now <= LATEST,
        ensures
            (final(self)@, views(r@)) == resolved(
                old(self)@,
                qid,
                encode_utf8(name@),
                rtype,
                no_cache,
                now,
            ),
            all_honest(views(r@)),
    {
        self.cache.checked();
        proof {
            lemma_resolved_honest(self@, qid, encode_utf8(name@), rtype, no_cache, now);
        }
        self.counters.queries = self.counters.queries.wrapping_add(1);
        assert(self@ == counted(old(self)@));
        match Name::parse(name) {
            Err(_) => one_action(
                Action::Done { qid, completion: Completion::Answer(Answer::bare(Outcome::NotFound)) },
            ),
            Ok(name) => {
                let id: u64 = self.start_task(Owner::Resolve(qid), name, rtype, no_cache);
                self.advance(id, now)
            },
        }
    }

    pub fn resolve_question(&mut self, qid: Qid, question: &Question, now: Instant) -> (r: Vec<Action>)
        requires
            old(self)@.next_id < u64::MAX - 1,
            now <= LATEST,
        ensures
            (final(self)@, views(r@)) == resolved(
                old(self)@,
                qid,
                name_text(question@.name),
                question@.rtype,
                false,
                now,
            ),
            all_honest(views(r@)),
    {
        self.resolve(qid, question.name.to_text().as_str(), question.rtype, false, now)
    }

    /// The addresses of a name.
    pub fn lookup(&mut self, qid: Qid, name: &str, family: Family, now: Instant) -> (r: Vec<Action>)
        requires
            old(self)@.next_id < u64::MAX - 4,
            now <= LATEST,
        ensures
            (final(self)@, views(r@)) == looked_up(old(self)@, qid, encode_utf8(name@), family, now),
            all_honest(views(r@)),
    {
        self.cache.checked();
        proof {
            lemma_looked_up_honest(self@, qid, encode_utf8(name@), family, now);
        }
        self.counters.queries = self.counters.queries.wrapping_add(1);
        assert(self@ == counted(old(self)@));
        let name = match Name::parse(name) {
            Err(_) => {
                return one_action(
                    Action::Done {
                        qid,
                        completion: Completion::Addresses(Addresses::none(Outcome::NotFound, Name::root())),
                    },
                );
            },
            Ok(name) => name,
        };
        let mut types: Vec<u16> = Vec::new();
        match family {
            Family::Any => {
                types.push(rtype::A);
                types.push(rtype::AAAA);
            },
            Family::V4 => types.push(rtype::A),
            Family::V6 => types.push(rtype::AAAA),
        }
        assert(types@ =~= types_of(family));
        let mut pending: Vec<u64> = Vec::new();
        let mut i: usize = 0;
        let ghost base = self@;
        let ghost first = self@.next_id;
        assert(types@.take(0) =~= Seq::empty());
        while i < types.len()
            invariant
                i <= types@.len() <= 2,
                first == base.next_id,
                first < u64::MAX - 4,
                self@ == lookup_started(base, qid, name@, types@.take(i as int)),
                self@.next_id == first + i,
                pending@ =~= run_of(first, i as nat),
            decreases types@.len() - i,
        {
            assert(types@.take(i + 1).drop_last() =~= types@.take(i as int));
            let id: u64 = self.start_task(Owner::Lookup(qid), name.clone(), types[i], false);
            pending.push(id);
            i += 1;
        }
        assert(types@.take(i as int) =~= types@);
        let ids = copy_numbers(&pending);
        let lookup = Lookup { name, pending, results: Vec::new() };
        assert(lookup@.results =~= Seq::empty());
        self.lookups.insert(qid, lookup);
        let ghost middle = self@;
        let mut actions = no_actions();
        let mut k: usize = 0;
        assert(ids@.take(0) =~= Seq::empty());
        while k < ids.len()
            invariant
                k <= ids@.len() <= 2,
                now <= LATEST,
                middle.next_id < u64::MAX - 2,
                self@.next_id <= middle.next_id + k,
                (self@, views(actions@)) == all_advanced(middle, ids@.take(k as int), now),
            decreases ids@.len() - k,
        {
            assert(ids@.take(k + 1).drop_last() =~= ids@.take(k as int));
            proof {
                lemma_advanced_ids(self@, ids@[k as int], now);
            }
            let more = self.advance(ids[k], now);
            add_actions(&mut actions, more);
            k += 1;
        }
        assert(ids@.take(k as int) =~= ids@);
        actions
    }

    /// The names of an address.
    pub fn reverse(&mut self, qid: Qid, address: IpAddr, now: Instant) -> (r: Vec<Action>)
        requires
            old(self)@.next_id < u64::MAX - 1,
            now <= LATEST,
        ensures
            (final(self)@, views(r@)) == reversed(old(self)@, qid, address@, now),
            all_honest(views(r@)),
    {
        proof {
            address.lemma_len();
        }
        let name = match address {
            IpAddr::V4(a) => Name::reverse_v4(a),
            IpAddr::V6(a) => Name::reverse_v6(a),
        };
        self.resolve(qid, name.to_text().as_str(), rtype::PTR, false, now)
    }

    /// Forget a question whose asker went away.
    pub fn abandon(&mut self, qid: Qid) -> (r: Vec<Action>)
        ensures
            (final(self)@, views(r@)) == abandoned(old(self)@, qid),
    {
        let all = self.tasks.numbers();
        let ghost start = self@;
        let mut ids: Vec<u64> = Vec::new();
        let mut i: usize = 0;
        proof {
            lemma_numbers(self@.tasks);
        }
        assert(ids@ =~= tasks_of(start, all@.take(0), qid));
        while i < all.len()
            invariant
                i <= all@.len(),
                start == self@,
                forall|j: int| 0 <= j < all@.len() ==> start.tasks.contains_key(#[trigger] all@[j]),
                ids@ == tasks_of(start, all@.take(i as int), qid),
            decreases all@.len() - i,
        {
            assert(all@.take(i + 1).drop_last() =~= all@.take(i as int));
            let id: u64 = all[i];
            assert(start.tasks.contains_key(all@[i as int]));
            if let Some(task) = self.tasks.get(id) {
                let q: u64 = match task.owner {
                    Owner::Resolve(q) => q,
                    Owner::Lookup(q) => q,
                };
                if q == qid {
                    ids.push(id);
                }
            }
            i += 1;
        }
        assert(all@.take(i as int) =~= all@);
        let mut actions = no_actions();
        let mut k: usize = 0;
        assert(ids@.take(0) =~= Seq::empty());
        while k < ids.len()
            invariant
                k <= ids@.len(),
                (self@, views(actions@)) == all_dropped(start, ids@.take(k as int)),
            decreases ids@.len() - k,
        {
            assert(ids@.take(k + 1).drop_last() =~= ids@.take(k as int));
            let ghost before = self@;
            let id: u64 = ids[k];
            match self.tasks.remove(id) {
                Some(task) => {
                    if let Some(tx) = task.tx {
                        self.txs.remove(tx);
                        let ghost was = views(actions@);
                        actions.push(Action::Cancel { tx });
                        assert(views(actions@) =~= was.push(ActionView::Cancel { tx }));
                    }
                    assert(self@ == dropped(before, id));
                },
                None => {
                    assert(before.tasks.remove(id) =~= before.tasks);
                },
            }
            k += 1;
        }
        assert(ids@.take(k as int) =~= ids@);
        self.lookups.remove(qid);
        actions
    }

    // Inputs.

    fn demote(&mut self, server: IpAddr, now: Instant)
        requires
            now <= LATEST,
        ensures
            final(self)@ == demoted(old(self)@, server@, now),
    {
        self.demoted.insert(server, now + DEMOTION);
    }

    fn clear_tx(&mut self, id: u64)
        ensures
            final(self)@ == idle(old(self)@, id),
    {
        match self.tasks.remove(id) {
            Some(mut task) => {
                task.tx = None;
                self.tasks.insert(id, task);
                assert(old(self)@.tasks.remove(id).insert(id, task@) =~= old(self)@.tasks.insert(id, task@));
            },
            None => {
                assert(old(self)@.tasks.remove(id) =~= old(self)@.tasks);
            },
        }
    }

    /// A datagram or TCP message arrived for `tx`.
    pub fn received(&mut self, tx: Txid, bytes: &[u8], now: Instant) -> (r: Vec<Action>)
        requires
            old(self)@.next_id < u64::MAX,
            now <= LATEST,
        ensures
            (final(self)@, views(r@)) == received(old(self)@, tx, bytes@, now),
            all_honest(views(r@)),
    {
        self.cache.checked();
        proof {
            lemma_received_honest(self@, tx, bytes@, now);
        }
        let t = match self.txs.get(tx) {
            Some(t) => t,
            None => return no_actions(),
        };
        // What does not decode is not ours, or garbage; the timer handles it.
        let message = match Message::decode(bytes) {
            Ok(m) => m,
            Err(_) => return no_actions(),
        };
        if message.header.id != t.dns_id || !message.header.response {
            return no_actions();
        }
        let q = match message.question() {
            Some(q) => q,
            None => return no_actions(),
        };
        if q.rtype != t.question.rtype || q.class != t.question.class || !q.name.same_case(&t.question.name) {
            return no_actions();
        }
        self.reply(tx, message, now)
    }

    fn reply(&mut self, tx: Txid, message: Message, now: Instant) -> (r: Vec<Action>)
        requires
            old(self)@.txs.contains_key(tx),
            old(self)@.next_id < u64::MAX,
            now <= LATEST,
        ensures
            (final(self)@, views(r@)) == replied(old(self)@, tx, message@, now),
    {
        let t = match self.txs.remove(tx) {
            Some(t) => t,
            None => return no_actions(),
        };
        let id: u64 = t.task;
        if self.tasks.get(id).is_none() {
            return no_actions();
        }
        self.clear_tx(id);
        self.counters.upstream_answered = self.counters.upstream_answered.wrapping_add(1);
        if message.header.truncated && !t.tcp {
            // Ask again over TCP, same server, not counted as an attempt.
            return self.send(id, t.server, true, now);
        }
        let code: u16 = message.rcode();
        if code == rcode::NOERROR as u16 || code == rcode::NXDOMAIN as u16 {
            self.accept(id, t.server, message, now)
        } else {
            // SERVFAIL, REFUSED, FORMERR, an extended code: this server
            // cannot answer this; try the next.
            self.counters.upstream_failed = self.counters.upstream_failed.wrapping_add(1);
            self.demote(t.server, now);
            self.next_attempt(id, now)
        }
    }

    fn accept(&mut self, id: u64, server: IpAddr, message: Message, now: Instant) -> (r: Vec<Action>)
        requires
            old(self)@.tasks.contains_key(id),
            old(self)@.next_id < u64::MAX,
            now <= LATEST,
            message@.rcode() == rcode::NOERROR || message@.rcode() == rcode::NXDOMAIN,
        ensures
            (final(self)@, views(r@)) == accepted(old(self)@, id, server@, message@, now),
    {
        let task = match self.tasks.get(id) {
            Some(task) => task,
            None => return no_actions(),
        };
        let candidate = task.name();
        let scope = task.scope_id();
        let rtype: u16 = task.rtype;
        let more: bool = task.candidates.len() > 0;
        let code: u16 = message.rcode();
        let absent: bool = code == rcode::NXDOMAIN as u16;
        let outcome = if absent {
            Outcome::NotFound
        } else {
            Outcome::Found
        };
        // Records come back in the case that was sent; the caller gets the
        // case it used.
        let records = if absent {
            Vec::new()
        } else {
            recase_records(&message.answers, &candidate)
        };
        assert(absent ==> records_view(records@) =~= Seq::empty());
        assert(records_view(records@) == model::reply_records(message@, candidate@));
        let ttl: u32 = if !absent && records.len() > 0 {
            least_seconds(&records, MAX_POSITIVE_TTL)
        } else {
            negative_seconds(&message.authority)
        };
        proof {
            lemma_least_ttl(records_view(records@), MAX_POSITIVE_TTL);
        }
        assert(ttl == model::reply_ttl(message@, candidate@));
        self.demoted.remove(&server);
        if ttl > 0 {
            let entry = Entry {
                outcome,
                records: copy_records(&records),
                rcode: code,
                server,
                stored: now,
                expires: now + ttl as u64 * SECOND,
            };
            assert(entry@ == model::reply_entry(message@, candidate@, server@, now));
            let key = CacheKey::new(&candidate, rtype, scope.as_str());
            proof {
                lemma_reply_entry_honest(message@, candidate@, server@, now);
            }
            self.cache.insert(key, entry);
        }
        if absent && more {
            return self.next_candidate(id, now);
        }
        let answer = Answer {
            outcome,
            records,
            source: Source::Dns,
            server: Some(server),
            interface: interface_name(&self.scopes, scope.as_str()),
            rcode: code,
            resolved_name: Some(candidate),
        };
        self.settle(id, answer)
    }

    /// The transport failed for `tx` (ICMP unreachable, connection refused).
    pub fn failed(&mut self, tx: Txid, now: Instant) -> (r: Vec<Action>)
        requires
            old(self)@.next_id < u64::MAX,
            now <= LATEST,
        ensures
            (final(self)@, views(r@)) == failed(old(self)@, tx, now),
            all_honest(views(r@)),
    {
        self.cache.checked();
        proof {
            lemma_failed_honest(self@, tx, now);
        }
        let t = match self.txs.remove(tx) {
            Some(t) => t,
            None => {
                assert(old(self)@.txs.remove(tx) =~= old(self)@.txs);
                return no_actions();
            },
        };
        self.counters.upstream_failed = self.counters.upstream_failed.wrapping_add(1);
        self.demote(t.server, now);
        self.clear_tx(t.task);
        self.next_attempt(t.task, now)
    }

    /// Time passed. Expired transactions move to the next attempt.
    pub fn tick(&mut self, now: Instant) -> (r: Vec<Action>)
        requires
            old(self)@.next_id + old(self)@.txs.len() < u64::MAX,
            now <= LATEST,
        ensures
            (final(self)@, views(r@)) == ticked(old(self)@, now),
            all_honest(views(r@)),
    {
        self.cache.checked();
        proof {
            lemma_ticked_honest(self@, now);
        }
        let all = self.txs.numbers();
        let count: usize = self.txs.len();
        let ghost start = self@;
        proof {
            lemma_numbers(self@.txs);
            lemma_numbers_len(self@.txs);
        }
        let mut due: Vec<u64> = Vec::new();
        let mut i: usize = 0;
        assert(due@ =~= overdue(start, all@.take(0), now));
        while i < all.len()
            invariant
                i <= all@.len(),
                start == self@,
                due@.len() <= i,
                forall|j: int| 0 <= j < all@.len() ==> start.txs.contains_key(#[trigger] all@[j]),
                due@ == overdue(start, all@.take(i as int), now),
            decreases all@.len() - i,
        {
            assert(all@.take(i + 1).drop_last() =~= all@.take(i as int));
            assert(start.txs.contains_key(all@[i as int]));
            let tx: u64 = all[i];
            if let Some(t) = self.txs.get(tx) {
                if t.deadline <= now {
                    due.push(tx);
                }
            }
            i += 1;
        }
        assert(all@.take(i as int) =~= all@);
        let mut actions = no_actions();
        let mut k: usize = 0;
        assert(due@.take(0) =~= Seq::empty());
        while k < due.len()
            invariant
                k <= due@.len(),
                now <= LATEST,
                start.next_id + due@.len() < u64::MAX,
                self@.next_id <= start.next_id + k,
                (self@, views(actions@)) == all_failed(start, due@.take(k as int), now),
            decreases due@.len() - k,
        {
            assert(due@.take(k + 1).drop_last() =~= due@.take(k as int));
            let tx: u64 = due[k];
            let ghost was = views(actions@);
            actions.push(Action::Cancel { tx });
            assert(views(actions@) =~= was + seq![ActionView::Cancel { tx }]);
            proof {
                lemma_failed_ids(self@, tx, now);
            }
            let more = self.failed(tx, now);
            add_actions(&mut actions, more);
            k += 1;
        }
        assert(due@.take(k as int) =~= due@);
        actions
    }
}

fn copy_numbers(v: &Vec<u64>) -> (r: Vec<u64>)
    ensures
        r@ == v@,
{
    let mut out: Vec<u64> = Vec::new();
    let mut i: usize = 0;
    while i < v.len()
        invariant
            i <= v@.len(),
            out@ =~= v@.take(i as int),
        decreases v@.len() - i,
    {
        out.push(v[i]);
        i += 1;
    }
    assert(v@.take(i as int) =~= v@);
    out
}

proof fn lemma_least_ttl(r: Seq<RecordView>, limit: u32)
    ensures
        answer::least_ttl(r, limit) <= limit,
    decreases r.len(),
{
    if r.len() > 0 {
        lemma_least_ttl(r.drop_last(), limit);
    }
}

} // verus!

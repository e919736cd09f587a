//! The service: every door hands its question to the one engine and sends
//! back whatever it says; nothing here decides an answer.
//!
//! It owns who waits for which question. It takes what arrives at the doors
//! and from upstream, and returns what is to be sent where.
use crate::addr::{is_loopback, IpAddr};
use crate::config::{same_config, Config, ConfigView};
use crate::control::{progressed, reply_frame, respond, Progress, ProgressView, CLIENT_TIMEOUT};
use crate::dns::name::{name_text, Labels};
use crate::dns::Name;
use crate::engine::answer::hosts_view;
use crate::engine::model::{
    failed, hostname_of, initial, is_next_deadline, looked_up, received, rescoped, resolved, reversed, ticked, with_fallback,
    ActionView, Actions, CompletionView, State, MAX_ATTEMPTS,
};
use crate::engine::scope::{copy_addresses, copy_names};
use crate::engine::script::{law_time_drains, spaced, ticks, MOST_NUMBERS};
use crate::engine::soundness::{
    answered, count, dones, due, follows, is_open, law_configuration_is_sound, law_failure_is_sound,
    law_fallback_is_sound, law_initial_is_sound, law_lookup_is_sound, law_reply_is_sound, law_resolve_is_sound,
    law_reverse_is_sound, law_scopes_are_sound, law_tick_is_sound, sound, steps,
};
use crate::engine::{self, Action, Completion, Engine, Txid};
use crate::protocol::{self, views, Ask, Reply, ReplyView, Request};
use crate::render::{addresses_out, answer_out, status, status_out, to_addresses, to_answer};
use crate::snapshot::{machine_name, scopes_of, to_scopes, Snapshot, SnapshotView};
use crate::stream::{
    drop_stale, expiry, fresh_clients, is_next_expiry, next_expiry, sat_too_long, silent, Client, ClientView, Read,
    ReadView,
};
use crate::stub::{
    answer_bytes, datagram, opt_bytes, serviced, Incoming, IncomingView, Origin, OriginView, Peer, PeerView, Serviced,
    ServicedView, Stub, StubView, TCP_TIMEOUT,
};
use crate::table::{numbers, Table};
use crate::text::{opt_text, str_eq};
use crate::time::{Instant, LATEST};
use vstd::prelude::*;
use vstd::utf8::*;

verus! {

/// Who is waiting for an answer. A native client is known by its number.
#[derive(Debug)]
pub enum Waiter {
    Native(u64),
    Stub(Origin),
}

pub enum WaiterView {
    Native(u64),
    Stub(OriginView),
}

impl View for Waiter {
    type V = WaiterView;

    open spec fn view(&self) -> WaiterView {
        match self {
            Waiter::Native(client) => WaiterView::Native(*client),
            Waiter::Stub(origin) => WaiterView::Stub(origin@),
        }
    }
}

/// Something to be sent, or given up.
#[derive(Debug)]
pub enum Output {
    /// A query to a server.
    Send { tx: Txid, server: IpAddr, tcp: bool, payload: Vec<u8> },
    /// A transaction that is over.
    Cancel { tx: Txid },
    /// A reply to a native client, after which its connection is closed.
    Native { client: u64, frame: Vec<u8> },
    /// A datagram to a stub client.
    Udp { peer: Peer, bytes: Vec<u8> },
    /// A reply to a stub client's connection, which is then closed; it is
    /// closed without one where none can be made.
    Tcp { client: u64, frame: Option<Vec<u8>> },
}

pub enum OutputView {
    Send { tx: u64, server: Seq<u8>, tcp: bool, payload: Seq<u8> },
    Cancel { tx: u64 },
    Native { client: u64, frame: Seq<u8> },
    Udp { peer: PeerView, bytes: Seq<u8> },
    Tcp { client: u64, frame: Option<Seq<u8>> },
}

impl View for Output {
    type V = OutputView;

    open spec fn view(&self) -> OutputView {
        match self {
            Output::Send { tx, server, tcp, payload } => OutputView::Send {
                tx: *tx,
                server: server@,
                tcp: *tcp,
                payload: payload@,
            },
            Output::Cancel { tx } => OutputView::Cancel { tx: *tx },
            Output::Native { client, frame } => OutputView::Native { client: *client, frame: frame@ },
            Output::Udp { peer, bytes } => OutputView::Udp { peer: peer@, bytes: bytes@ },
            Output::Tcp { client, frame } => OutputView::Tcp { client: *client, frame: opt_bytes(*frame) },
        }
    }
}

pub type Outputs = Seq<OutputView>;

pub type Waiters = Map<u64, WaiterView>;

pub struct Service {
    engine: Engine,
    stub: Stub,
    clients: Table<Client>,
    waiters: Table<Waiter>,
    config: Config,
    next_id: u64,
}

#[verifier::ext_equal]
pub struct ServiceView {
    pub engine: State,
    pub stub: StubView,
    /// Native connections that have not sent a whole request.
    pub clients: Map<u64, ClientView>,
    pub waiters: Waiters,
    pub config: ConfigView,
    pub next_id: u64,
}

impl View for Service {
    type V = ServiceView;

    closed spec fn view(&self) -> ServiceView {
        ServiceView {
            engine: self.engine@,
            stub: self.stub@,
            clients: self.clients@,
            waiters: self.waiters@,
            config: self.config@,
            next_id: self.next_id,
        }
    }
}

// What the engine asks for.

/// What an answer comes to at the door of who waits for it.
pub open spec fn delivered(w: WaiterView, c: CompletionView) -> Outputs {
    match (w, c) {
        (WaiterView::Native(client), CompletionView::Answer(a)) => seq![
            OutputView::Native { client, frame: reply_frame(ReplyView::Answer(answer_out(a))) },
        ],
        (WaiterView::Native(client), CompletionView::Addresses(a)) => seq![
            OutputView::Native { client, frame: reply_frame(ReplyView::Addresses(addresses_out(a))) },
        ],
        (WaiterView::Stub(origin), CompletionView::Answer(a)) => match origin {
            OriginView::Udp { peer, query: _ } => match answer_bytes(origin, a) {
                Some(bytes) => seq![OutputView::Udp { peer, bytes }],
                None => Seq::empty(),
            },
            OriginView::Tcp { client, query: _ } => seq![OutputView::Tcp { client, frame: answer_bytes(origin, a) }],
        },
        (WaiterView::Stub(origin), CompletionView::Addresses(_)) => match origin {
            OriginView::Udp { peer: _, query: _ } => Seq::empty(),
            OriginView::Tcp { client, query: _ } => seq![OutputView::Tcp { client, frame: None }],
        },
    }
}

/// What one action comes to, and who still waits.
pub open spec fn carried_out(w: Waiters, a: ActionView) -> (Waiters, Outputs) {
    match a {
        ActionView::Send { tx, server, tcp, payload } => (w, seq![OutputView::Send { tx, server, tcp, payload }]),
        ActionView::Cancel { tx } => (w, seq![OutputView::Cancel { tx }]),
        ActionView::Done { qid, completion } => if w.contains_key(qid) {
            (w.remove(qid), delivered(w[qid], completion))
        } else {
            (w, Seq::empty())
        },
    }
}

/// What actions come to, one after the other.
pub open spec fn performed(w: Waiters, a: Actions) -> (Waiters, Outputs)
    decreases a.len(),
{
    if a.len() == 0 {
        (w, Seq::empty())
    } else {
        let (w1, before) = performed(w, a.drop_last());
        let (w2, outputs) = carried_out(w1, a.last());
        (w2, before + outputs)
    }
}

/// The service after the engine did something.
pub open spec fn after(s: ServiceView, step: (State, Actions)) -> (ServiceView, Outputs) {
    let (waiters, outputs) = performed(s.waiters, step.1);
    (ServiceView { engine: step.0, waiters, ..s }, outputs)
}

// Requests and queries.

pub open spec fn family_of(f: protocol::Family) -> engine::Family {
    match f {
        protocol::Family::Any => engine::Family::Any,
        protocol::Family::V4 => engine::Family::V4,
        protocol::Family::V6 => engine::Family::V6,
    }
}

/// A question put to the engine for someone who waits for it.
pub open spec fn waiting(s: ServiceView, w: WaiterView) -> ServiceView {
    ServiceView { waiters: s.waiters.insert(s.next_id, w), next_id: (s.next_id + 1) as u64, ..s }
}

pub open spec fn told(client: u64, reply: ReplyView) -> Outputs {
    seq![OutputView::Native { client, frame: reply_frame(reply) }]
}

/// What a request comes to. What is not permitted is refused and changes
/// nothing.
pub open spec fn requested(
    s: ServiceView,
    client: u64,
    ask: Ask,
    permitted: bool,
    netd: bool,
    now: Instant,
) -> (ServiceView, Outputs) {
    let used = ServiceView { next_id: (s.next_id + 1) as u64, ..s };
    let asked = waiting(s, WaiterView::Native(client));
    let qid = s.next_id;
    if !permitted {
        (s, told(client, ReplyView::Error("access denied"@)))
    } else {
        match ask {
            Ask::Status => (used, told(client, ReplyView::Status(status_out(s.engine, netd, now)))),
            Ask::Flush => (
                ServiceView { engine: State { cache: Seq::empty(), ..s.engine }, ..used },
                told(client, ReplyView::Okay),
            ),
            Ask::Resolve { name, rtype, no_cache } => after(
                asked,
                resolved(s.engine, qid, encode_utf8(name), rtype, no_cache, now),
            ),
            Ask::Lookup { name, family } => after(
                asked,
                looked_up(s.engine, qid, encode_utf8(name), family_of(family), now),
            ),
            Ask::Reverse { address } => after(asked, reversed(s.engine, qid, address, now)),
        }
    }
}

/// What a query at the stub door comes to.
pub open spec fn queried(s: ServiceView, origin: OriginView, now: Instant) -> (ServiceView, Outputs) {
    match origin.query().question() {
        Some(q) => after(
            waiting(s, WaiterView::Stub(origin)),
            resolved(s.engine, s.next_id, name_text(q.name), q.rtype, false, now),
        ),
        None => (s, Seq::empty()),
    }
}

/// What a datagram at the stub door comes to.
pub open spec fn datagram_arrived(s: ServiceView, peer: PeerView, bytes: Seq<u8>, now: Instant) -> (
    ServiceView,
    Outputs,
) {
    match datagram(peer, bytes) {
        IncomingView::Query { origin } => queried(s, origin, now),
        IncomingView::Reply { bytes } => (s, seq![OutputView::Udp { peer, bytes }]),
        IncomingView::Nothing => (s, Seq::empty()),
    }
}

/// What is to be done with a connection after a read.
#[derive(Debug, Clone, Copy, PartialEq, Eq, Structural)]
pub enum Next {
    /// Read on.
    Again,
    /// Nothing more for now.
    Wait,
    /// The connection is not read any more.
    Over,
}

/// What a read of a stub client's connection comes to.
pub open spec fn stub_read(s: ServiceView, id: u64, read: ReadView, now: Instant) -> (ServiceView, Next, Outputs) {
    let (stub, done) = serviced(s.stub, id, read);
    let s1 = ServiceView { stub, ..s };
    match done {
        ServicedView::Again => (s1, Next::Again, Seq::empty()),
        ServicedView::Wait => (s1, Next::Wait, Seq::empty()),
        ServicedView::Over(incoming) => match incoming {
            IncomingView::Query { origin } => {
                let (s2, outputs) = queried(s1, origin, now);
                (s2, Next::Over, outputs)
            },
            IncomingView::Reply { bytes } => (
                s1,
                Next::Over,
                seq![OutputView::Tcp { client: id, frame: Some(bytes) }],
            ),
            IncomingView::Nothing => (s1, Next::Over, seq![OutputView::Tcp { client: id, frame: None }]),
        },
    }
}

/// What a read of a native client's connection comes to: one that is over, or
/// that sent its request, leaves the table.
pub open spec fn native_read(s: ServiceView, id: u64, read: ReadView) -> (ServiceView, ProgressView) {
    if !s.clients.contains_key(id) {
        (s, ProgressView::Incomplete)
    } else {
        let (client, progress) = progressed(s.clients[id], read);
        match progress {
            ProgressView::Again => (ServiceView { clients: s.clients.insert(id, client), ..s }, progress),
            ProgressView::Incomplete => (s, progress),
            _ => (ServiceView { clients: s.clients.remove(id), ..s }, progress),
        }
    }
}

// Configuration.

/// Other settings, where they are other.
pub open spec fn configured(s: ServiceView, fresh: ConfigView) -> ServiceView {
    if same_config(fresh, s.config) {
        s
    } else {
        settings_taken(s, fresh)
    }
}

pub open spec fn settings_taken(s: ServiceView, fresh: ConfigView) -> ServiceView {
    ServiceView {
        engine: State { hosts: fresh.hosts, ..with_fallback(s.engine, fresh.servers, fresh.search) },
        config: fresh,
        ..s
    }
}

pub open spec fn opt_utf8(t: Option<Seq<char>>) -> Option<Seq<u8>> {
    match t {
        Some(t) => Some(encode_utf8(t)),
        None => None,
    }
}

/// What the network daemon said, taken over.
pub open spec fn informed(s: ServiceView, said: SnapshotView, kernel: Option<Seq<char>>) -> ServiceView {
    let named = State { hostname: hostname_of(opt_utf8(machine_name(said.hostname, kernel))), ..s.engine };
    ServiceView { engine: rescoped(named, scopes_of(said.scopes)), ..s }
}

fn no_outputs() -> (r: Vec<Output>)
    ensures
        views(r@) == Seq::<OutputView>::empty(),
{
    let r: Vec<Output> = Vec::new();
    assert(views(r@) =~= Seq::<OutputView>::empty());
    r
}

fn one_output(o: Output) -> (r: Vec<Output>)
    ensures
        views(r@) == seq![o@],
{
    let mut r: Vec<Output> = Vec::new();
    let ghost one = o@;
    r.push(o);
    assert(views(r@) =~= seq![one]);
    r
}

fn put_output(out: &mut Vec<Output>, o: Output)
    ensures
        views(final(out)@) == views(old(out)@) + seq![o@],
{
    let ghost before = views(out@);
    let ghost one = o@;
    out.push(o);
    assert(views(out@) =~= before + seq![one]);
}

fn tell(client: u64, reply: &Reply) -> (r: Vec<Output>)
    ensures
        views(r@) == told(client, reply@),
{
    one_output(Output::Native { client, frame: respond(reply) })
}

impl Service {
    /// A service that knows its settings and the machine's name, and nobody
    /// else yet.
    pub fn new(seed: u64, hostname: Option<&str>, config: Config) -> (r: Service)
        ensures
            r@ == settings_taken(
                ServiceView {
                    engine: State {
                        hostname: hostname_of(
                            match hostname {
                                Some(h) => Some(encode_utf8(h@)),
                                None => None,
                            },
                        ),
                        ..initial(seed)
                    },
                    stub: StubView { clients: Map::empty(), next_client: 1 },
                    clients: Map::empty(),
                    waiters: Map::empty(),
                    config: config@,
                    next_id: 1,
                },
                config@,
            ),
    {
        let mut engine = Engine::new(seed);
        engine.set_hostname(hostname);
        engine.set_fallback(copy_addresses(&config.servers), copy_names(&config.search));
        engine.set_hosts(copy_hosts(&config.hosts));
        Service {
            engine,
            stub: Stub::new(),
            clients: Table::new(),
            waiters: Table::new(),
            config,
            next_id: 1,
        }
    }

    fn fresh_id(&mut self) -> (id: u64)
        requires
            old(self)@.next_id < u64::MAX,
        ensures
            id == old(self)@.next_id,
            final(self)@ == (ServiceView { next_id: (old(self)@.next_id + 1) as u64, ..old(self)@ }),
    {
        let id: u64 = self.next_id;
        self.next_id = id + 1;
        id
    }

    /// Hand an answer to who waits for it.
    fn deliver(&mut self, qid: u64, completion: Completion) -> (r: Vec<Output>)
        ensures
            ({
                let (waiters, outputs) = carried_out(
                    old(self)@.waiters,
                    ActionView::Done { qid, completion: completion@ },
                );
                final(self)@ == (ServiceView { waiters, ..old(self)@ }) && views(r@) == outputs
            }),
    {
        let ghost before = self@.waiters;
        let waiter = match self.waiters.remove(qid) {
            Some(w) => w,
            None => {
                assert(before.remove(qid) =~= before);
                return no_outputs();
            },
        };
        match (waiter, completion) {
            (Waiter::Native(client), Completion::Answer(a)) => tell(client, &Reply::Answer(to_answer(&a))),
            (Waiter::Native(client), Completion::Addresses(a)) => tell(client, &Reply::Addresses(to_addresses(&a))),
            (Waiter::Stub(origin), Completion::Answer(a)) => {
                let bytes = self.stub.answer(&origin, &a);
                match origin {
                    Origin::Udp { peer, query: _ } => match bytes {
                        Some(bytes) => one_output(Output::Udp { peer, bytes }),
                        None => no_outputs(),
                    },
                    Origin::Tcp { client, query: _ } => one_output(Output::Tcp { client, frame: bytes }),
                }
            },
            (Waiter::Stub(origin), Completion::Addresses(_)) => match origin {
                Origin::Udp { peer: _, query: _ } => no_outputs(),
                Origin::Tcp { client, query: _ } => one_output(Output::Tcp { client, frame: None }),
            },
        }
    }

    /// Carry out what the engine asked for.
    fn perform(&mut self, actions: Vec<Action>) -> (r: Vec<Output>)
        ensures
            ({
                let (waiters, outputs) = performed(old(self)@.waiters, views(actions@));
                final(self)@ == (ServiceView { waiters, ..old(self)@ }) && views(r@) == outputs
            }),
    {
        let ghost all = views(actions@);
        let ghost start = self@;
        let mut left = actions;
        let mut turned: Vec<Action> = Vec::new();
        while left.len() > 0
            invariant
                left@.len() + turned@.len() == all.len(),
                forall|j: int| 0 <= j < left@.len() ==> (#[trigger] left@[j])@ == all[j],
                forall|j: int| 0 <= j < turned@.len() ==> (#[trigger] turned@[j])@ == all[all.len() - 1 - j],
            decreases left@.len(),
        {
            if let Some(a) = left.pop() {
                turned.push(a);
            }
        }
        let mut out: Vec<Output> = no_outputs();
        let ghost k: int = 0;
        assert(all.take(0) =~= Seq::empty());
        while turned.len() > 0
            invariant
                0 <= k <= all.len(),
                turned@.len() == all.len() - k,
                forall|j: int| 0 <= j < turned@.len() ==> (#[trigger] turned@[j])@ == all[all.len() - 1 - j],
                ({
                    let (waiters, outputs) = performed(start.waiters, all.take(k));
                    self@ == (ServiceView { waiters, ..start }) && views(out@) == outputs
                }),
            decreases turned@.len(),
        {
            assert(turned@[turned@.len() - 1]@ == all[k]);
            assert(all.take(k + 1).drop_last() =~= all.take(k));
            if let Some(a) = turned.pop() {
                match a {
                    Action::Send { tx, server, tcp, payload } => put_output(
                        &mut out,
                        Output::Send { tx, server, tcp, payload },
                    ),
                    Action::Cancel { tx } => put_output(&mut out, Output::Cancel { tx }),
                    Action::Done { qid, completion } => {
                        let mut more = self.deliver(qid, completion);
                        let ghost before = views(out@);
                        let ghost added = views(more@);
                        out.append(&mut more);
                        assert(views(out@) =~= before + added);
                    },
                }
            }
            proof {
                k = k + 1;
            }
        }
        assert(all.take(k) =~= all);
        out
    }

    /// A whole request of a native client; `permitted` is whether the client
    /// has the right that the request needs.
    pub fn handle_request(
        &mut self,
        client: u64,
        request: Request,
        permitted: bool,
        netd: bool,
        now: Instant,
    ) -> (r: Vec<Output>)
        requires
            old(self)@.next_id < u64::MAX,
            old(self)@.engine.next_id < u64::MAX - 4,
            now <= LATEST,
        ensures
            (final(self)@, views(r@)) == requested(old(self)@, client, request@, permitted, netd, now),
    {
        if !permitted {
            return tell(client, &Reply::Error("access denied".to_owned()));
        }
        let qid: u64 = self.fresh_id();
        let actions = match request {
            Request::Status => {
                return tell(client, &Reply::Status(status(&self.engine, netd, now)));
            },
            Request::Flush => {
                self.engine.flush();
                return tell(client, &Reply::Okay);
            },
            Request::Resolve { name, rtype, no_cache } => self.engine.resolve(
                qid,
                name.as_str(),
                rtype,
                no_cache,
                now,
            ),
            Request::Lookup { name, family } => {
                let family = match family {
                    protocol::Family::Any => engine::Family::Any,
                    protocol::Family::V4 => engine::Family::V4,
                    protocol::Family::V6 => engine::Family::V6,
                };
                self.engine.lookup(qid, name.as_str(), family, now)
            },
            Request::Reverse { address } => self.engine.reverse(qid, address, now),
        };
        self.waiters.insert(qid, Waiter::Native(client));
        self.perform(actions)
    }

    /// A query at the stub door.
    fn handle_stub(&mut self, origin: Origin, now: Instant) -> (r: Vec<Output>)
        requires
            old(self)@.next_id < u64::MAX,
            old(self)@.engine.next_id < u64::MAX - 1,
            now <= LATEST,
        ensures
            (final(self)@, views(r@)) == queried(old(self)@, origin@, now),
    {
        let question = match &origin {
            Origin::Udp { peer: _, query } => query.question(),
            Origin::Tcp { client: _, query } => query.question(),
        };
        let question = match question {
            Some(q) => q.clone(),
            None => return no_outputs(),
        };
        let qid: u64 = self.fresh_id();
        self.waiters.insert(qid, Waiter::Stub(origin));
        let actions = self.engine.resolve_question(qid, &question, now);
        self.perform(actions)
    }

    /// A datagram at the stub door.
    pub fn receive_udp(&mut self, peer: Peer, bytes: &[u8], now: Instant) -> (r: Vec<Output>)
        requires
            old(self)@.next_id < u64::MAX,
            old(self)@.engine.next_id < u64::MAX - 1,
            now <= LATEST,
        ensures
            (final(self)@, views(r@)) == datagram_arrived(old(self)@, peer@, bytes@, now),
    {
        match self.stub.receive_udp(peer, bytes) {
            Incoming::Query { origin } => self.handle_stub(origin, now),
            Incoming::Reply { bytes } => one_output(Output::Udp { peer, bytes }),
            Incoming::Nothing => no_outputs(),
        }
    }

    /// A new connection at the stub door, and its number where its peer may
    /// ask.
    pub fn accept_stub(&mut self, peer: &IpAddr, now: Instant) -> (r: Option<u64>)
        requires
            old(self)@.stub.next_client < u64::MAX,
        ensures
            if is_loopback(peer@) {
                &&& r == Some(old(self)@.stub.next_client)
                &&& final(self)@ == (ServiceView {
                    stub: StubView {
                        clients: old(self)@.stub.clients.insert(old(self)@.stub.next_client, silent(now)),
                        next_client: (old(self)@.stub.next_client + 1) as u64,
                    },
                    ..old(self)@
                })
            } else {
                r is None && final(self)@ == old(self)@
            },
    {
        self.stub.accept(peer, now)
    }

    /// The numbers of the stub door's connections, in order.
    pub fn stub_clients(&self) -> (r: Vec<u64>)
        ensures
            r@ == numbers(self@.stub.clients),
    {
        self.stub.client_ids()
    }

    /// A read of a connection at the stub door.
    pub fn service_stub(&mut self, id: u64, read: Read, now: Instant) -> (r: (Next, Vec<Output>))
        requires
            old(self)@.next_id < u64::MAX,
            old(self)@.engine.next_id < u64::MAX - 1,
            now <= LATEST,
        ensures
            (final(self)@, r.0, views(r.1@)) == stub_read(old(self)@, id, read@, now),
    {
        match self.stub.service_client(id, read) {
            Serviced::Again => (Next::Again, no_outputs()),
            Serviced::Wait => (Next::Wait, no_outputs()),
            Serviced::Over(incoming) => match incoming {
                Incoming::Query { origin } => (Next::Over, self.handle_stub(origin, now)),
                Incoming::Reply { bytes } => (
                    Next::Over,
                    one_output(Output::Tcp { client: id, frame: Some(bytes) }),
                ),
                Incoming::Nothing => (Next::Over, one_output(Output::Tcp { client: id, frame: None })),
            },
        }
    }

    /// A new native connection, and its number.
    pub fn accept_native(&mut self, now: Instant) -> (id: u64)
        requires
            old(self)@.next_id < u64::MAX,
        ensures
            id == old(self)@.next_id,
            final(self)@ == (ServiceView {
                clients: old(self)@.clients.insert(old(self)@.next_id, silent(now)),
                next_id: (old(self)@.next_id + 1) as u64,
                ..old(self)@
            }),
    {
        let id: u64 = self.fresh_id();
        self.clients.insert(id, Client::new(now));
        id
    }

    /// The numbers of the native connections, in order.
    pub fn native_clients(&self) -> (r: Vec<u64>)
        ensures
            r@ == numbers(self@.clients),
    {
        self.clients.numbers()
    }

    /// A read of a native connection.
    pub fn read_native(&mut self, id: u64, read: Read) -> (r: Progress)
        ensures
            (final(self)@, r@) == native_read(old(self)@, id, read@),
    {
        let ghost before = self@.clients;
        let mut client = match self.clients.remove(id) {
            Some(c) => c,
            None => {
                assert(before.remove(id) =~= before);
                return Progress::Incomplete;
            },
        };
        let progress = client.read(read);
        match progress {
            Progress::Again => {
                self.clients.insert(id, client);
                assert(before.remove(id).insert(id, client@) =~= before.insert(id, client@));
            },
            Progress::Incomplete => {
                self.clients.insert(id, client);
                assert(before.remove(id).insert(id, client@) =~= before);
            },
            _ => {},
        }
        progress
    }

    /// Bytes that arrived from upstream.
    pub fn received(&mut self, tx: Txid, bytes: &[u8], now: Instant) -> (r: Vec<Output>)
        requires
            old(self)@.engine.next_id < u64::MAX,
            now <= LATEST,
        ensures
            (final(self)@, views(r@)) == after(old(self)@, received(old(self)@.engine, tx, bytes@, now)),
    {
        let actions = self.engine.received(tx, bytes, now);
        self.perform(actions)
    }

    /// An exchange with upstream failed.
    pub fn failed(&mut self, tx: Txid, now: Instant) -> (r: Vec<Output>)
        requires
            old(self)@.engine.next_id < u64::MAX,
            now <= LATEST,
        ensures
            (final(self)@, views(r@)) == after(old(self)@, failed(old(self)@.engine, tx, now)),
    {
        let actions = self.engine.failed(tx, now);
        self.perform(actions)
    }

    /// Time passed.
    pub fn tick(&mut self, now: Instant) -> (r: Vec<Output>)
        requires
            old(self)@.engine.next_id + old(self)@.engine.txs.len() < u64::MAX,
            now <= LATEST,
        ensures
            (final(self)@, views(r@)) == after(old(self)@, ticked(old(self)@.engine, now)),
    {
        let actions = self.engine.tick(now);
        self.perform(actions)
    }

    /// Drop stub connections that have sat too long, and say which.
    pub fn expire_stub(&mut self, now: Instant) -> (gone: Vec<u64>)
        ensures
            final(self)@ == (ServiceView {
                stub: StubView {
                    clients: fresh_clients(old(self)@.stub.clients, now, TCP_TIMEOUT),
                    ..old(self)@.stub
                },
                ..old(self)@
            }),
            forall|id: u64| #[trigger]
                gone@.contains(id) <==> old(self)@.stub.clients.contains_key(id) && sat_too_long(
                    old(self)@.stub.clients[id].since,
                    now,
                    TCP_TIMEOUT,
                ),
    {
        self.stub.expire(now)
    }

    /// Drop native connections that have sat too long, and say which.
    pub fn expire_native(&mut self, now: Instant) -> (gone: Vec<u64>)
        ensures
            final(self)@ == (ServiceView {
                clients: fresh_clients(old(self)@.clients, now, CLIENT_TIMEOUT),
                ..old(self)@
            }),
            forall|id: u64| #[trigger]
                gone@.contains(id) <==> old(self)@.clients.contains_key(id) && sat_too_long(
                    old(self)@.clients[id].since,
                    now,
                    CLIENT_TIMEOUT,
                ),
    {
        drop_stale(&mut self.clients, now, CLIENT_TIMEOUT)
    }

    /// Whether there are numbers left for whatever arrives next.
    pub fn has_numbers(&self) -> (r: bool)
        ensures
            r == (self@.next_id < u64::MAX && self@.stub.next_client < u64::MAX && self@.engine.next_id < u64::MAX - 4
                && self@.engine.next_id + self@.engine.txs.len() < u64::MAX),
    {
        self.next_id < u64::MAX && self.stub.has_numbers() && self.engine.has_numbers()
    }

    /// Take over settings, and say whether they are other than before.
    pub fn apply_config(&mut self, fresh: Config) -> (changed: bool)
        ensures
            changed == !same_config(fresh@, old(self)@.config),
            final(self)@ == configured(old(self)@, fresh@),
    {
        if fresh.same(&self.config) {
            return false;
        }
        self.engine.set_fallback(copy_addresses(&fresh.servers), copy_names(&fresh.search));
        self.engine.set_hosts(copy_hosts(&fresh.hosts));
        self.config = fresh;
        true
    }

    /// Take over what the network daemon said; `kernel` is the name that the
    /// kernel has.
    pub fn apply_snapshot(&mut self, snapshot: &Snapshot, kernel: Option<String>)
        ensures
            final(self)@ == informed(old(self)@, snapshot@, opt_text(kernel)),
    {
        let empty = String::new();
        assert(empty@ =~= Seq::empty());
        assert(snapshot.hostname@.len() == 0 ==> snapshot.hostname@ =~= Seq::empty());
        if str_eq(snapshot.hostname.as_str(), empty.as_str()) {
            match &kernel {
                Some(name) => self.engine.set_hostname(Some(name.as_str())),
                None => self.engine.set_hostname(None),
            }
        } else {
            self.engine.set_hostname(Some(snapshot.hostname.as_str()));
        }
        self.engine.set_scopes(to_scopes(&snapshot.scopes));
    }
}

// Deadlines.

/// Whether a moment is the next at which something is due: a transaction, a
/// connection of either door, or what `other` says; there being none where
/// none of these is there.
pub open spec fn is_next(s: ServiceView, other: Option<Instant>, next: Option<Instant>) -> bool {
    &&& forall|tx: u64| #[trigger]
        s.engine.txs.contains_key(tx) ==> (next matches Some(t) && t <= s.engine.txs[tx].deadline)
    &&& forall|id: u64| #[trigger]
        s.stub.clients.contains_key(id) ==> (next matches Some(t) && t <= expiry(s.stub.clients[id].since, TCP_TIMEOUT))
    &&& forall|id: u64| #[trigger]
        s.clients.contains_key(id) ==> (next matches Some(t) && t <= expiry(s.clients[id].since, CLIENT_TIMEOUT))
    &&& other matches Some(o) ==> (next matches Some(t) && t <= o)
    &&& next matches Some(t) ==> {
        ||| exists|tx: u64| #[trigger] s.engine.txs.contains_key(tx) && s.engine.txs[tx].deadline == t
        ||| exists|id: u64| #[trigger]
            s.stub.clients.contains_key(id) && expiry(s.stub.clients[id].since, TCP_TIMEOUT) == t
        ||| exists|id: u64| #[trigger] s.clients.contains_key(id) && expiry(s.clients[id].since, CLIENT_TIMEOUT) == t
        ||| other == next
    }
}

fn earlier(a: Option<Instant>, b: Option<Instant>) -> (r: Option<Instant>)
    ensures
        r == a || r == b,
        a matches Some(x) ==> (r matches Some(t) && t <= x),
        b matches Some(x) ==> (r matches Some(t) && t <= x),
{
    match (a, b) {
        (Some(x), Some(y)) => if x <= y {
            a
        } else {
            b
        },
        (None, _) => b,
        (_, None) => a,
    }
}

impl Service {
    /// The next moment at which something is due; `other` is such a moment of
    /// the caller's.
    pub fn next_deadline(&self, other: Option<Instant>) -> (r: Option<Instant>)
        ensures
            is_next(self@, other, r),
    {
        let upstream = self.engine.next_deadline();
        let stub = self.stub.next_deadline();
        let native = next_expiry(&self.clients, CLIENT_TIMEOUT);
        let first = earlier(upstream, other);
        let second = earlier(stub, native);
        let r = earlier(first, second);
        let ghost v = self@;
        assert forall|tx: u64| #[trigger] v.engine.txs.contains_key(tx) implies (r matches Some(t) && t
            <= v.engine.txs[tx].deadline) by {
            assert(self.engine@.txs.contains_key(tx));
        }
        assert forall|id: u64| #[trigger] v.stub.clients.contains_key(id) implies (r matches Some(t) && t
            <= expiry(v.stub.clients[id].since, TCP_TIMEOUT)) by {
            assert(self.stub@.clients.contains_key(id));
        }
        assert forall|id: u64| #[trigger] v.clients.contains_key(id) implies (r matches Some(t) && t
            <= expiry(v.clients[id].since, CLIENT_TIMEOUT)) by {
            assert(self.clients@.contains_key(id));
        }
        assert(is_next_deadline(v.engine.txs, upstream));
        assert(is_next_expiry(v.stub.clients, TCP_TIMEOUT, stub));
        assert(is_next_expiry(v.clients, CLIENT_TIMEOUT, native));
        r
    }
}

/// The milliseconds to wait for something to happen, in whole ones and as
/// many as can be said; -1 is without end.
pub open spec fn wait_of(deadline: Option<Instant>, now: Instant) -> int {
    match deadline {
        Some(t) => if t <= now {
            0
        } else if (t - now) / 1_000_000 > i32::MAX {
            i32::MAX as int
        } else {
            (t - now) / 1_000_000
        },
        None => -1,
    }
}

pub fn poll_timeout(deadline: Option<Instant>, now: Instant) -> (r: i32)
    ensures
        r == wait_of(deadline, now),
{
    match deadline {
        Some(t) => {
            if t <= now {
                return 0;
            }
            let ms: u64 = (t - now) / 1_000_000;
            if ms > 0x7fff_ffff {
                i32::MAX
            } else {
                ms as i32
            }
        },
        None => -1,
    }
}

fn copy_hosts(h: &Vec<(Name, Vec<IpAddr>)>) -> (r: Vec<(Name, Vec<IpAddr>)>)
    ensures
        hosts_view(r@) == hosts_view(h@),
{
    let mut out: Vec<(Name, Vec<IpAddr>)> = Vec::new();
    let mut i: usize = 0;
    while i < h.len()
        invariant
            i <= h@.len(),
            out@.len() == i,
            forall|j: int| 0 <= j < i ==> hosts_view(out@)[j] == #[trigger] hosts_view(h@)[j],
        decreases h@.len() - i,
    {
        let ghost before = out@;
        out.push((h[i].0.clone(), copy_addresses(&h[i].1)));
        assert forall|j: int| 0 <= j < i + 1 implies hosts_view(out@)[j] == #[trigger] hosts_view(h@)[j] by {
            if j < i {
                assert(hosts_view(before)[j] == hosts_view(h@)[j]);
                assert(out@[j] == before[j]);
            }
        }
        i += 1;
    }
    assert(hosts_view(out@) =~= hosts_view(h@));
    out
}

// What holds of the service.

/// Whether those who wait are those whose questions are open.
pub open spec fn consistent(s: ServiceView) -> bool {
    &&& sound(s.engine)
    &&& forall|q: u64| #[trigger] s.waiters.contains_key(q) <==> is_open(s.engine, q)
    &&& forall|q: u64| #[trigger] s.waiters.contains_key(q) ==> q < s.next_id
}

/// Who is answered waits no longer, and nobody else stops waiting.
proof fn lemma_performed(w: Waiters, a: Actions)
    ensures
        forall|q: u64| #[trigger] performed(w, a).0.contains_key(q) <==> w.contains_key(q) && dones(a, q) == 0,
        forall|q: u64| #[trigger] performed(w, a).0.contains_key(q) ==> performed(w, a).0[q] == w[q],
    decreases a.len(),
{
    if a.len() > 0 {
        let rest = a.drop_last();
        lemma_performed(w, rest);
        let w1 = performed(w, rest).0;
        let w2 = performed(w, a).0;
        assert(w2 == carried_out(w1, a.last()).0);
        assert forall|q: u64| #[trigger] w2.contains_key(q) <==> w.contains_key(q) && dones(a, q) == 0 by {
            assert(w1.contains_key(q) <==> w.contains_key(q) && dones(rest, q) == 0);
        }
        assert forall|q: u64| #[trigger] w2.contains_key(q) implies w2[q] == w[q] by {
            assert(w1.contains_key(q));
        }
    }
}

/// A step of the engine in which nothing is asked leaves waiting those whose
/// questions stay open.
proof fn lemma_after(s: ServiceView, step: (State, Actions), spent: Set<u64>)
    requires
        consistent(s),
        sound(step.0),
        follows(s.engine, step.0, step.1, spent),
    ensures
        consistent(after(s, step).0),
{
    let s1 = after(s, step).0;
    lemma_performed(s.waiters, step.1);
    assert forall|q: u64| #[trigger] s1.waiters.contains_key(q) <==> is_open(s1.engine, q) by {
        assert(dones(step.1, q) + count(is_open(step.0, q)) == count(is_open(s.engine, q)));
        assert(s.waiters.contains_key(q) <==> is_open(s.engine, q));
    }
    assert forall|q: u64| #[trigger] s1.waiters.contains_key(q) implies q < s1.next_id by {
        assert(s.waiters.contains_key(q));
    }
}

/// A question that is asked for someone leaves them waiting where it stays
/// open.
proof fn lemma_asked(s: ServiceView, w: WaiterView, step: (State, Actions))
    requires
        consistent(s),
        s.next_id < u64::MAX,
        sound(step.0),
        steps(s.engine, step.0, step.1, Some(s.next_id), Set::empty()),
    ensures
        consistent(after(waiting(s, w), step).0),
{
    let asked = waiting(s, w);
    let s1 = after(asked, step).0;
    let qid = s.next_id;
    lemma_performed(asked.waiters, step.1);
    assert(!s.waiters.contains_key(qid));
    assert forall|q: u64| #[trigger] s1.waiters.contains_key(q) <==> is_open(s1.engine, q) by {
        assert(dones(step.1, q) + count(is_open(step.0, q)) == count(is_open(s.engine, q)) + count(
            Some(qid) == Some(q),
        ));
        assert(s.waiters.contains_key(q) <==> is_open(s.engine, q));
    }
    assert forall|q: u64| #[trigger] s1.waiters.contains_key(q) implies q < s1.next_id by {
        assert(asked.waiters.contains_key(q));
    }
}

/// Whatever is requested, those who wait are those whose questions are open.
pub proof fn law_requests_wait_for_open_questions(
    s: ServiceView,
    client: u64,
    ask: Ask,
    permitted: bool,
    netd: bool,
    now: Instant,
)
    requires
        consistent(s),
        s.next_id < u64::MAX,
        s.engine.next_id < u64::MAX - 4,
    ensures
        consistent(requested(s, client, ask, permitted, netd, now).0),
{
    let qid = s.next_id;
    assert(!is_open(s.engine, qid)) by {
        assert(s.waiters.contains_key(qid) <==> is_open(s.engine, qid));
    }
    if permitted {
        match ask {
            Ask::Status => {},
            Ask::Flush => {
                let e1 = State { cache: Seq::empty(), ..s.engine };
                law_configuration_is_sound(s.engine, e1);
                lemma_same_open(s, requested(s, client, ask, permitted, netd, now).0);
            },
            Ask::Resolve { name, rtype, no_cache } => {
                let text = encode_utf8(name);
                law_resolve_is_sound(s.engine, qid, text, rtype, no_cache, now);
                lemma_asked(
                    s,
                    WaiterView::Native(client),
                    resolved(s.engine, qid, text, rtype, no_cache, now),
                );
            },
            Ask::Lookup { name, family } => {
                let text = encode_utf8(name);
                law_lookup_is_sound(s.engine, qid, text, family_of(family), now);
                lemma_asked(
                    s,
                    WaiterView::Native(client),
                    looked_up(s.engine, qid, text, family_of(family), now),
                );
            },
            Ask::Reverse { address } => {
                law_reverse_is_sound(s.engine, qid, address, now);
                lemma_asked(s, WaiterView::Native(client), reversed(s.engine, qid, address, now));
            },
        }
    }
}

proof fn lemma_same_open(s: ServiceView, s1: ServiceView)
    requires
        consistent(s),
        sound(s1.engine),
        follows(s.engine, s1.engine, Seq::empty(), Set::empty()),
        s1.waiters == s.waiters,
        s.next_id <= s1.next_id,
    ensures
        consistent(s1),
{
    assert forall|q: u64| #[trigger] s1.waiters.contains_key(q) <==> is_open(s1.engine, q) by {
        assert(dones(Seq::empty(), q) + count(is_open(s1.engine, q)) == count(is_open(s.engine, q)));
        assert(s.waiters.contains_key(q) <==> is_open(s.engine, q));
    }
    assert forall|q: u64| #[trigger] s1.waiters.contains_key(q) implies q < s1.next_id by {
        assert(s.waiters.contains_key(q));
    }
}

/// Whatever is queried at the stub door, those who wait are those whose
/// questions are open.
pub proof fn law_queries_wait_for_open_questions(s: ServiceView, origin: OriginView, now: Instant)
    requires
        consistent(s),
        s.next_id < u64::MAX,
        s.engine.next_id < u64::MAX - 1,
    ensures
        consistent(queried(s, origin, now).0),
{
    let qid = s.next_id;
    assert(!is_open(s.engine, qid)) by {
        assert(s.waiters.contains_key(qid) <==> is_open(s.engine, qid));
    }
    if let Some(q) = origin.query().question() {
        law_resolve_is_sound(s.engine, qid, name_text(q.name), q.rtype, false, now);
        lemma_asked(
            s,
            WaiterView::Stub(origin),
            resolved(s.engine, qid, name_text(q.name), q.rtype, false, now),
        );
    }
}

/// Whatever comes from upstream, and as time passes, those who wait are those
/// whose questions are open.
pub proof fn law_events_keep_waiters(s: ServiceView, tx: u64, bytes: Seq<u8>, now: Instant)
    requires
        consistent(s),
        s.engine.next_id + s.engine.txs.len() < u64::MAX,
        s.engine.next_id < u64::MAX,
    ensures
        consistent(after(s, received(s.engine, tx, bytes, now)).0),
        consistent(after(s, failed(s.engine, tx, now)).0),
        consistent(after(s, ticked(s.engine, now)).0),
{
    law_reply_is_sound(s.engine, tx, bytes, now);
    lemma_after(s, received(s.engine, tx, bytes, now), answered(s.engine, tx, bytes));
    law_failure_is_sound(s.engine, tx, now);
    lemma_after(s, failed(s.engine, tx, now), Set::empty().insert(tx));
    law_tick_is_sound(s.engine, now);
    lemma_after(s, ticked(s.engine, now), due(s.engine, now).to_set());
}

/// Other settings and other interfaces keep those waiting who wait.
pub proof fn law_settings_keep_waiters(
    s: ServiceView,
    fresh: ConfigView,
    said: SnapshotView,
    kernel: Option<Seq<char>>,
)
    requires
        consistent(s),
    ensures
        consistent(configured(s, fresh)),
        consistent(informed(s, said, kernel)),
{
    let e1 = with_fallback(s.engine, fresh.servers, fresh.search);
    law_fallback_is_sound(s.engine, fresh.servers, fresh.search);
    let e2 = State { hosts: fresh.hosts, ..e1 };
    law_configuration_is_sound(s.engine, e2);
    lemma_same_open(s, settings_taken(s, fresh));
    let named = State { hostname: hostname_of(opt_utf8(machine_name(said.hostname, kernel))), ..s.engine };
    law_configuration_is_sound(s.engine, named);
    law_scopes_are_sound(named, scopes_of(said.scopes));
    let e3 = rescoped(named, scopes_of(said.scopes));
    law_configuration_is_sound(s.engine, e3);
    lemma_same_open(s, informed(s, said, kernel));
}

/// The service as time passes.
pub open spec fn after_ticks(s: ServiceView, times: Seq<Instant>) -> ServiceView
    decreases times.len(),
{
    if times.len() == 0 {
        s
    } else {
        let s1 = after_ticks(s, times.drop_last());
        after(s1, ticked(s1.engine, times.last())).0
    }
}

proof fn lemma_after_ticks(s: ServiceView, times: Seq<Instant>)
    requires
        consistent(s),
        s.engine.next_id + times.len() * MOST_NUMBERS < u64::MAX,
    ensures
        consistent(after_ticks(s, times)),
        after_ticks(s, times).engine == ticks(s.engine, times).0,
        after_ticks(s, times).engine.next_id <= s.engine.next_id + times.len() * MOST_NUMBERS,
    decreases times.len(),
{
    if times.len() > 0 {
        let rest = times.drop_last();
        lemma_after_ticks(s, rest);
        let s1 = after_ticks(s, rest);
        let now = times.last();
        law_tick_is_sound(s1.engine, now);
        lemma_after(s1, ticked(s1.engine, now), due(s1.engine, now).to_set());
    }
}

/// Nobody waits for ever: once time has run on, nobody waits.
pub proof fn law_nobody_waits_for_ever(s: ServiceView, times: Seq<Instant>)
    requires
        consistent(s),
        s.engine.next_id + times.len() * MOST_NUMBERS < u64::MAX,
        spaced(s.engine, times),
        times.len() >= MAX_ATTEMPTS,
    ensures
        forall|q: u64| !#[trigger] after_ticks(s, times).waiters.contains_key(q),
{
    lemma_after_ticks(s, times);
    law_time_drains(s.engine, times);
    let end = after_ticks(s, times);
    assert forall|q: u64| !#[trigger] end.waiters.contains_key(q) by {
        assert(end.waiters.contains_key(q) <==> is_open(end.engine, q));
    }
}

/// A new service waits for nobody.
pub proof fn law_new_service_waits_for_nobody(s: ServiceView, seed: u64, hostname: Option<Labels>, config: ConfigView)
    requires
        s.engine == (State { hostname, ..initial(seed) }),
        s.waiters == Map::<u64, WaiterView>::empty(),
    ensures
        consistent(settings_taken(s, config)),
{
    law_initial_is_sound(seed);
    law_configuration_is_sound(initial(seed), s.engine);
    assert forall|q: u64| !#[trigger] is_open(s.engine, q) by {
        assert(!is_open(initial(seed), q));
        assert(dones(Seq::empty(), q) + count(is_open(s.engine, q)) == count(is_open(initial(seed), q)));
    }
    law_fallback_is_sound(s.engine, config.servers, config.search);
    law_configuration_is_sound(s.engine, settings_taken(s, config).engine);
    lemma_same_open(s, settings_taken(s, config));
}

/// What is not permitted is told so, and nothing else happens.
pub proof fn law_denied_requests_change_nothing(s: ServiceView, client: u64, ask: Ask, netd: bool, now: Instant)
    ensures
        requested(s, client, ask, false, netd, now) == (s, told(client, ReplyView::Error("access denied"@))),
{
}

} // verus!

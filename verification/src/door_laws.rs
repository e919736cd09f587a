//! What the doors do with what they are asked, and what the network is sent.
use crate::addr::ip_text;
use crate::control::{default_rights, progressed, request_in, ProgressView, Trustee, CLIENT_TIMEOUT};
use crate::dns::layout::{lemma_two, two};
use crate::dns::name::{name_text, Labels};
use crate::dns::record::{rdata_bytes, rdata_text, RecordView};
use crate::engine::answer::{AddressesView, AnswerView, Source};
use crate::engine::model::{looked_up, resolved, reversed, ActionView, Actions, CompletionView, State};
use crate::engine::scope::ScopeView;
use crate::engine;
use crate::protocol::{dec_ask, enc_reply, frame, AddressOutView, Ask, Family, ReplyView, Validation};
use crate::render::{addresses_out, answer_out, demoted_among, record_out, scope_out, status_out};
use crate::service::{
    carried_out, configured, informed, native_read, performed, queried, requested, wait_of, OutputView,
    Outputs, ServiceView, WaiterView, Waiters,
};
use crate::snapshot::{machine_name, scopes_of, SnapshotView};
use crate::stream::{expiry, fresh_clients, ClientView, ReadView};
use crate::stub::{answer_bytes, OriginView, TCP_TIMEOUT};
use crate::text::{chars, dec};
use crate::time::Instant;
use crate::upstream::{
    after_datagram, after_read, after_ready, after_write, opened, wants_to_write, work, AfterView, EventView,
    ExchangeView, Exchanges, WorkView, Write,
};
use vstd::prelude::*;
use vstd::utf8::*;

verus! {

// Rights.

/// By default the system and its administrators may do everything, and everyone
/// may ask and read who may do what.
pub proof fn law_default_rights(read_control: u32)
    ensures
        default_rights(read_control).len() == 3,
        default_rights(read_control)[0] == (Trustee::System, 0x000f_0003u32),
        default_rights(read_control)[1] == (Trustee::Administrators, 0x000f_0003u32),
        default_rights(read_control)[2] == (Trustee::Everyone, 1u32 | read_control),
{
}

// Requests.

/// What has arrived is a request once it is as long as its first four bytes say,
/// the first counting least: the one that the bytes behind them are. It is refused
/// where they say more than 65536, and where the bytes are none.
pub proof fn law_requests_arrive(b: Seq<u8>)
    ensures
        b.len() < 4 ==> request_in(b) is Incomplete,
        b.len() >= 4 ==> ({
            let n = b[0] + b[1] * 256 + b[2] * 65536 + b[3] * 16777216;
            &&& n > 65536 ==> request_in(b) == ProgressView::Closed(
                Some(frame(enc_reply(ReplyView::Error("request too large"@)))),
            )
            &&& n <= 65536 && b.len() < 4 + n ==> request_in(b) is Incomplete
            &&& n <= 65536 && b.len() >= 4 + n ==> match dec_ask(b.subrange(4, 4 + n)) {
                Ok(a) => request_in(b) == ProgressView::Request(a),
                Err(e) => request_in(b) == ProgressView::Closed(Some(frame(enc_reply(ReplyView::Error(e.text()))))),
            }
        }),
{
}

/// What is read of a connection goes behind what was read before it; a connection
/// that ends or fails is closed without a word, and one that sends too much with
/// one. What it comes to is seen when there is no more for now.
pub proof fn law_connections_are_read(c: ClientView, chunk: Seq<u8>)
    ensures
        c.buf.len() + chunk.len() <= 65540 ==> progressed(c, ReadView::Bytes(chunk)) == (
            ClientView { buf: c.buf + chunk, since: c.since },
            ProgressView::Again,
        ),
        c.buf.len() + chunk.len() > 65540 ==> progressed(c, ReadView::Bytes(chunk)).1 == ProgressView::Closed(
            Some(frame(enc_reply(ReplyView::Error("request too large"@)))),
        ),
        progressed(c, ReadView::End).1 == ProgressView::Closed(None),
        progressed(c, ReadView::Error).1 == ProgressView::Closed(None),
        progressed(c, ReadView::Interrupted) == (c, ProgressView::Again),
        progressed(c, ReadView::WouldBlock) == (c, request_in(c.buf)),
{
}

/// Only a connection that is there is read; one that goes on is kept with what it
/// sent, and one that is over, or has sent its request, is not.
pub proof fn law_native_connections(s: ServiceView, id: u64, read: ReadView)
    ensures
        !s.clients.contains_key(id) ==> native_read(s, id, read) == (s, ProgressView::Incomplete),
        s.clients.contains_key(id) ==> ({
            let (c, p) = progressed(s.clients[id], read);
            let (s1, q) = native_read(s, id, read);
            &&& q == p
            &&& s1.engine == s.engine
            &&& s1.waiters == s.waiters
            &&& p is Again ==> s1.clients == s.clients.insert(id, c)
            &&& p is Incomplete ==> s1.clients == s.clients
            &&& p is Request || p is Closed ==> s1.clients == s.clients.remove(id)
        }),
{
}

/// A connection is given up once it has sat for its time, and not before; the
/// others stay as they are.
pub proof fn law_stale_connections(c: Map<u64, ClientView>, now: Instant, timeout: u64, id: u64)
    ensures
        fresh_clients(c, now, timeout).contains_key(id) <==> c.contains_key(id) && now < c[id].since + timeout,
        fresh_clients(c, now, timeout).contains_key(id) ==> fresh_clients(c, now, timeout)[id] == c[id],
        c[id].since + timeout <= u64::MAX ==> expiry(c[id].since, timeout) == c[id].since + timeout,
{
}

/// A native client has five seconds to send its request, and one of the stub door
/// ten.
pub proof fn law_time_to_ask(c: Map<u64, ClientView>, now: Instant, id: u64)
    ensures
        fresh_clients(c, now, CLIENT_TIMEOUT).contains_key(id) <==> c.contains_key(id) && now < c[id].since
            + 5_000_000_000,
        fresh_clients(c, now, TCP_TIMEOUT).contains_key(id) <==> c.contains_key(id) && now < c[id].since
            + 10_000_000_000,
{
}

/// What is permitted is done: a question is put to the engine with what it says,
/// and its asker waits under the next number; a flush empties the cache and changes
/// nothing else of it; and the state is told as it is.
pub proof fn law_requests_are_done(s: ServiceView, client: u64, now: Instant, netd: bool)
    ensures
        forall|name: Seq<char>, rtype: u16, no_cache: bool|
            is_put(
                s,
                client,
                requested(s, client, Ask::Resolve { name, rtype, no_cache }, true, netd, now),
                #[trigger] resolved(s.engine, s.next_id, encode_utf8(name), rtype, no_cache, now),
            ),
        forall|name: Seq<char>|
            {
                let any = requested(s, client, Ask::Lookup { name, family: Family::Any }, true, netd, now);
                let v4 = requested(s, client, Ask::Lookup { name, family: Family::V4 }, true, netd, now);
                let v6 = requested(s, client, Ask::Lookup { name, family: Family::V6 }, true, netd, now);
                let text = #[trigger] encode_utf8(name);
                &&& is_put(s, client, any, looked_up(s.engine, s.next_id, text, engine::Family::Any, now))
                &&& is_put(s, client, v4, looked_up(s.engine, s.next_id, text, engine::Family::V4, now))
                &&& is_put(s, client, v6, looked_up(s.engine, s.next_id, text, engine::Family::V6, now))
            },
        forall|address: Seq<u8>|
            is_put(
                s,
                client,
                #[trigger] requested(s, client, Ask::Reverse { address }, true, netd, now),
                reversed(s.engine, s.next_id, address, now),
            ),
        ({
            let (s1, out) = requested(s, client, Ask::Flush, true, netd, now);
            &&& s1.engine == (State { cache: Seq::empty(), ..s.engine })
            &&& s1.waiters == s.waiters
            &&& out == seq![OutputView::Native { client, frame: frame(enc_reply(ReplyView::Okay)) }]
        }),
        ({
            let (s1, out) = requested(s, client, Ask::Status, true, netd, now);
            &&& s1.engine == s.engine
            &&& s1.waiters == s.waiters
            &&& out == seq![
                OutputView::Native {
                    client,
                    frame: frame(enc_reply(ReplyView::Status(status_out(s.engine, netd, now)))),
                },
            ]
        }),
{
}

/// Whether a question was put to the engine for a client, who waits for it.
pub open spec fn is_put(
    s: ServiceView,
    client: u64,
    done: (ServiceView, Outputs),
    step: (State, Actions),
) -> bool {
    let w = s.waiters.insert(s.next_id, WaiterView::Native(client));
    &&& done.0.engine == step.0
    &&& (done.0.waiters, done.1) == performed(w, step.1)
    &&& done.0.next_id == (s.next_id + 1) as u64
    &&& done.0.clients == s.clients
    &&& done.0.config == s.config
}

/// A query at the stub door is put to the engine with the name and the type of its
/// question, and may be answered from the cache; whoever sent it waits.
pub proof fn law_queries_are_put(s: ServiceView, origin: OriginView, now: Instant)
    requires
        origin.query().questions.len() == 1,
    ensures
        ({
            let q = origin.query().questions[0];
            let step = resolved(s.engine, s.next_id, name_text(q.name), q.rtype, false, now);
            let w = s.waiters.insert(s.next_id, WaiterView::Stub(origin));
            let (s1, out) = queried(s, origin, now);
            &&& s1.engine == step.0
            &&& (s1.waiters, out) == performed(w, step.1)
        }),
{
}

// What the engine asks for.

/// What is sent or given up among outputs.
pub open spec fn to_servers(o: OutputView) -> Option<ActionView> {
    match o {
        OutputView::Send { tx, server, tcp, payload } => Some(ActionView::Send { tx, server, tcp, payload }),
        OutputView::Cancel { tx } => Some(ActionView::Cancel { tx }),
        _ => None,
    }
}

/// Every query and every end of one that the engine asks for is passed on as it
/// is, in order, and no other.
pub proof fn law_servers_are_sent_what_is_asked(w: Waiters, a: Actions)
    ensures
        performed(w, a).1.filter_map(|o: OutputView| to_servers(o)) == a.filter(|x: ActionView| !(x is Done)),
    decreases a.len(),
{
    reveal(Seq::filter);
    let f = |o: OutputView| to_servers(o);
    if a.len() == 0 {
        assert(performed(w, a).1.filter_map(f) =~= Seq::empty());
    } else {
        law_servers_are_sent_what_is_asked(w, a.drop_last());
        let (w1, before) = performed(w, a.drop_last());
        let (w2, more) = carried_out(w1, a.last());
        let all = performed(w, a).1;
        assert(all == before + more);
        assert(a =~= a.drop_last().push(a.last()));
        if more.len() == 0 {
            assert(all =~= before);
        } else {
            assert(more.len() == 1);
            assert(all =~= before.push(more[0]));
            assert(all.drop_last() =~= before);
            assert(all.last() == more[0]);
        }
        assert(all.filter_map(f) =~= a.filter(|x: ActionView| !(x is Done)));
    }
}

/// An answer goes to whoever waits for it, and to nobody else: to a native client
/// as a framed reply, and to a stub client as a message, a datagram to where the
/// query came from or over its connection. Nobody who is answered waits on.
pub proof fn law_answers_reach_their_askers(w: Waiters, qid: u64, a: AnswerView, b: AddressesView)
    ensures
        w.contains_key(qid) ==> ({
            let done = ActionView::Done { qid, completion: CompletionView::Answer(a) };
            let (w1, out) = carried_out(w, done);
            &&& w1 == w.remove(qid)
            &&& match w[qid] {
                WaiterView::Native(client) => out == seq![
                    OutputView::Native { client, frame: frame(enc_reply(ReplyView::Answer(answer_out(a)))) },
                ],
                WaiterView::Stub(OriginView::Udp { peer, query }) => match answer_bytes(
                    OriginView::Udp { peer, query },
                    a,
                ) {
                    Some(bytes) => out == seq![OutputView::Udp { peer, bytes }],
                    None => out.len() == 0,
                },
                WaiterView::Stub(OriginView::Tcp { client, query }) => out == seq![
                    OutputView::Tcp { client, frame: answer_bytes(OriginView::Tcp { client, query }, a) },
                ],
            }
        }),
        w.contains_key(qid) && w[qid] is Native ==> carried_out(
            w,
            ActionView::Done { qid, completion: CompletionView::Addresses(b) },
        ) == (
            w.remove(qid),
            seq![
                OutputView::Native {
                    client: w[qid]->Native_0,
                    frame: frame(enc_reply(ReplyView::Addresses(addresses_out(b)))),
                },
            ],
        ),
        !w.contains_key(qid) ==> carried_out(w, ActionView::Done { qid, completion: CompletionView::Answer(a) }) == (
            w,
            Seq::<OutputView>::empty(),
        ),
{
}

// Settings.

/// What the network daemon says takes the place of what was: its interfaces, each
/// of them, and the machine's name.
pub proof fn law_what_is_said_is_taken(s: ServiceView, said: SnapshotView, kernel: Option<Seq<char>>)
    ensures
        informed(s, said, kernel).engine.scopes == scopes_of(said.scopes),
        informed(s, said, kernel).engine.hostname == match machine_name(said.hostname, kernel) {
            Some(t) => crate::engine::model::hostname_of(Some(encode_utf8(t))),
            None => None,
        },
        informed(s, said, kernel).engine.hosts == s.engine.hosts,
        informed(s, said, kernel).engine.fallback_servers == s.engine.fallback_servers,
        informed(s, said, kernel).config == s.config,
{
}

/// Settings that say something else take the place of those that were.
pub proof fn law_settings_are_taken(s: ServiceView, fresh: crate::config::ConfigView)
    ensures
        !crate::config::same_config(fresh, s.config) ==> ({
            let t = configured(s, fresh);
            &&& t.engine.hosts == fresh.hosts
            &&& t.engine.fallback_servers == fresh.servers
            &&& t.engine.fallback_domains == fresh.search
            &&& t.config == fresh
            &&& t.engine.scopes == s.engine.scopes
            &&& t.engine.hostname == s.engine.hostname
        }),
        crate::config::same_config(fresh, s.config) ==> configured(s, fresh) == s,
{
}

// Waiting.

/// One waits until the moment comes, in whole milliseconds: not at all where it has
/// come, and without end where there is none.
pub proof fn law_waits(t: Instant, now: Instant)
    ensures
        wait_of(None, now) == -1,
        t <= now ==> wait_of(Some(t), now) == 0,
        now < t && t - now < 2147483648 * 1_000_000 ==> ({
            let ms = wait_of(Some(t), now);
            0 <= ms && ms * 1_000_000 <= t - now < (ms + 1) * 1_000_000
        }),
        now < t && t - now >= 2147483648 * 1_000_000 ==> wait_of(Some(t), now) == 2147483647,
{
}

// Upstream.

/// A datagram is awaited as soon as it is sent. Over a stream the query goes behind
/// its length in two bytes, from its first byte on.
pub proof fn law_exchanges_open(payload: Seq<u8>)
    requires
        payload.len() <= 0xffff,
    ensures
        opened(false, payload) is Datagram,
        opened(true, payload) matches ExchangeView::Sending { frame: f, sent } && sent == 0 && f.len() == payload.len()
            + 2 && two(f, 0) == payload.len() && f.skip(2) == payload,
        wants_to_write(opened(true, payload)),
        !wants_to_write(opened(false, payload)),
{
    let f = crate::stream::tcp_framed(payload);
    crate::octets::lemma_be_round_trip(payload.len(), 2);
    crate::octets::lemma_pow256();
    lemma_two(f, 0);
    assert(f.subrange(0, 2) =~= crate::octets::be_bytes(payload.len(), 2));
    assert(f.skip(2) =~= payload);
}

/// What an exchange does next goes by how far it is: a datagram is received, what
/// is left of a query is written, and once all of it is out the reply is read.
pub proof fn law_exchanges_go_on(m: Exchanges, tx: u64, n: usize)
    requires
        m.contains_key(tx),
    ensures
        m[tx] is Datagram ==> work(m, tx, false) is Receive && work(m, tx, true) is Receive,
        m[tx] is Receiving ==> work(m, tx, false) is Read && work(m, tx, true) is Read,
        m[tx] matches ExchangeView::Sending { frame: f, sent } ==> {
            &&& work(m, tx, false) == (WorkView::Write { first: sent == 0, bytes: f.skip(sent as int) })
            &&& work(m, tx, true) is Fail
            &&& after_ready(m, tx, true) == m.remove(tx)
            &&& after_ready(m, tx, false) == m
            &&& sent + n < f.len() ==> after_write(m, tx, Write::Wrote(n)) == (
                m.insert(tx, ExchangeView::Sending { frame: f, sent: (sent + n) as nat }),
                AfterView::Wait,
            )
            &&& sent + n == f.len() ==> after_write(m, tx, Write::Wrote(n)) == (
                m.insert(tx, ExchangeView::Receiving { buf: Seq::empty() }),
                AfterView::Wait,
            )
            &&& after_write(m, tx, Write::Error) == (m.remove(tx), AfterView::Over(EventView::Failed))
            &&& after_write(m, tx, Write::WouldBlock) == (m, AfterView::Wait)
        },
{
}

/// A datagram that arrives is the reply; a socket that fails ends the exchange, and
/// one with nothing yet goes on waiting.
pub proof fn law_datagrams_are_received(m: Exchanges, tx: u64, b: Seq<u8>)
    requires
        m.contains_key(tx),
    ensures
        after_datagram(m, tx, ReadView::Bytes(b)) == (m.remove(tx), AfterView::Over(EventView::Received(b))),
        after_datagram(m, tx, ReadView::WouldBlock) == (m, AfterView::Wait),
        after_datagram(m, tx, ReadView::Error) == (m.remove(tx), AfterView::Over(EventView::Failed)),
        after_datagram(m, tx, ReadView::End) == (m.remove(tx), AfterView::Over(EventView::Failed)),
{
}

/// What a stream gives goes behind what it gave before; when there is no more for
/// now, the message is taken once it is as long as its first two bytes say. A
/// server that closes or fails before has failed.
pub proof fn law_streams_are_received(m: Exchanges, tx: u64, b: Seq<u8>)
    requires
        m.contains_key(tx),
        m[tx] is Receiving,
    ensures
        ({
            let buf = m[tx]->buf;
            &&& after_read(m, tx, ReadView::Bytes(b)) == (
                m.insert(tx, ExchangeView::Receiving { buf: buf + b }),
                AfterView::Again,
            )
            &&& after_read(m, tx, ReadView::Interrupted) == (m, AfterView::Again)
            &&& after_read(m, tx, ReadView::End) == (m.remove(tx), AfterView::Over(EventView::Failed))
            &&& after_read(m, tx, ReadView::Error) == (m.remove(tx), AfterView::Over(EventView::Failed))
            &&& buf.len() >= 2 && buf.len() >= 2 + two(buf, 0) ==> after_read(m, tx, ReadView::WouldBlock) == (
                m.remove(tx),
                AfterView::Over(EventView::Received(buf.subrange(2, 2 + two(buf, 0)))),
            )
            &&& buf.len() < 2 || buf.len() < 2 + two(buf, 0) ==> after_read(m, tx, ReadView::WouldBlock) == (
                m,
                AfterView::Wait,
            )
        }),
{
    let buf = m[tx]->buf;
    if buf.len() >= 2 {
        lemma_two(buf, 0);
        assert(buf.take(2) =~= buf.subrange(0, 2));
    }
}

// Reports.

/// A record is reported with its own name, type, time and data, the data both as
/// it is and as text.
pub proof fn law_records_are_reported(r: RecordView)
    ensures
        record_out(r).name == chars(name_text(r.name)),
        record_out(r).rtype == r.rtype,
        record_out(r).ttl == r.ttl,
        record_out(r).data == rdata_bytes(r.rdata),
        record_out(r).text == rdata_text(r.rdata),
{
}

/// The word for where an answer came from.
pub open spec fn source_word(s: Source) -> Seq<char> {
    match s {
        Source::Local => "local"@,
        Source::Synthetic => "synthetic"@,
        Source::Hosts => "hosts"@,
        Source::Cache => "cache"@,
        Source::Dns => "dns"@,
    }
}

/// An answer is reported with every record in order, and with where it came from;
/// and never as checked.
pub proof fn law_answers_are_reported(a: AnswerView, b: AddressesView)
    ensures
        ({
            let r = answer_out(a);
            &&& r.outcome == a.outcome
            &&& r.records == a.records.map_values(|x: RecordView| record_out(x))
            &&& r.source == source_word(a.source)
            &&& a.server is None ==> r.server is None
            &&& a.server matches Some(s) ==> r.server == Some(chars(ip_text(s)))
            &&& r.interface == a.interface
            &&& r.rcode == a.rcode
            &&& r.validation == Validation::Unvalidated
        }),
        ({
            let r = addresses_out(b);
            &&& r.outcome == b.outcome
            &&& r.canonical == chars(name_text(b.canonical))
            &&& r.addresses == b.addresses.map_values(
                |x: (Seq<u8>, u32)| AddressOutView { address: x.0, ttl: x.1 },
            )
            &&& r.source == source_word(b.source)
            &&& r.validation == Validation::Unvalidated
        }),
{
    assert(answer_out(a).records =~= a.records.map_values(|x: RecordView| record_out(x)));
    assert(addresses_out(b).addresses =~= b.addresses.map_values(
        |x: (Seq<u8>, u32)| AddressOutView { address: x.0, ttl: x.1 },
    ));
}

proof fn lemma_demoted(s: Seq<Seq<u8>>, m: Map<Seq<u8>, Instant>, now: Instant)
    ensures
        demoted_among(s, m, now) == s.filter_map(
            |a: Seq<u8>|
                if m.contains_key(a) && now < m[a] {
                    Some(chars(ip_text(a)))
                } else {
                    None
                },
        ),
    decreases s.len(),
{
    let f = |a: Seq<u8>|
        if m.contains_key(a) && now < m[a] {
            Some(chars(ip_text(a)))
        } else {
            None
        };
    if s.len() > 0 {
        lemma_demoted(s.drop_last(), m, now);
        assert(demoted_among(s, m, now) =~= s.filter_map(f));
    }
}

/// An interface is reported with everything that is known of it, in order, and with
/// those of its servers that are demoted for now.
pub proof fn law_interfaces_are_reported(s: ScopeView, m: Map<Seq<u8>, Instant>, now: Instant)
    ensures
        ({
            let r = scope_out(s, m, now);
            &&& r.interface == s.interface
            &&& r.servers == s.servers.map_values(|a: Seq<u8>| chars(ip_text(a)))
            &&& r.domains == s.domains.map_values(|n: Labels| chars(name_text(n)))
            &&& r.default_route == s.default_route
            &&& r.exclusive == s.exclusive
            &&& r.metric == s.metric
            &&& r.subnets == s.addresses.map_values(
                |p: (Seq<u8>, u8)| chars(ip_text(p.0)) + seq!['/'] + chars(dec(p.1 as nat)),
            )
            &&& r.demoted == s.servers.filter_map(
                |a: Seq<u8>|
                    if m.contains_key(a) && now < m[a] {
                        Some(chars(ip_text(a)))
                    } else {
                        None
                    },
            )
        }),
{
    let r = scope_out(s, m, now);
    lemma_demoted(s.servers, m, now);
    reveal_strlit("/");
    assert("/"@ =~= seq!['/']);
    assert(r.servers =~= s.servers.map_values(|a: Seq<u8>| chars(ip_text(a))));
    assert(r.domains =~= s.domains.map_values(|n: Labels| chars(name_text(n))));
    assert(r.subnets =~= s.addresses.map_values(
        |p: (Seq<u8>, u8)| chars(ip_text(p.0)) + seq!['/'] + chars(dec(p.1 as nat)),
    ));
}

/// The state is reported as it is.
pub proof fn law_state_is_reported(s: State, netd: bool, now: Instant)
    ensures
        ({
            let r = status_out(s, netd, now);
            &&& s.hostname is None ==> r.hostname.len() == 0
            &&& s.hostname matches Some(n) ==> r.hostname == chars(name_text(n))
            &&& r.netd == netd
            &&& r.scopes == s.scopes.map_values(|x: ScopeView| scope_out(x, s.demoted, now))
            &&& r.fallback_servers == s.fallback_servers.map_values(|a: Seq<u8>| chars(ip_text(a)))
            &&& s.cache.len() <= u64::MAX ==> r.cache_entries == s.cache.len()
            &&& r.counters.queries == s.counters.queries
            &&& r.counters.synthetic == s.counters.synthetic
            &&& r.counters.cache_hits == s.counters.cache_hits
            &&& r.counters.upstream_sent == s.counters.upstream_sent
            &&& r.counters.upstream_answered == s.counters.upstream_answered
            &&& r.counters.upstream_failed == s.counters.upstream_failed
            &&& r.counters.refused == s.counters.refused
        }),
{
    let r = status_out(s, netd, now);
    assert(r.scopes =~= s.scopes.map_values(|x: ScopeView| scope_out(x, s.demoted, now)));
    assert(r.fallback_servers =~= s.fallback_servers.map_values(|a: Seq<u8>| chars(ip_text(a))));
}

} // verus!

//! The stub door: DNS itself on a loopback address, UDP and TCP.
//!
//! For everything that speaks DNS directly. Every query here runs the same
//! engine as the native door, single-label expansion included; the door is
//! different, the answer is not.
use crate::addr::{is_loopback, IpAddr};
use crate::dns::header::{flags, header_of, no_header, Header};
use crate::dns::laws::{law_decoded_is_well_formed, law_encode_decode, normal, record_fits, records_fit, well_formed};
use crate::dns::message::{
    decode, encode, encode_udp, no_message, questions_bytes, read_question, read_questions, records_bytes, reply_to,
    truncated, MessageView,
};
use crate::dns::name::{lemma_name_bytes_len, lemma_read_valid, same_name, valid_name};
use crate::dns::record::{
    get_u16, opt_record, record_in, records_view, u16_at, RDataView, RecordView,
};
use crate::dns::{rcode, Error, Message, RData, Record, EDNS_UDP_SIZE, MAX_MESSAGE_SIZE};
use crate::engine::answer::{least_seconds, least_ttl, AnswerView};
use crate::engine::Answer;
use crate::octets::{be_value, lemma_be_round_trip, push_all};
use crate::protocol::Outcome;
use crate::stream::{
    drop_stale, fresh_clients, is_next_expiry, next_expiry, sat_too_long, silent, tcp_frame, tcp_framed, tcp_message,
    tcp_message_in, Client, ClientView, Read, ReadView,
};
use crate::table::{numbers, Table};
use crate::time::{Duration, Instant};
use vstd::prelude::*;

verus! {

/// A TCP client has this long to send a query and read its answer.
pub const TCP_TIMEOUT: Duration = 10_000_000_000;

/// The bytes of a message, where it fits.
pub open spec fn encoded(m: MessageView) -> Option<Seq<u8>> {
    match encode(m) {
        Ok(b) => Some(b),
        Err(_) => None,
    }
}

pub open spec fn opt_bytes(v: Option<Vec<u8>>) -> Option<Seq<u8>> {
    match v {
        Some(v) => Some(v@),
        None => None,
    }
}

fn encoding(m: &Message) -> (r: Option<Vec<u8>>)
    ensures
        opt_bytes(r) == encoded(m@),
{
    match m.encode() {
        Ok(b) => Some(b),
        Err(_) => None,
    }
}

/// What bytes with a header and nothing readable behind it are told.
pub open spec fn unreadable_reply(id: u16) -> MessageView {
    MessageView {
        header: Header { id, response: true, rcode: rcode::FORMERR, ..no_header() },
        ..no_message()
    }
}

/// What a query that is refused is told.
pub open spec fn error_reply(query: MessageView, code: u8) -> MessageView {
    let r = reply_to(query);
    MessageView {
        header: Header { rcode: code, ..r.header },
        additional: match query.opt() {
            Some(opt) => seq![RecordView { class: opt.class, ..opt_record(EDNS_UDP_SIZE, false) }],
            None => Seq::empty(),
        },
        ..r
    }
}

/// A query, or the error reply that the bytes deserve. What is not even
/// answerable deserves none: what is too short for a header, and what says that
/// it is a response, whether it decodes or not.
pub open spec fn parsed(bytes: Seq<u8>) -> Result<MessageView, Option<Seq<u8>>> {
    match decode(bytes) {
        Err(_) => if bytes.len() >= 12 && bytes[2] < 0x80 {
            Err(encoded(unreadable_reply(u16_at(bytes, 0))))
        } else {
            Err(None)
        },
        Ok(m) => if m.header.response {
            Err(None)
        } else if m.header.opcode != 0 {
            Err(encoded(error_reply(m, rcode::NOTIMP)))
        } else if m.question() is None {
            Err(encoded(error_reply(m, rcode::FORMERR)))
        } else {
            Ok(m)
        },
    }
}

fn refusal(query: &Message, code: u8) -> (r: Option<Vec<u8>>)
    ensures
        opt_bytes(r) == encoded(error_reply(query@, code)),
{
    let mut m = Message::reply_to(query);
    m.header.rcode = code;
    if let Some(opt) = query.opt() {
        let mut record = Record::opt(EDNS_UDP_SIZE, false);
        record.class = opt.class;
        let ghost one = record@;
        m.additional.push(record);
        assert(records_view(m.additional@) =~= seq![one]);
    }
    assert(m@ =~= error_reply(query@, code));
    encoding(&m)
}

/// Decode a query, or produce the error reply it deserves.
pub fn parse_query(bytes: &[u8]) -> (r: Result<Message, Option<Vec<u8>>>)
    ensures
        match r {
            Ok(m) => parsed(bytes@) == Ok::<MessageView, Option<Seq<u8>>>(m@),
            Err(e) => parsed(bytes@) == Err::<MessageView, Option<Seq<u8>>>(opt_bytes(e)),
        },
{
    let message = match Message::decode(bytes) {
        Ok(m) => m,
        Err(_) => {
            // Enough of a header to echo the id back, and it is a query's.
            if bytes.len() < 12 || bytes[2] >= 0x80 {
                return Err(None);
            }
            let mut m = Message::default();
            m.header.id = get_u16(bytes, 0);
            m.header.response = true;
            m.header.rcode = rcode::FORMERR;
            assert(m@ =~= unreadable_reply(u16_at(bytes@, 0)));
            return Err(encoding(&m));
        },
    };
    if message.header.response {
        return Err(None);
    }
    if message.header.opcode != 0 {
        return Err(refusal(&message, rcode::NOTIMP));
    }
    if message.question().is_none() {
        return Err(refusal(&message, rcode::FORMERR));
    }
    Ok(message)
}

/// The alias that leads from what was asked to where the answer is, where
/// these are different names.
pub open spec fn leading_alias(query: MessageView, answer: AnswerView) -> Seq<RecordView> {
    match (query.question(), answer.resolved_name) {
        (Some(q), Some(resolved)) => if !same_name(q.name, resolved) && answer.records.len() > 0 {
            seq![record_in(q.name, least_ttl(answer.records, u32::MAX), RDataView::Cname(resolved))]
        } else {
            Seq::empty()
        },
        _ => Seq::empty(),
    }
}

/// The code that an outcome is.
pub open spec fn code_of(outcome: Outcome) -> u8 {
    match outcome {
        Outcome::Found => rcode::NOERROR,
        Outcome::NotFound => rcode::NXDOMAIN,
        Outcome::Unavailable => rcode::SERVFAIL,
    }
}

/// The DNS rendering of an engine answer.
pub open spec fn rendered(query: MessageView, answer: AnswerView) -> MessageView {
    let r = reply_to(query);
    MessageView {
        header: Header { rcode: code_of(answer.outcome), ..r.header },
        answers: if answer.outcome == Outcome::Found {
            leading_alias(query, answer) + answer.records
        } else {
            Seq::empty()
        },
        additional: if query.opt() is Some {
            seq![opt_record(EDNS_UDP_SIZE, false)]
        } else {
            Seq::empty()
        },
        ..r
    }
}

pub fn build_reply(query: &Message, answer: &Answer) -> (reply: Message)
    ensures
        reply@ == rendered(query@, answer@),
{
    let mut reply = Message::reply_to(query);
    match answer.outcome {
        Outcome::Found => {
            reply.header.rcode = rcode::NOERROR;
            // The answer may be at an expanded name; say so with an alias, so
            // that a client that checks names sees a well-formed chain.
            if let (Some(q), Some(resolved)) = (query.question(), &answer.resolved_name) {
                if !(q.name == *resolved) && answer.records.len() > 0 {
                    let ttl: u32 = least_seconds(&answer.records, u32::MAX);
                    reply.answers.push(Record::new(q.name.clone(), ttl, RData::Cname(resolved.clone())));
                }
            }
            assert(records_view(reply.answers@) =~= leading_alias(query@, answer@));
            let mut i: usize = 0;
            let ghost alias = leading_alias(query@, answer@);
            let ghost r = reply@;
            while i < answer.records.len()
                invariant
                    i <= answer.records@.len(),
                    reply@ == (MessageView { answers: alias + answer@.records.take(i as int), ..r }),
                decreases answer.records@.len() - i,
            {
                let ghost before = records_view(reply.answers@);
                let ghost one = answer.records@[i as int]@;
                reply.answers.push(answer.records[i].clone());
                assert(records_view(reply.answers@) =~= before.push(one));
                assert(alias + answer@.records.take(i + 1) =~= before.push(one));
                i += 1;
            }
            assert(answer@.records.take(i as int) =~= answer@.records);
        },
        Outcome::NotFound => reply.header.rcode = rcode::NXDOMAIN,
        Outcome::Unavailable => reply.header.rcode = rcode::SERVFAIL,
    }
    if query.opt().is_some() {
        let opt = Record::opt(EDNS_UDP_SIZE, false);
        let ghost one = opt@;
        reply.additional.push(opt);
        assert(records_view(reply.additional@) =~= seq![one]);
    }
    assert(reply@ =~= rendered(query@, answer@));
    reply
}

// The door.

/// Where a datagram came from.
#[derive(Debug, Clone, Copy)]
pub struct Peer {
    pub addr: IpAddr,
    pub port: u16,
}

pub struct PeerView {
    pub addr: Seq<u8>,
    pub port: u16,
}

impl View for Peer {
    type V = PeerView;

    open spec fn view(&self) -> PeerView {
        PeerView { addr: self.addr@, port: self.port }
    }
}

/// Where a stub query came from, so its answer can go back. A TCP client is
/// known by the number it was accepted under.
#[derive(Debug)]
pub enum Origin {
    Udp { peer: Peer, query: Message },
    Tcp { client: u64, query: Message },
}

pub enum OriginView {
    Udp { peer: PeerView, query: MessageView },
    Tcp { client: u64, query: MessageView },
}

impl View for Origin {
    type V = OriginView;

    open spec fn view(&self) -> OriginView {
        match self {
            Origin::Udp { peer, query } => OriginView::Udp { peer: peer@, query: query@ },
            Origin::Tcp { client, query } => OriginView::Tcp { client: *client, query: query@ },
        }
    }
}

impl OriginView {
    pub open spec fn query(self) -> MessageView {
        match self {
            OriginView::Udp { peer: _, query } => query,
            OriginView::Tcp { client: _, query } => query,
        }
    }
}

#[derive(Debug)]
pub enum Incoming {
    /// A well-formed query to resolve.
    Query { origin: Origin },
    /// Bytes that go straight back.
    Reply { bytes: Vec<u8> },
    /// Nothing to do.
    Nothing,
}

pub enum IncomingView {
    Query { origin: OriginView },
    Reply { bytes: Seq<u8> },
    Nothing,
}

impl View for Incoming {
    type V = IncomingView;

    open spec fn view(&self) -> IncomingView {
        match self {
            Incoming::Query { origin } => IncomingView::Query { origin: origin@ },
            Incoming::Reply { bytes } => IncomingView::Reply { bytes: bytes@ },
            Incoming::Nothing => IncomingView::Nothing,
        }
    }
}

/// What servicing a TCP client came to.
#[derive(Debug)]
pub enum Serviced {
    /// Read on.
    Again,
    /// Nothing more for now.
    Wait,
    /// The connection has left the table.
    Over(Incoming),
}

pub enum ServicedView {
    Again,
    Wait,
    Over(IncomingView),
}

impl View for Serviced {
    type V = ServicedView;

    open spec fn view(&self) -> ServicedView {
        match self {
            Serviced::Again => ServicedView::Again,
            Serviced::Wait => ServicedView::Wait,
            Serviced::Over(i) => ServicedView::Over(i@),
        }
    }
}

/// The connections of the door that are still reading a query.
#[derive(Debug)]
pub struct Stub {
    clients: Table<Client>,
    next_client: u64,
}

#[verifier::ext_equal]
pub struct StubView {
    pub clients: Map<u64, ClientView>,
    pub next_client: u64,
}

impl View for Stub {
    type V = StubView;

    closed spec fn view(&self) -> StubView {
        StubView { clients: self.clients@, next_client: self.next_client }
    }
}

/// A datagram at the door. Only loopback may ask.
pub open spec fn datagram(peer: PeerView, bytes: Seq<u8>) -> IncomingView {
    if !is_loopback(peer.addr) {
        IncomingView::Nothing
    } else {
        match parsed(bytes) {
            Ok(query) => IncomingView::Query { origin: OriginView::Udp { peer, query } },
            Err(Some(bytes)) => IncomingView::Reply { bytes },
            Err(None) => IncomingView::Nothing,
        }
    }
}

/// A whole query of a TCP client.
pub open spec fn over_tcp(client: u64, message: Seq<u8>) -> IncomingView {
    match parsed(message) {
        Ok(query) => IncomingView::Query { origin: OriginView::Tcp { client, query } },
        Err(Some(bytes)) => IncomingView::Reply { bytes: tcp_framed(bytes) },
        Err(None) => IncomingView::Nothing,
    }
}

/// What a read of a client comes to. A client that sends more than any query,
/// or goes away, is dropped.
pub open spec fn serviced(s: StubView, id: u64, read: ReadView) -> (StubView, ServicedView) {
    let gone = StubView { clients: s.clients.remove(id), ..s };
    if !s.clients.contains_key(id) {
        (s, ServicedView::Wait)
    } else {
        match read {
            ReadView::End => (gone, ServicedView::Over(IncomingView::Nothing)),
            ReadView::Error => (gone, ServicedView::Over(IncomingView::Nothing)),
            ReadView::Interrupted => (s, ServicedView::Again),
            ReadView::Bytes(chunk) => {
                let buf = s.clients[id].buf + chunk;
                if buf.len() > 2 + MAX_MESSAGE_SIZE {
                    (gone, ServicedView::Over(IncomingView::Nothing))
                } else {
                    (
                        StubView { clients: s.clients.insert(id, ClientView { buf, ..s.clients[id] }), ..s },
                        ServicedView::Again,
                    )
                }
            },
            ReadView::WouldBlock => match tcp_message_in(s.clients[id].buf) {
                None => (s, ServicedView::Wait),
                Some(message) => (gone, ServicedView::Over(over_tcp(id, message))),
            },
        }
    }
}

/// The bytes that answer a query at its origin: a datagram cut to what the
/// peer takes, or a message with its length in front.
pub open spec fn answer_bytes(origin: OriginView, answer: AnswerView) -> Option<Seq<u8>> {
    match origin {
        OriginView::Udp { peer: _, query } => match encode_udp(rendered(query, answer), query.udp_size() as nat) {
            Ok(b) => Some(b),
            Err(_) => None,
        },
        OriginView::Tcp { client: _, query } => match encode(rendered(query, answer)) {
            Ok(b) => Some(tcp_framed(b)),
            Err(_) => None,
        },
    }
}

impl Stub {
    /// A door that nobody is at.
    pub fn new() -> (r: Stub)
        ensures
            r@ == (StubView { clients: Map::empty(), next_client: 1 }),
    {
        Stub { clients: Table::new(), next_client: 1 }
    }

    pub fn receive_udp(&self, peer: Peer, bytes: &[u8]) -> (r: Incoming)
        ensures
            r@ == datagram(peer@, bytes@),
    {
        // The address that the door is at decides where a datagram goes; this
        // decides where it came from.
        if !peer.addr.is_loopback() {
            return Incoming::Nothing;
        }
        match parse_query(bytes) {
            Ok(query) => Incoming::Query { origin: Origin::Udp { peer, query } },
            Err(Some(bytes)) => Incoming::Reply { bytes },
            Err(None) => Incoming::Nothing,
        }
    }

    /// A new connection, and the number it has, where its peer may ask.
    pub fn accept(&mut self, peer: &IpAddr, now: Instant) -> (r: Option<u64>)
        requires
            old(self)@.next_client < u64::MAX,
        ensures
            if is_loopback(peer@) {
                &&& r == Some(old(self)@.next_client)
                &&& final(self)@.clients == old(self)@.clients.insert(old(self)@.next_client, silent(now))
                &&& final(self)@.next_client == old(self)@.next_client + 1
            } else {
                r is None && final(self)@ == old(self)@
            },
    {
        if !peer.is_loopback() {
            return None;
        }
        let id: u64 = self.next_client;
        self.next_client = id + 1;
        self.clients.insert(id, Client::new(now));
        Some(id)
    }

    /// Whether there is a number left for another connection.
    pub fn has_numbers(&self) -> (r: bool)
        ensures
            r == (self@.next_client < u64::MAX),
    {
        self.next_client < u64::MAX
    }

    /// The numbers of the connections, in order.
    pub fn client_ids(&self) -> (r: Vec<u64>)
        ensures
            r@ == numbers(self@.clients),
    {
        self.clients.numbers()
    }

    /// Progress a TCP client.
    pub fn service_client(&mut self, id: u64, read: Read) -> (r: Serviced)
        ensures
            (final(self)@, r@) == serviced(old(self)@, id, read@),
    {
        let ghost before = self@;
        let mut client = match self.clients.remove(id) {
            Some(c) => c,
            None => {
                assert(before.clients.remove(id) =~= before.clients);
                return Serviced::Wait;
            },
        };
        let ghost was = client@;
        match read {
            Read::End => Serviced::Over(Incoming::Nothing),
            Read::Error => Serviced::Over(Incoming::Nothing),
            Read::Interrupted => {
                self.clients.insert(id, client);
                assert(before.clients.remove(id).insert(id, was) =~= before.clients);
                Serviced::Again
            },
            Read::Bytes(chunk) => {
                if chunk.len() > 2 + MAX_MESSAGE_SIZE || client.buf.len() > 2 + MAX_MESSAGE_SIZE - chunk.len() {
                    return Serviced::Over(Incoming::Nothing);
                }
                push_all(&mut client.buf, chunk.as_slice());
                self.clients.insert(id, client);
                assert(before.clients.remove(id).insert(id, client@) =~= before.clients.insert(id, client@));
                Serviced::Again
            },
            Read::WouldBlock => match tcp_message(client.buf.as_slice()) {
                None => {
                    self.clients.insert(id, client);
                    assert(before.clients.remove(id).insert(id, was) =~= before.clients);
                    Serviced::Wait
                },
                Some(message) => match parse_query(message.as_slice()) {
                    Ok(query) => Serviced::Over(Incoming::Query { origin: Origin::Tcp { client: id, query } }),
                    Err(Some(bytes)) => {
                        proof {
                            lemma_reply_fits(message@);
                        }
                        Serviced::Over(Incoming::Reply { bytes: tcp_frame(bytes.as_slice()) })
                    },
                    Err(None) => Serviced::Over(Incoming::Nothing),
                },
            },
        }
    }

    /// Answer a query at its origin.
    pub fn answer(&self, origin: &Origin, answer: &Answer) -> (r: Option<Vec<u8>>)
        ensures
            opt_bytes(r) == answer_bytes(origin@, answer@),
    {
        match origin {
            Origin::Udp { peer: _, query } => match build_reply(query, answer).encode_udp(query.udp_size()) {
                Ok(b) => Some(b),
                Err(_) => None,
            },
            Origin::Tcp { client: _, query } => match build_reply(query, answer).encode() {
                Ok(b) => Some(tcp_frame(b.as_slice())),
                Err(_) => None,
            },
        }
    }

    /// Drop TCP clients that have sat too long, and say which.
    pub fn expire(&mut self, now: Instant) -> (gone: Vec<u64>)
        ensures
            final(self)@ == (StubView {
                clients: fresh_clients(old(self)@.clients, now, TCP_TIMEOUT),
                ..old(self)@
            }),
            forall|id: u64| #[trigger]
                gone@.contains(id) <==> old(self)@.clients.contains_key(id) && sat_too_long(
                    old(self)@.clients[id].since,
                    now,
                    TCP_TIMEOUT,
                ),
    {
        drop_stale(&mut self.clients, now, TCP_TIMEOUT)
    }

    /// The next moment `expire` has something to do.
    pub fn next_deadline(&self) -> (r: Option<Instant>)
        ensures
            is_next_expiry(self@.clients, TCP_TIMEOUT, r),
    {
        next_expiry(&self.clients, TCP_TIMEOUT)
    }
}

proof fn lemma_reply_fits(bytes: Seq<u8>)
    ensures
        parsed(bytes) matches Err(Some(reply)) ==> reply.len() <= MAX_MESSAGE_SIZE,
{
}

// What holds of the door.

/// An error reply decodes, with the id of what it answers, as a response, and
/// with the code that says what was wrong.
pub proof fn law_error_replies_decode(bytes: Seq<u8>)
    ensures
        parsed(bytes) matches Err(Some(reply)) ==> (decode(reply) matches Ok(m) && m.header.response && m.header.id
            == u16_at(bytes, 0) && (m.header.rcode == rcode::FORMERR || m.header.rcode == rcode::NOTIMP)
            && m.answers.len() == 0),
{
    if parsed(bytes) matches Err(Some(reply)) {
        match decode(bytes) {
            Err(_) => {
                let m = unreadable_reply(u16_at(bytes, 0));
                law_encode_decode(m);
            },
            Ok(query) => {
                law_decoded_is_well_formed(bytes);
                let code = if query.header.opcode != 0 {
                    rcode::NOTIMP
                } else {
                    rcode::FORMERR
                };
                let m = error_reply(query, code);
                assert(records_fit(m.answers));
                law_encode_decode(m);
            },
        }
    }
}

proof fn lemma_response_bit(bytes: Seq<u8>)
    requires
        bytes.len() >= 4,
    ensures
        header_of(u16_at(bytes, 0), u16_at(bytes, 2)).response <==> bytes[2] >= 0x80,
{
    let two = bytes.subrange(2, 4);
    reveal_with_fuel(be_value, 3);
    assert(two.drop_last() =~= seq![bytes[2]]);
    assert(two.drop_last().drop_last() =~= Seq::<u8>::empty());
    assert(be_value(two) == bytes[2] * 0x100 + bytes[3]);
}

/// Questions take five bytes each at least, and as they are written no more than
/// a name and four.
proof fn lemma_questions_len(msg: Seq<u8>, p: int, n: nat)
    requires
        0 <= p <= msg.len(),
    ensures
        read_questions(msg, p, n) matches Ok((q, end)) ==> q.len() == n && p + 5 * n <= end <= msg.len()
            && questions_bytes(q).len() <= 259 * n,
    decreases n,
{
    if n > 0 {
        lemma_read_valid(msg, p, 0, 0);
        if let Ok((one, next)) = read_question(msg, p) {
            lemma_questions_len(msg, next, (n - 1) as nat);
            if let Ok((more, end)) = read_questions(msg, next, (n - 1) as nat) {
                let q = seq![one] + more;
                assert(q.skip(1) =~= more);
                lemma_name_bytes_len(one.name);
                lemma_be_round_trip(one.rtype as nat, 2);
                lemma_be_round_trip(one.class as nat, 2);
            }
        }
    }
}

proof fn lemma_refusal_fits(bytes: Seq<u8>, code: u8)
    requires
        bytes.len() <= EDNS_UDP_SIZE,
        decode(bytes) is Ok,
    ensures
        encode(error_reply(decode(bytes)->Ok_0, code)) is Ok,
{
    let query = decode(bytes)->Ok_0;
    let m = error_reply(query, code);
    lemma_questions_len(bytes, 12, u16_at(bytes, 4) as nat);
    lemma_name_bytes_len(Seq::<Seq<u8>>::empty());
    if let Some(opt) = query.opt() {
        let o = m.additional[0];
        assert(m.additional.skip(1) =~= Seq::empty());
        lemma_be_round_trip(o.rtype as nat, 2);
        lemma_be_round_trip(o.class as nat, 2);
        lemma_be_round_trip(o.ttl as nat, 4);
        lemma_be_round_trip(0, 2);
    }
    reveal_with_fuel(records_bytes, 2);
    lemma_be_round_trip(m.header.id as nat, 2);
    lemma_be_round_trip(flags(m.header) as nat, 2);
    lemma_be_round_trip(m.questions.len(), 2);
    lemma_be_round_trip(m.answers.len(), 2);
    lemma_be_round_trip(m.authority.len(), 2);
    lemma_be_round_trip(m.additional.len(), 2);
}

proof fn lemma_unreadable_fits(id: u16)
    ensures
        encode(unreadable_reply(id)) is Ok,
{
    let m = unreadable_reply(id);
    lemma_be_round_trip(m.header.id as nat, 2);
    lemma_be_round_trip(flags(m.header) as nat, 2);
    lemma_be_round_trip(0, 2);
}

/// Of bytes no longer than what the door asks for over UDP: a query is what
/// decodes as no response, with the one opcode and exactly one question; no
/// reply is owed to what has no header or says that it is a response; and
/// anything else is told what was wrong with it, under its own id.
pub proof fn law_queries_are_told_apart(bytes: Seq<u8>)
    requires
        bytes.len() <= EDNS_UDP_SIZE,
    ensures
        forall|m: MessageView|
            parsed(bytes) == Ok::<MessageView, Option<Seq<u8>>>(m) <==> #[trigger] is_query(bytes, m),
        parsed(bytes) == Err::<MessageView, Option<Seq<u8>>>(None) <==> bytes.len() < 12 || bytes[2] >= 0x80,
        parsed(bytes) matches Err(Some(reply)) ==> (decode(reply) matches Ok(r) && r.header.id == u16_at(bytes, 0)
            && r.header.response && r.header.rcode == (if decode(bytes) matches Ok(m) && m.header.opcode != 0 {
            rcode::NOTIMP
        } else {
            rcode::FORMERR
        })),
{
    if bytes.len() >= 12 {
        lemma_response_bit(bytes);
        match decode(bytes) {
            Err(_) => {
                let m = unreadable_reply(u16_at(bytes, 0));
                lemma_unreadable_fits(u16_at(bytes, 0));
                law_encode_decode(m);
            },
            Ok(query) => {
                law_decoded_is_well_formed(bytes);
                lemma_refusal_fits(bytes, rcode::NOTIMP);
                lemma_refusal_fits(bytes, rcode::FORMERR);
                let m1 = error_reply(query, rcode::NOTIMP);
                let m2 = error_reply(query, rcode::FORMERR);
                assert(records_fit(m1.answers));
                assert(records_fit(m2.answers));
                law_encode_decode(m1);
                law_encode_decode(m2);
            },
        }
    }
}

/// Whether bytes are a query that is worked on.
pub open spec fn is_query(bytes: Seq<u8>, m: MessageView) -> bool {
    &&& decode(bytes) == Ok::<MessageView, Error>(m)
    &&& !m.header.response
    &&& m.header.opcode == 0
    &&& m.questions.len() == 1
}

/// A reply to a query that parsed decodes to what was rendered, over TCP as
/// it is and over UDP whole or cut; over UDP it is no longer than the limit
/// where it is whole.
pub proof fn law_rendered_replies_decode(bytes: Seq<u8>, query: MessageView, answer: AnswerView, limit: nat)
    requires
        parsed(bytes) == Ok::<MessageView, Option<Seq<u8>>>(query),
        records_fit(answer.records),
        answer.resolved_name matches Some(n) ==> valid_name(n),
    ensures
        ({
            let m = rendered(query, answer);
            &&& encode(m) matches Ok(b) ==> decode(b) == Ok::<MessageView, Error>(normal(m))
            &&& encode_udp(m, limit) matches Ok(b) ==> decode(b) == Ok::<MessageView, Error>(
                if encode(m)->Ok_0.len() <= limit {
                    normal(m)
                } else {
                    normal(truncated(m))
                },
            )
        }),
{
    law_decoded_is_well_formed(bytes);
    let m = rendered(query, answer);
    assert(records_fit(leading_alias(query, answer)));
    assert(records_fit(m.answers)) by {
        let a = leading_alias(query, answer);
        assert forall|i: int| 0 <= i < m.answers.len() implies record_fits(#[trigger] m.answers[i]) by {
            if answer.outcome == Outcome::Found {
                if i < a.len() {
                    assert(m.answers[i] == a[i]);
                } else {
                    assert(m.answers[i] == answer.records[i - a.len()]);
                }
            }
        }
    }
    assert(well_formed(m));
    if encode(m) is Ok {
        law_encode_decode(m);
        if encode_udp(m, limit) is Ok && encode(m)->Ok_0.len() > limit {
            assert(well_formed(truncated(m)));
            law_encode_decode(truncated(m));
        }
    }
}

/// What nothing could answer is never told as absence.
pub proof fn law_unavailable_is_never_absence(query: MessageView, answer: AnswerView)
    ensures
        rendered(query, answer).header.rcode == rcode::NXDOMAIN <==> answer.outcome == Outcome::NotFound,
        rendered(query, answer).header.rcode == rcode::SERVFAIL <==> answer.outcome == Outcome::Unavailable,
        rendered(query, answer).header.rcode == rcode::NOERROR <==> answer.outcome == Outcome::Found,
{
}

} // verus!

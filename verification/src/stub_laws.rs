//! What the stub door says to those who ask.
use crate::addr::localhost_v6;
use crate::dns::layout::{law_cut_messages, lemma_two, lemma_two_bytes, two};
use crate::dns::message::{decode, encode, first_opt, truncated, MessageView};
use crate::dns::name::same_name;
use crate::dns::record::{RDataView, RecordView};
use crate::engine::answer::{least_ttl, AnswerView};
use crate::engine::local_laws::both_loopbacks;
use crate::protocol::Outcome;
use crate::stream::{tcp_framed, tcp_message_in, ClientView, ReadView};
use crate::stub::{
    answer_bytes, datagram, error_reply, over_tcp, parsed, rendered, serviced, unreadable_reply, IncomingView,
    OriginView, PeerView, ServicedView, StubView,
};
use vstd::prelude::*;

verus! {

// Replies.

proof fn lemma_least(r: Seq<RecordView>, limit: u32)
    ensures
        least_ttl(r, limit) <= limit,
        forall|i: int| 0 <= i < r.len() ==> least_ttl(r, limit) <= (#[trigger] r[i]).ttl,
        least_ttl(r, limit) == limit || exists|i: int|
            0 <= i < r.len() && (#[trigger] r[i]).ttl == least_ttl(r, limit),
    decreases r.len(),
{
    if r.len() > 0 {
        let rest = r.drop_last();
        lemma_least(rest, limit);
        assert forall|i: int| 0 <= i < r.len() implies least_ttl(r, limit) <= (#[trigger] r[i]).ttl by {
            if i < rest.len() {
                assert(rest[i] == r[i]);
            }
        }
        if r.last().ttl < least_ttl(rest, limit) {
            assert(r[r.len() - 1].ttl == least_ttl(r, limit));
        } else if least_ttl(rest, limit) != limit {
            let i = choose|i: int| 0 <= i < rest.len() && (#[trigger] rest[i]).ttl == least_ttl(rest, limit);
            assert(r[i] == rest[i]);
        }
    }
}

/// What was found is told whole: the records of the answer are the last of the
/// reply's answers, in order and unchanged, and at most one stands before them.
/// One does exactly where there are records at another name than the one that was
/// asked for: an alias, of type 5 and class 1, from the one to the other, that
/// lives no longer than any of them.
pub proof fn law_everything_found_is_told(query: MessageView, answer: AnswerView)
    requires
        answer.outcome == Outcome::Found,
    ensures
        ({
            let told = rendered(query, answer).answers;
            let n = answer.records.len();
            let elsewhere = query.questions.len() == 1 && n > 0 && answer.resolved_name is Some && !same_name(
                query.questions[0].name,
                answer.resolved_name->0,
            );
            &&& n <= told.len() <= n + 1
            &&& told.skip(told.len() - n) == answer.records
            &&& told.len() == n + 1 <==> elsewhere
            &&& elsewhere ==> {
                &&& told[0].name == query.questions[0].name
                &&& told[0].rtype == 5
                &&& told[0].class == 1
                &&& told[0].rdata == RDataView::Cname(answer.resolved_name->0)
                &&& forall|i: int| 0 <= i < n ==> told[0].ttl <= (#[trigger] answer.records[i]).ttl
                &&& exists|i: int| 0 <= i < n && (#[trigger] answer.records[i]).ttl == told[0].ttl
            }
        }),
{
    let told = rendered(query, answer).answers;
    let n = answer.records.len();
    lemma_least(answer.records, u32::MAX);
    assert(told.skip(told.len() - n) =~= answer.records);
    if n > 0 && least_ttl(answer.records, u32::MAX) == u32::MAX {
        assert(answer.records[0].ttl == u32::MAX);
    }
}

/// What was not found is told without records: a code of 3 says that the name is
/// absent, a code of 2 that nothing could answer, and a code of 0 that something
/// was found.
pub proof fn law_outcomes_are_told(query: MessageView, answer: AnswerView)
    ensures
        answer.outcome != Outcome::Found ==> rendered(query, answer).answers.len() == 0,
        rendered(query, answer).header.rcode == match answer.outcome {
            Outcome::Found => 0u8,
            Outcome::NotFound => 3u8,
            Outcome::Unavailable => 2u8,
        },
{
}

/// Whether a message is a reply to a query as far as their headers and questions
/// go.
pub open spec fn answers_it(r: MessageView, query: MessageView) -> bool {
    &&& r.header.id == query.header.id
    &&& r.header.response
    &&& r.header.opcode == query.header.opcode
    &&& r.header.recursion_desired == query.header.recursion_desired
    &&& r.header.checking_disabled == query.header.checking_disabled
    &&& r.header.recursion_available
    &&& !r.header.authoritative
    &&& !r.header.truncated
    &&& !r.header.authentic_data
    &&& r.questions == query.questions
    &&& r.authority.len() == 0
}

/// A reply repeats the id and the questions of what it answers, whatever the
/// answer. It has a record of type 41 that says how much is read over UDP, 1232
/// bytes, exactly where the query has one.
pub proof fn law_replies_answer_their_queries(query: MessageView, answer: AnswerView, code: u8)
    ensures
        answers_it(rendered(query, answer), query),
        answers_it(error_reply(query, code), query),
        error_reply(query, code).header.rcode == code,
        error_reply(query, code).answers.len() == 0,
        ({
            let asks = exists|i: int| 0 <= i < query.additional.len() && (#[trigger] query.additional[i]).rtype == 41;
            let opt = rendered(query, answer).additional;
            &&& opt.len() == if asks { 1nat } else { 0nat }
            &&& error_reply(query, code).additional.len() == if asks { 1nat } else { 0nat }
            &&& asks ==> opt[0].rtype == 41 && opt[0].class == 1232 && opt[0].ttl == 0 && opt[0].name.len() == 0
            &&& asks ==> error_reply(query, code).additional[0].rtype == 41 && error_reply(query, code).additional[0].ttl
                == 0 && error_reply(query, code).additional[0].name.len() == 0
        }),
{
    law_cut_messages(query);
    let t = truncated(query);
    if t.additional.len() == 1 {
        let i = choose|i: int| 0 <= i < query.additional.len() && query.additional[i] == t.additional[0];
        assert(query.additional[i].rtype == 41);
    }
}

/// Over UDP a client is sent what it can take: 512 bytes, or what its record of
/// type 41 says where that is more; and what is longer is cut. Over TCP it is sent
/// all, behind its length in two bytes.
pub proof fn law_replies_fit_their_clients(query: MessageView, answer: AnswerView, peer: PeerView, client: u64)
    ensures
        ({
            let m = rendered(query, answer);
            let limit: int = match first_of_type(query.additional, 0) {
                Some(o) => if o.class > 512 {
                    o.class as int
                } else {
                    512
                },
                None => 512,
            };
            &&& encode(m) is Ok && encode(m)->Ok_0.len() <= limit ==> answer_bytes(
                OriginView::Udp { peer, query },
                answer,
            ) == Some(encode(m)->Ok_0)
            &&& encode(m) is Ok && encode(m)->Ok_0.len() > limit && encode(truncated(m)) is Ok ==> answer_bytes(
                OriginView::Udp { peer, query },
                answer,
            ) == Some(encode(truncated(m))->Ok_0)
            &&& encode(m) is Ok ==> (answer_bytes(OriginView::Tcp { client, query }, answer) matches Some(b) && b.len()
                == encode(m)->Ok_0.len() + 2 && two(b, 0) == encode(m)->Ok_0.len() && b.skip(2) == encode(m)->Ok_0)
        }),
{
    let m = rendered(query, answer);
    lemma_first_of_type(query.additional, 0);
    if let Ok(b) = encode(m) {
        law_tcp_layout(b);
    }
}

/// The first record of type 41, from `i` on.
pub open spec fn first_of_type(r: Seq<RecordView>, i: int) -> Option<RecordView>
    decreases r.len() - i,
{
    if i < 0 || i >= r.len() {
        None
    } else if r[i].rtype == 41 {
        Some(r[i])
    } else {
        first_of_type(r, i + 1)
    }
}

proof fn lemma_first_of_type(r: Seq<RecordView>, i: int)
    ensures
        first_opt(r, i) == first_of_type(r, i),
    decreases r.len() - i,
{
    if 0 <= i < r.len() {
        lemma_first_of_type(r, i + 1);
    }
}

/// A message in a stream stands behind its length in two bytes, the first
/// counting 256 times; and what stands there is read as soon as all of it is.
pub proof fn law_tcp_layout(m: Seq<u8>)
    ensures
        m.len() <= u16::MAX ==> tcp_framed(m).len() == m.len() + 2 && two(tcp_framed(m), 0) == m.len() && tcp_framed(
            m,
        ).skip(2) == m,
        m.len() >= 2 && m.len() >= 2 + two(m, 0) ==> tcp_message_in(m) == Some(m.subrange(2, 2 + two(m, 0))),
        m.len() < 2 || m.len() < 2 + two(m, 0) ==> tcp_message_in(m) is None,
{
    if m.len() <= u16::MAX {
        lemma_two_bytes(m.len());
        let f = tcp_framed(m);
        assert(f.skip(2) =~= m);
        assert(f[0] == (m.len() / 256) as u8 && f[1] == (m.len() % 256) as u8);
    }
    if m.len() >= 2 {
        lemma_two(m, 0);
        assert(m.take(2) =~= m.subrange(0, 2));
    }
}

// Who may ask.

/// Only the machine itself may ask: a datagram from any address but 127.0.0.0/8
/// and ::1 comes to nothing. A query of the machine's is worked on, as the one
/// that it is, for the one that sent it.
pub proof fn law_only_the_machine_may_ask(peer: PeerView, bytes: Seq<u8>, client: u64)
    ensures
        !((peer.addr.len() == 4 && peer.addr[0] == 127) || (peer.addr.len() != 4 && peer.addr
            == both_loopbacks()[1])) ==> datagram(peer, bytes) is Nothing,
        (peer.addr.len() == 4 && peer.addr[0] == 127) || (peer.addr.len() != 4 && peer.addr
            == both_loopbacks()[1]) ==> (match parsed(bytes) {
            Ok(query) => datagram(peer, bytes) == (IncomingView::Query { origin: OriginView::Udp { peer, query } }),
            Err(Some(b)) => datagram(peer, bytes) == (IncomingView::Reply { bytes: b }),
            Err(None) => datagram(peer, bytes) is Nothing,
        }),
        match parsed(bytes) {
            Ok(query) => over_tcp(client, bytes) == (IncomingView::Query { origin: OriginView::Tcp { client, query } }),
            Err(Some(b)) => over_tcp(client, bytes) matches IncomingView::Reply { bytes: r } && r.skip(2) == b,
            Err(None) => over_tcp(client, bytes) is Nothing,
        },
{
    assert(localhost_v6() =~= both_loopbacks()[1]);
    if let Err(Some(b)) = parsed(bytes) {
        law_tcp_layout(b);
    }
}

/// What is asked of the door: one question in a message that is no response and has
/// the opcode 0. A response is not answered; another opcode is answered with a code
/// of 4, and another number of questions with a code of 1. What does not decode is
/// answered with a code of 1 under its id, where it has a header and does not say
/// that it is a response.
pub proof fn law_what_is_a_query(bytes: Seq<u8>)
    ensures
        match decode(bytes) {
            Ok(m) => {
                &&& m.header.response ==> parsed(bytes) == Err::<MessageView, Option<Seq<u8>>>(None)
                &&& !m.header.response && m.header.opcode == 0 && m.questions.len() == 1 ==> parsed(bytes) == Ok::<
                    MessageView,
                    Option<Seq<u8>>,
                >(m)
                &&& !m.header.response && m.header.opcode != 0 && encode(error_reply(m, 4)) is Ok ==> parsed(bytes)
                    == Err::<MessageView, Option<Seq<u8>>>(Some(encode(error_reply(m, 4))->Ok_0))
                &&& !m.header.response && m.header.opcode == 0 && m.questions.len() != 1 && encode(error_reply(m, 1))
                    is Ok ==> parsed(bytes) == Err::<MessageView, Option<Seq<u8>>>(Some(encode(error_reply(m, 1))->Ok_0))
            },
            Err(_) => bytes.len() < 12 || bytes[2] >= 128 ==> parsed(bytes) == Err::<MessageView, Option<Seq<u8>>>(None),
        },
        forall|id: u16|
            {
                let r = #[trigger] unreadable_reply(id);
                &&& r.header.id == id
                &&& r.header.response
                &&& r.header.rcode == 1
                &&& r.questions.len() == 0 && r.answers.len() == 0 && r.authority.len() == 0 && r.additional.len() == 0
            },
{
}

/// What is read of a client's connection goes behind what was read before it, up to
/// 65537 bytes; one that ends, fails or sends more is dropped. What it comes to is
/// seen when there is no more for now, and the client is done with once it has sent
/// a whole message.
pub proof fn law_stub_connections(s: StubView, id: u64, chunk: Seq<u8>)
    requires
        s.clients.contains_key(id),
    ensures
        ({
            let c = s.clients[id];
            let gone = s.clients.remove(id);
            let (more, then) = serviced(s, id, ReadView::Bytes(chunk));
            let (kept, now) = serviced(s, id, ReadView::WouldBlock);
            &&& c.buf.len() + chunk.len() <= 65537 ==> then is Again && more.clients == s.clients.insert(
                id,
                ClientView { buf: c.buf + chunk, since: c.since },
            )
            &&& c.buf.len() + chunk.len() > 65537 ==> then == ServicedView::Over(IncomingView::Nothing) && more.clients
                == gone
            &&& serviced(s, id, ReadView::End).1 == ServicedView::Over(IncomingView::Nothing)
            &&& serviced(s, id, ReadView::End).0.clients == gone
            &&& serviced(s, id, ReadView::Error).1 == ServicedView::Over(IncomingView::Nothing)
            &&& serviced(s, id, ReadView::Error).0.clients == gone
            &&& serviced(s, id, ReadView::Interrupted) == (s, ServicedView::Again)
            &&& match tcp_message_in(c.buf) {
                Some(m) => now == ServicedView::Over(over_tcp(id, m)) && kept.clients == gone,
                None => now is Wait && kept == s,
            }
        }),
{
}

} // verus!

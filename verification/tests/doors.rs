use resolvd::addr::{IpAddr, Ipv4Addr};
use resolvd::control::{default_grants, mapping, respond, Progress, Trustee};
use resolvd::dns::{rcode, rtype, Message, Name, Question, RData, Record, CLASSIC_UDP_SIZE};
use resolvd::engine::Answer;
use resolvd::protocol::{framed, Outcome, Reply, Request, MAX_MESSAGE_BYTES, RESOLVER_CONTROL, RESOLVER_QUERY};
use resolvd::stream::{tcp_frame, tcp_message, Client, Read};
use resolvd::stub::{build_reply, parse_query, Incoming, Origin, Peer, Serviced, Stub, TCP_TIMEOUT};

fn n(s: &str) -> Name {
    Name::parse(s).unwrap()
}

fn query() -> Message {
    Message::query(11, Question::new(n("www.example"), rtype::A))
}

fn peer(s: &str) -> Peer {
    Peer { addr: IpAddr::parse(s).unwrap(), port: 4000 }
}

fn found(count: u8) -> Answer {
    let mut a = Answer::bare(Outcome::Found);
    for i in 0..count {
        a.records.push(Record::new(n("www.example"), 30, RData::A(Ipv4Addr::new(10, 0, 0, i))));
    }
    a.resolved_name = Some(n("WWW.example"));
    a
}

#[test]
fn a_frame_is_read_once_it_is_whole() {
    let frame = tcp_frame(b"hello");
    assert_eq!(frame, [0, 5, b'h', b'e', b'l', b'l', b'o']);
    for cut in 0..frame.len() {
        assert_eq!(tcp_message(&frame[..cut]), None);
    }
    assert_eq!(tcp_message(&frame).as_deref(), Some(&b"hello"[..]));
    let mut more = frame.clone();
    more.push(9);
    assert_eq!(tcp_message(&more).as_deref(), Some(&b"hello"[..]));
}

#[test]
fn only_loopback_may_ask() {
    let stub = Stub::new();
    let bytes = query().encode().unwrap();
    assert!(matches!(stub.receive_udp(peer("127.0.0.1"), &bytes), Incoming::Query { .. }));
    assert!(matches!(stub.receive_udp(peer("10.0.2.15"), &bytes), Incoming::Nothing));
    let mut stub = Stub::new();
    assert_eq!(stub.accept(&peer("192.0.2.1").addr, 0), None);
    assert_eq!(stub.accept(&peer("127.0.0.9").addr, 0), Some(1));
    assert_eq!(stub.accept(&peer("127.0.0.9").addr, 0), Some(2));
    assert_eq!(stub.client_ids(), [1, 2]);
}

#[test]
fn what_cannot_be_read_gets_the_error_it_deserves() {
    let mut response = query();
    response.header.response = true;
    assert!(matches!(parse_query(&response.encode().unwrap()), Err(None)));
    assert!(matches!(parse_query(&[1, 2, 3]), Err(None)));
    let mut none = query();
    none.questions.clear();
    let reply = match parse_query(&none.encode().unwrap()) {
        Err(Some(reply)) => Message::decode(&reply).unwrap(),
        other => panic!("{other:?}"),
    };
    assert_eq!((reply.header.id, reply.header.response, reply.header.rcode), (11, true, rcode::FORMERR));
    assert_eq!(reply.opt().unwrap().class, 1232);
    let mut garbage = vec![0xab, 0xcd, 0x7f];
    garbage.extend_from_slice(&[0xff; 13]);
    let reply = match parse_query(&garbage) {
        Err(Some(reply)) => Message::decode(&reply).unwrap(),
        other => panic!("{other:?}"),
    };
    assert_eq!((reply.header.id, reply.header.rcode), (0xabcd, rcode::FORMERR));
    garbage[2] = 0x80;
    assert!(matches!(parse_query(&garbage), Err(None)));
}

#[test]
fn an_answer_at_the_name_that_was_asked_needs_no_alias() {
    let r = build_reply(&query(), &found(2));
    assert_eq!(r.answers.len(), 2);
    let mut elsewhere = found(2);
    elsewhere.resolved_name = Some(n("www.example.lan"));
    elsewhere.records[1].ttl = 7;
    let r = build_reply(&query(), &elsewhere);
    assert_eq!(r.answers[0].name, n("www.example"));
    assert_eq!(r.answers[0].ttl, 7);
    assert_eq!(r.answers[0].rdata, RData::Cname(n("www.example.lan")));
    let mut plain = query();
    plain.additional.clear();
    assert!(build_reply(&plain, &found(1)).opt().is_none());
}

#[test]
fn an_answer_fits_where_it_goes() {
    let stub = Stub::new();
    let mut small = query();
    small.additional.clear();
    let udp = Origin::Udp { peer: peer("127.0.0.1"), query: small.clone() };
    let bytes = stub.answer(&udp, &found(200)).unwrap();
    assert!(bytes.len() <= CLASSIC_UDP_SIZE as usize);
    assert!(Message::decode(&bytes).unwrap().header.truncated);
    let tcp = Origin::Tcp { client: 1, query: small };
    let frame = stub.answer(&tcp, &found(200)).unwrap();
    let whole = Message::decode(&tcp_message(&frame).unwrap()).unwrap();
    assert_eq!(whole.answers.len(), 200);
}

#[test]
fn a_query_over_tcp_may_come_in_pieces() {
    let mut stub = Stub::new();
    let id = stub.accept(&peer("127.0.0.1").addr, 0).unwrap();
    let frame = tcp_frame(&query().encode().unwrap());
    let (a, b) = frame.split_at(3);
    assert!(matches!(stub.service_client(id, Read::Bytes(a.to_vec())), Serviced::Again));
    assert!(matches!(stub.service_client(id, Read::WouldBlock), Serviced::Wait));
    assert!(matches!(stub.service_client(id, Read::Interrupted), Serviced::Again));
    assert!(matches!(stub.service_client(id, Read::Bytes(b.to_vec())), Serviced::Again));
    match stub.service_client(id, Read::WouldBlock) {
        Serviced::Over(Incoming::Query { origin: Origin::Tcp { client, query: q } }) => {
            assert_eq!(client, id);
            assert_eq!(q, query());
        }
        other => panic!("{other:?}"),
    }
    assert!(stub.client_ids().is_empty());
    assert!(matches!(stub.service_client(id, Read::WouldBlock), Serviced::Wait));
}

#[test]
fn a_client_that_goes_or_sends_too_much_is_dropped() {
    for read in [Read::End, Read::Error, Read::Bytes(vec![0; 70_000])] {
        let mut stub = Stub::new();
        let id = stub.accept(&peer("127.0.0.1").addr, 0).unwrap();
        assert!(matches!(stub.service_client(id, read), Serviced::Over(Incoming::Nothing)));
        assert!(stub.client_ids().is_empty());
    }
    let mut stub = Stub::new();
    let id = stub.accept(&peer("127.0.0.1").addr, 0).unwrap();
    let mut bad = query();
    bad.header.opcode = 2;
    stub.service_client(id, Read::Bytes(tcp_frame(&bad.encode().unwrap())));
    match stub.service_client(id, Read::WouldBlock) {
        Serviced::Over(Incoming::Reply { bytes }) => {
            assert_eq!(Message::decode(&tcp_message(&bytes).unwrap()).unwrap().header.rcode, rcode::NOTIMP);
        }
        other => panic!("{other:?}"),
    }
}

#[test]
fn a_client_that_sits_too_long_is_dropped() {
    let mut stub = Stub::new();
    stub.accept(&peer("127.0.0.1").addr, 100);
    stub.accept(&peer("127.0.0.1").addr, 200);
    assert_eq!(stub.next_deadline(), Some(100 + TCP_TIMEOUT));
    assert_eq!(stub.expire(100 + TCP_TIMEOUT - 1), Vec::<u64>::new());
    assert_eq!(stub.expire(100 + TCP_TIMEOUT), [1]);
    assert_eq!(stub.client_ids(), [2]);
    assert_eq!(stub.expire(50), Vec::<u64>::new());
    assert_eq!(stub.next_deadline(), Some(200 + TCP_TIMEOUT));
}

#[test]
fn a_request_is_taken_once_it_is_whole() {
    let frame = framed(&Request::Flush.encode());
    let mut c = Client::new(0);
    for b in &frame[..frame.len() - 1] {
        assert!(matches!(c.read(Read::Bytes(vec![*b])), Progress::Again));
        assert!(matches!(c.read(Read::WouldBlock), Progress::Incomplete));
    }
    assert!(matches!(c.read(Read::Bytes(vec![frame[frame.len() - 1], 0xff])), Progress::Again));
    match c.read(Read::WouldBlock) {
        Progress::Request(r) => assert_eq!(r, Request::Flush),
        other => panic!("{other:?}"),
    }
}

fn refusal(p: Progress) -> Reply {
    match p {
        Progress::Closed(Some(bytes)) => {
            assert_eq!(u32::from_le_bytes([bytes[0], bytes[1], bytes[2], bytes[3]]) as usize, bytes.len() - 4);
            Reply::decode(&bytes[4..]).unwrap()
        }
        other => panic!("{other:?}"),
    }
}

#[test]
fn a_request_that_is_none_is_refused() {
    let too_large = Reply::Error("request too large".into());
    assert_eq!(refusal(Client::new(0).read(Read::Bytes(vec![0; 5 + MAX_MESSAGE_BYTES]))), too_large);
    let mut c = Client::new(0);
    c.read(Read::Bytes(vec![0xff, 0xff, 0xff, 0x7f]));
    assert_eq!(refusal(c.read(Read::WouldBlock)), too_large);
    let mut c = Client::new(0);
    c.read(Read::Bytes(framed(&[0xc0])));
    assert_eq!(refusal(c.read(Read::WouldBlock)), Reply::Error("malformed message: unexpected value type".into()));
    assert!(matches!(Client::new(0).read(Read::End), Progress::Closed(None)));
    assert!(matches!(Client::new(0).read(Read::Error), Progress::Closed(None)));
    assert!(matches!(Client::new(0).read(Read::Interrupted), Progress::Again));
}

#[test]
fn a_reply_is_framed() {
    let bytes = respond(&Reply::Okay);
    assert_eq!(&bytes[..4], &[(bytes.len() - 4) as u8, 0, 0, 0]);
    assert_eq!(Reply::decode(&bytes[4..]), Ok(Reply::Okay));
}

#[test]
fn everyone_may_query_and_not_control() {
    let grants = default_grants(0x2_0000);
    assert_eq!(grants.len(), 3);
    for (who, rights) in grants {
        assert_eq!(rights & RESOLVER_QUERY, RESOLVER_QUERY);
        assert_eq!(rights & RESOLVER_CONTROL != 0, who != Trustee::Everyone);
    }
    let m = mapping(0x2_0000);
    assert_eq!((m.read, m.write, m.execute, m.all), (0x2_0001, 0x2_0002, 1, 0xf_0003));
}

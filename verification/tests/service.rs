use resolvd::addr::{IpAddr, Ipv4Addr};
use resolvd::config::Config;
use resolvd::control::{Progress, CLIENT_TIMEOUT};
use resolvd::dns::{rcode, rtype, Message, Name, Question, RData, Record};
use resolvd::engine::{Level, SERVER_TIMEOUT};
use resolvd::protocol::{framed, Family, Outcome, Reply, Request};
use resolvd::service::{poll_timeout, Next, Output, Service};
use resolvd::snapshot::{DnsScope, Snapshot};
use resolvd::stream::{tcp_frame, tcp_message, Read};
use resolvd::stub::{Peer, TCP_TIMEOUT};
use resolvd::time::{Instant, SECOND};

const NOW: Instant = 50 * SECOND;

fn n(s: &str) -> Name {
    Name::parse(s).unwrap()
}

fn service() -> Service {
    let mut s = Service::new(5, Some("kernel"), Config::default());
    s.apply_snapshot(
        &Snapshot {
            hostname: "box".into(),
            scopes: vec![DnsScope {
                ifid: "lan".into(),
                name: "eth0".into(),
                servers: vec!["10.0.2.3".into()],
                domains: vec!["lan".into()],
                addresses: vec!["10.0.2.15/24".into()],
                default_route: true,
                exclusive: false,
                metric: 100,
                level: Level::Routed,
            }],
        },
        None,
    );
    s
}

fn told(outputs: &[Output]) -> (u64, Reply) {
    match outputs {
        [Output::Native { client, frame }] => (*client, Reply::decode(&frame[4..]).unwrap()),
        other => panic!("{other:?}"),
    }
}

fn sent(outputs: &[Output]) -> (u64, Message) {
    match outputs {
        [Output::Send { tx, payload, .. }] => (*tx, Message::decode(payload).unwrap()),
        other => panic!("{other:?}"),
    }
}

fn reply_to(q: &Message) -> Vec<u8> {
    let mut m = Message::reply_to(q);
    m.answers.push(Record::new(q.questions[0].name.clone(), 60, RData::A(Ipv4Addr::new(1, 2, 3, 4))));
    m.encode().unwrap()
}

#[test]
fn what_is_not_permitted_is_denied() {
    let mut s = service();
    assert_eq!(told(&s.handle_request(4, Request::Flush, false, true, NOW)), (4, Reply::Error("access denied".into())));
}

#[test]
fn status_says_what_there_is() {
    let mut s = service();
    match told(&s.handle_request(4, Request::Status, true, true, NOW)) {
        (4, Reply::Status(r)) => {
            assert_eq!(r.hostname, "box");
            assert!(r.netd);
            assert_eq!(r.scopes[0].interface, "eth0");
            assert_eq!(r.scopes[0].servers, ["10.0.2.3"]);
            assert_eq!(r.scopes[0].domains, ["lan"]);
            assert_eq!(r.scopes[0].subnets, ["10.0.2.15/24"]);
            assert!(r.scopes[0].demoted.is_empty());
            assert_eq!(r.counters.queries, 0);
        }
        other => panic!("{other:?}"),
    }
    assert_eq!(told(&s.handle_request(5, Request::Flush, true, true, NOW)), (5, Reply::Okay));
}

#[test]
fn a_native_question_is_answered_at_its_door() {
    let mut s = service();
    let ask = Request::Resolve { name: "www.example".into(), rtype: rtype::A, no_cache: false };
    let (tx, q) = sent(&s.handle_request(9, ask, true, true, NOW));
    match told(&s.received(tx, &reply_to(&q), NOW)) {
        (9, Reply::Answer(a)) => {
            assert_eq!(a.outcome, Outcome::Found);
            assert_eq!(a.source, "dns");
            assert_eq!(a.server.as_deref(), Some("10.0.2.3"));
            assert_eq!(a.interface.as_deref(), Some("eth0"));
            assert_eq!(a.records[0].name, "www.example");
            assert_eq!(a.records[0].data, [1, 2, 3, 4]);
            assert_eq!(a.records[0].text, "1.2.3.4");
        }
        other => panic!("{other:?}"),
    }
    let again = Request::Lookup { name: "www.example".into(), family: Family::V4 };
    match told(&s.handle_request(10, again, true, true, NOW)) {
        (10, Reply::Addresses(a)) => {
            assert_eq!(a.canonical, "www.example");
            assert_eq!(a.source, "cache");
            assert_eq!(a.addresses[0].address, IpAddr::V4(Ipv4Addr::new(1, 2, 3, 4)));
        }
        other => panic!("{other:?}"),
    }
    let own = Request::Reverse { address: IpAddr::parse("10.0.2.15").unwrap() };
    match told(&s.handle_request(11, own, true, true, NOW)) {
        (11, Reply::Answer(a)) => assert_eq!(a.records[0].text, "box"),
        other => panic!("{other:?}"),
    }
}

#[test]
fn a_stub_query_is_answered_at_its_door() {
    let mut s = service();
    let peer = Peer { addr: IpAddr::V4(Ipv4Addr::localhost()), port: 999 };
    let query = Message::query(77, Question::new(n("www.example"), rtype::A));
    let (tx, q) = sent(&s.receive_udp(peer, &query.encode().unwrap(), NOW));
    match s.received(tx, &reply_to(&q), NOW).as_slice() {
        [Output::Udp { peer, bytes }] => {
            assert_eq!(peer.port, 999);
            let m = Message::decode(bytes).unwrap();
            assert_eq!((m.header.id, m.answers.len()), (77, 1));
        }
        other => panic!("{other:?}"),
    }
    match s.receive_udp(peer, &[0; 12], NOW).as_slice() {
        [Output::Udp { bytes, .. }] => assert_eq!(Message::decode(bytes).unwrap().header.rcode, rcode::FORMERR),
        other => panic!("{other:?}"),
    }
    assert!(s.receive_udp(peer, &[0; 3], NOW).is_empty());
}

#[test]
fn a_stub_connection_is_answered_and_closed() {
    let mut s = service();
    let home = IpAddr::V4(Ipv4Addr::localhost());
    let id = s.accept_stub(&home, NOW).unwrap();
    assert_eq!(s.stub_clients(), [id]);
    let query = Message::query(78, Question::new(n("localhost"), rtype::A));
    assert_eq!(s.service_stub(id, Read::Bytes(tcp_frame(&query.encode().unwrap())), NOW).0, Next::Again);
    match s.service_stub(id, Read::WouldBlock, NOW) {
        (Next::Over, outputs) => match outputs.as_slice() {
            [Output::Tcp { client, frame: Some(frame) }] => {
                assert_eq!(*client, id);
                assert_eq!(Message::decode(&tcp_message(frame).unwrap()).unwrap().answers.len(), 1);
            }
            other => panic!("{other:?}"),
        },
        other => panic!("{other:?}"),
    }
    let id = s.accept_stub(&home, NOW).unwrap();
    match s.service_stub(id, Read::End, NOW) {
        (Next::Over, outputs) => assert!(matches!(outputs.as_slice(), [Output::Tcp { frame: None, .. }])),
        other => panic!("{other:?}"),
    }
}

#[test]
fn nobody_waits_for_ever() {
    let mut s = service();
    let ask = Request::Lookup { name: "www.example".into(), family: Family::Any };
    let outputs = s.handle_request(3, ask, true, true, NOW);
    assert_eq!(outputs.len(), 2);
    let mut replies = 0;
    for k in 1..=3 {
        for o in s.tick(NOW + k * SERVER_TIMEOUT) {
            if let Output::Native { client: 3, frame } = o {
                replies += 1;
                match Reply::decode(&frame[4..]).unwrap() {
                    Reply::Addresses(a) => assert_eq!(a.outcome, Outcome::Unavailable),
                    other => panic!("{other:?}"),
                }
            }
        }
    }
    assert_eq!(replies, 1);
    assert_eq!(s.next_deadline(None), None);
}

#[test]
fn a_failed_exchange_is_tried_again() {
    let mut s = service();
    let ask = Request::Resolve { name: "www.example".into(), rtype: rtype::A, no_cache: false };
    let (tx, _) = sent(&s.handle_request(3, ask, true, true, NOW));
    let (again, _) = sent(&s.failed(tx, NOW));
    assert_ne!(tx, again);
    assert!(s.failed(tx, NOW).is_empty());
}

#[test]
fn native_connections_come_and_go() {
    let mut s = service();
    let id = s.accept_native(NOW);
    assert_eq!(s.native_clients(), [id]);
    assert!(matches!(s.read_native(id, Read::Bytes(framed(&Request::Status.encode()))), Progress::Again));
    match s.read_native(id, Read::WouldBlock) {
        Progress::Request(r) => assert_eq!(r, Request::Status),
        other => panic!("{other:?}"),
    }
    assert!(s.native_clients().is_empty());
    assert!(matches!(s.read_native(id, Read::WouldBlock), Progress::Incomplete));
    let id = s.accept_native(NOW);
    s.accept_stub(&IpAddr::V4(Ipv4Addr::localhost()), NOW);
    assert_eq!(s.next_deadline(None), Some(NOW + CLIENT_TIMEOUT));
    assert_eq!(s.next_deadline(Some(NOW)), Some(NOW));
    assert_eq!(s.expire_native(NOW + CLIENT_TIMEOUT), [id]);
    assert_eq!(s.next_deadline(None), Some(NOW + TCP_TIMEOUT));
    assert_eq!(s.expire_stub(NOW + TCP_TIMEOUT), [1]);
}

#[test]
fn settings_are_taken_where_they_are_other() {
    let mut s = Service::new(5, None, Config::default());
    assert!(!s.apply_config(Config::default()));
    let mut c = Config::default();
    c.servers = vec![IpAddr::parse("9.9.9.9").unwrap()];
    c.hosts = vec![(n("printer"), vec![IpAddr::parse("10.0.2.9").unwrap()])];
    assert!(s.apply_config(c));
    let ask = Request::Resolve { name: "printer".into(), rtype: rtype::A, no_cache: false };
    match told(&s.handle_request(3, ask, true, false, NOW)) {
        (3, Reply::Answer(a)) => assert_eq!(a.source, "hosts"),
        other => panic!("{other:?}"),
    }
    s.apply_snapshot(&Snapshot { hostname: String::new(), scopes: vec![] }, Some("kernel".into()));
    match told(&s.handle_request(3, Request::Status, true, false, NOW)) {
        (3, Reply::Status(r)) => {
            assert_eq!(r.hostname, "kernel");
            assert_eq!(r.fallback_servers, ["9.9.9.9"]);
        }
        other => panic!("{other:?}"),
    }
}

#[test]
fn the_wait_is_in_whole_milliseconds() {
    assert_eq!(poll_timeout(None, 5), -1);
    assert_eq!(poll_timeout(Some(5), 5), 0);
    assert_eq!(poll_timeout(Some(4), 5), 0);
    assert_eq!(poll_timeout(Some(NOW + 1_999_999), NOW), 1);
    assert_eq!(poll_timeout(Some(u64::MAX), 0), i32::MAX);
}

#[test]
fn numbers_last_for_a_while() {
    let mut s = service();
    for client in 0..1_000u64 {
        assert!(s.has_numbers());
        let id = s.accept_native(NOW);
        assert!(id > client);
        assert!(matches!(s.read_native(id, Read::End), Progress::Closed(None)));
    }
    assert!(s.has_numbers());
    assert!(s.native_clients().is_empty());
}

fn lookup_under(domains: &[&str], name: &str) -> Vec<Output> {
    let mut s = Service::new(5, None, Config::default());
    s.apply_snapshot(
        &Snapshot {
            hostname: String::new(),
            scopes: vec![DnsScope {
                ifid: "lan".into(),
                name: "eth0".into(),
                servers: vec!["10.0.2.3".into()],
                domains: domains.iter().map(|d| d.to_string()).collect(),
                addresses: vec![],
                default_route: true,
                exclusive: false,
                metric: 100,
                level: Level::Routed,
            }],
        },
        None,
    );
    let id = s.accept_native(NOW);
    s.handle_request(id, Request::Lookup { name: name.into(), family: Family::V4 }, true, true, NOW)
}

#[test]
fn single_labels_stay_under_domains() {
    let (_, q) = sent(&lookup_under(&[".", "lan"], "printer"));
    assert_eq!(q.questions[0].name, n("printer.lan"));
    match told(&lookup_under(&["."], "printer")).1 {
        Reply::Addresses(a) => assert_eq!(a.outcome, Outcome::NotFound),
        other => panic!("{other:?}"),
    }
    let (_, q) = sent(&lookup_under(&["lan"], "a.example"));
    assert_eq!(q.questions[0].name, n("a.example"));
}

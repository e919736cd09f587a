use resolvd::addr::{IpAddr, Ipv4Addr, Ipv6Addr};
use resolvd::dns::{rcode, rtype, Message, Name, RData, Record};
use resolvd::engine::{
    Action, Answer, Completion, Engine, Family, Level, Scope, Source, Txid, MAX_IN_FLIGHT, MAX_NEGATIVE_TTL,
    MAX_POSITIVE_TTL, SERVER_TIMEOUT,
};
use resolvd::protocol::Outcome;
use resolvd::time::{Instant, SECOND};

/// Any moment.
const START: Instant = 1_000 * SECOND;

fn ip(s: &str) -> IpAddr {
    IpAddr::parse(s).unwrap()
}

fn v4(s: &str) -> Ipv4Addr {
    match IpAddr::parse(s) {
        Some(IpAddr::V4(a)) => a,
        other => panic!("not an address: {other:?}"),
    }
}

fn n(s: &str) -> Name {
    Name::parse(s).unwrap()
}

fn scope(id: &str, servers: &[&str], domains: &[&str], default_route: bool) -> Scope {
    Scope {
        id: id.into(),
        interface: id.into(),
        servers: servers.iter().map(|s| ip(s)).collect(),
        domains: domains.iter().map(|d| n(d)).collect(),
        addresses: vec![(ip("10.0.2.15"), 24)],
        default_route,
        exclusive: false,
        metric: 100,
        level: Level::Routed,
    }
}

fn engine() -> Engine {
    let mut e = Engine::new(42);
    e.set_scopes(vec![scope("lan", &["10.0.2.3"], &["lan"], true)]);
    e.set_hostname(Some("box"));
    e
}

fn sent(actions: &[Action]) -> (Txid, IpAddr, Message) {
    for a in actions {
        if let Action::Send { tx, server, payload, .. } = a {
            return (*tx, *server, Message::decode(payload).unwrap());
        }
    }
    panic!("nothing sent: {actions:?}");
}

fn done(actions: &[Action]) -> Answer {
    for a in actions {
        if let Action::Done { completion: Completion::Answer(ans), .. } = a {
            return ans.clone();
        }
    }
    panic!("not done: {actions:?}");
}

fn reply(query: &Message, records: Vec<Record>, code: u8) -> Vec<u8> {
    let mut m = Message::reply_to(query);
    m.header.rcode = code;
    m.answers = records;
    m.encode().unwrap()
}

#[test]
fn localhost_hostname_and_hosts_are_synthetic() {
    let mut e = engine();
    let now = START;
    let a = done(&e.resolve(1, "localhost", rtype::A, false, now));
    assert_eq!(a.source, Source::Synthetic);
    assert_eq!(a.records[0].rdata, RData::A(Ipv4Addr::localhost()));
    let a = done(&e.resolve(2, "foo.localhost", rtype::AAAA, false, now));
    assert_eq!(a.records[0].rdata, RData::Aaaa(Ipv6Addr::localhost()));
    let a = done(&e.resolve(3, "BOX", rtype::A, false, now));
    assert_eq!(a.records[0].rdata, RData::A(v4("10.0.2.15")));
    e.set_hosts(vec![(n("printer"), vec![ip("10.0.2.9")])]);
    let a = done(&e.resolve(4, "printer", rtype::A, false, now));
    assert_eq!(a.source, Source::Hosts);
    let a = done(&e.resolve(5, "9.2.0.10.in-addr.arpa", rtype::PTR, false, now));
    assert_eq!(a.records[0].rdata, RData::Ptr(n("printer")));
    let a = done(&e.resolve(6, "1.0.0.127.in-addr.arpa", rtype::PTR, false, now));
    assert_eq!(a.records[0].rdata, RData::Ptr(n("localhost")));
    let a = done(&e.resolve(7, "thing.local", rtype::A, false, now));
    assert_eq!(a.outcome, Outcome::NotFound);
    assert_eq!(e.counters.upstream_sent, 0);
}

#[test]
fn an_upstream_answer_is_returned_and_cached_per_scope() {
    let mut e = engine();
    let now = START;
    let actions = e.resolve(1, "www.example.com", rtype::A, false, now);
    let (tx, server, q) = sent(&actions);
    assert_eq!(server, ip("10.0.2.3"));
    assert_eq!(q.questions[0].name, n("www.example.com"));
    assert!(q.header.recursion_desired);
    let rec = Record::new(n("www.example.com"), 60, RData::A(v4("1.2.3.4")));
    let a = done(&e.received(tx, &reply(&q, vec![rec.clone()], rcode::NOERROR), now));
    assert_eq!(a.outcome, Outcome::Found);
    assert_eq!(a.source, Source::Dns);
    assert_eq!(a.records, vec![rec]);
    assert_eq!(a.interface.as_deref(), Some("lan"));
    // Second time: cache, no send.
    let actions = e.resolve(2, "WWW.EXAMPLE.COM", rtype::A, false, now + 10 * SECOND);
    let a = done(&actions);
    assert_eq!(a.source, Source::Cache);
    assert_eq!(e.counters.cache_hits, 1);
    // Servers change: the scope's cache dies.
    e.set_scopes(vec![scope("lan", &["10.0.2.4"], &["lan"], true)]);
    let actions = e.resolve(3, "www.example.com", rtype::A, false, now);
    sent(&actions);
}

#[test]
fn a_forged_reply_is_ignored() {
    let mut e = engine();
    let now = START;
    let (tx, _, q) = sent(&e.resolve(1, "www.example.com", rtype::A, false, now));
    let mut wrong_id = q.clone();
    wrong_id.header.id ^= 1;
    assert!(e.received(tx, &reply(&wrong_id, vec![], 0), now).is_empty());
    let mut wrong_case = q.clone();
    wrong_case.questions[0].name = n("www.example.com");
    if wrong_case.questions[0].name.same_case(&q.questions[0].name) {
        wrong_case.questions[0].name = n("WWW.EXAMPLE.COM");
    }
    assert!(e.received(tx, &reply(&wrong_case, vec![], 0), now).is_empty());
    assert!(e.received(tx, b"garbage", now).is_empty());
    assert_eq!(e.in_flight(), 1);
}

#[test]
fn timeouts_walk_servers_then_give_up_unavailable() {
    let mut e = Engine::new(1);
    e.set_scopes(vec![scope("lan", &["10.0.2.3", "10.0.2.4"], &[], true)]);
    let mut now = START;
    let (tx1, s1, _) = sent(&e.resolve(1, "example.com", rtype::A, false, now));
    assert_eq!(e.next_deadline(), Some(now + SERVER_TIMEOUT));
    now += SERVER_TIMEOUT;
    let actions = e.tick(now);
    assert!(actions.contains(&Action::Cancel { tx: tx1 }));
    let (_, s2, _) = sent(&actions);
    assert_ne!(s1, s2);
    now += SERVER_TIMEOUT;
    let actions = e.tick(now);
    let (_, s3, _) = sent(&actions);
    // Third attempt: both demoted, order preserved.
    assert_eq!(s3, s1);
    now += SERVER_TIMEOUT;
    let a = done(&e.tick(now));
    assert_eq!(a.outcome, Outcome::Unavailable);
    assert_eq!(e.in_flight(), 0);
    assert_eq!(e.demoted(now).len(), 2);
    // An Unavailable is never cached.
    sent(&e.resolve(2, "example.com", rtype::A, false, now));
}

#[test]
fn nxdomain_is_negative_cached_and_servfail_moves_on() {
    let mut e = Engine::new(1);
    e.set_scopes(vec![scope("lan", &["10.0.2.3", "10.0.2.4"], &[], true)]);
    let now = START;
    let (tx, _, q) = sent(&e.resolve(1, "nope.example.com", rtype::A, false, now));
    let mut m = Message::reply_to(&q);
    m.header.rcode = rcode::NXDOMAIN;
    m.authority.push(Record::new(
        n("example.com"),
        3600,
        RData::Soa { mname: n("ns"), rname: n("h"), serial: 1, refresh: 1, retry: 1, expire: 1, minimum: 60 },
    ));
    let a = done(&e.received(tx, &m.encode().unwrap(), now));
    assert_eq!(a.outcome, Outcome::NotFound);
    let a = done(&e.resolve(2, "nope.example.com", rtype::A, false, now + 30 * SECOND));
    assert_eq!(a.source, Source::Cache);
    assert_eq!(a.outcome, Outcome::NotFound);
    sent(&e.resolve(3, "nope.example.com", rtype::A, false, now + 61 * SECOND));

    let (tx, s1, q) = sent(&e.resolve(4, "x.example.com", rtype::A, false, now));
    let actions = e.received(tx, &reply(&q, vec![], rcode::SERVFAIL), now);
    let (_, s2, _) = sent(&actions);
    assert_ne!(s1, s2);
    assert!(e.demoted(now).contains(&s1));
}

#[test]
fn truncation_retries_over_tcp() {
    let mut e = engine();
    let now = START;
    let (tx, _, q) = sent(&e.resolve(1, "big.example.com", rtype::TXT, false, now));
    let mut m = Message::reply_to(&q);
    m.header.truncated = true;
    let actions = e.received(tx, &m.encode().unwrap(), now);
    match &actions[0] {
        Action::Send { tcp, .. } => assert!(tcp),
        other => panic!("{other:?}"),
    }
}

#[test]
fn single_labels_are_expanded_and_never_sent_bare() {
    let mut e = engine();
    let now = START;
    let (tx, _, q) = sent(&e.resolve(1, "printer", rtype::A, false, now));
    assert_eq!(q.questions[0].name, n("printer.lan"));
    let rec = Record::new(n("printer.lan"), 60, RData::A(v4("10.0.2.9")));
    let a = done(&e.received(tx, &reply(&q, vec![rec], 0), now));
    assert_eq!(a.resolved_name, Some(n("printer.lan")));
    // With no domains at all, a single label is NotFound locally.
    let mut e2 = Engine::new(1);
    e2.set_scopes(vec![scope("lan", &["10.0.2.3"], &[], true)]);
    let a = done(&e2.resolve(1, "printer", rtype::A, false, now));
    assert_eq!(a.outcome, Outcome::NotFound);
    assert_eq!(e2.counters.upstream_sent, 0);
    // Two domains: the second is tried after NXDOMAIN on the first.
    let mut e3 = Engine::new(1);
    e3.set_scopes(vec![scope("lan", &["10.0.2.3"], &["a.example", "b.example"], true)]);
    let (tx, _, q) = sent(&e3.resolve(1, "printer", rtype::A, false, now));
    assert_eq!(q.questions[0].name, n("printer.a.example"));
    let actions = e3.received(tx, &reply(&q, vec![], rcode::NXDOMAIN), now);
    let (_, _, q2) = sent(&actions);
    assert_eq!(q2.questions[0].name, n("printer.b.example"));
}

#[test]
fn routing_prefers_domain_match_then_default_route_then_exclusive_takes_all() {
    let mut e = Engine::new(1);
    let mut vpn = scope("vpn", &["10.8.0.1"], &["corp.example"], false);
    vpn.metric = 50;
    let lan = scope("lan", &["10.0.2.3"], &["lan"], true);
    e.set_scopes(vec![lan.clone(), vpn.clone()]);
    let now = START;
    let (_, s, _) = sent(&e.resolve(1, "git.corp.example", rtype::A, false, now));
    assert_eq!(s, ip("10.8.0.1"));
    let (_, s, _) = sent(&e.resolve(2, "www.example.com", rtype::A, false, now));
    assert_eq!(s, ip("10.0.2.3"));
    // A reverse name routes by subnet.
    let mut vpn2 = vpn.clone();
    vpn2.addresses = vec![(ip("10.8.0.2"), 24)];
    e.set_scopes(vec![lan.clone(), vpn2.clone()]);
    let (_, s, _) = sent(&e.resolve(3, "7.0.8.10.in-addr.arpa", rtype::PTR, false, now));
    assert_eq!(s, ip("10.8.0.1"));
    // Exclusive: everything, even the LAN's own domain, goes to the VPN.
    let mut excl = vpn2.clone();
    excl.exclusive = true;
    e.set_scopes(vec![lan, excl]);
    let (_, s, _) = sent(&e.resolve(4, "printer.lan", rtype::A, false, now));
    assert_eq!(s, ip("10.8.0.1"));
    let (_, _, q) = sent(&e.resolve(5, "printer", rtype::A, false, now));
    assert_eq!(q.questions[0].name, n("printer.corp.example"));
}

#[test]
fn fallback_servers_only_when_no_interface_supplies_any() {
    let mut e = Engine::new(1);
    e.set_fallback(vec![ip("9.9.9.9")], vec![n("fb.example")]);
    let now = START;
    let (_, s, _) = sent(&e.resolve(1, "example.com", rtype::A, false, now));
    assert_eq!(s, ip("9.9.9.9"));
    e.set_scopes(vec![scope("lan", &["10.0.2.3"], &[], true)]);
    let (_, s, _) = sent(&e.resolve(2, "example.com", rtype::A, false, now));
    assert_eq!(s, ip("10.0.2.3"));
    // No servers anywhere: Unavailable, not NotFound.
    let mut e2 = Engine::new(1);
    let a = done(&e2.resolve(1, "example.com", rtype::A, false, now));
    assert_eq!(a.outcome, Outcome::Unavailable);
}

#[test]
fn lookup_combines_both_families_and_chases_cnames() {
    let mut e = engine();
    let now = START;
    let actions = e.lookup(1, "www.example.com", Family::Any, now);
    let sends: Vec<(Txid, Message)> = actions
        .iter()
        .filter_map(|a| match a {
            Action::Send { tx, payload, .. } => Some((*tx, Message::decode(payload).unwrap())),
            _ => None,
        })
        .collect();
    assert_eq!(sends.len(), 2);
    let mut result = None;
    for (tx, q) in sends {
        let records = match q.questions[0].rtype {
            rtype::A => vec![
                Record::new(n("www.example.com"), 60, RData::Cname(n("example.com"))),
                Record::new(n("example.com"), 30, RData::A(v4("1.2.3.4"))),
            ],
            _ => vec![Record::new(n("www.example.com"), 60, RData::Cname(n("example.com")))],
        };
        for a in e.received(tx, &reply(&q, records, 0), now) {
            if let Action::Done { completion: Completion::Addresses(x), .. } = a {
                result = Some(x);
            }
        }
    }
    let r = result.expect("completed");
    assert_eq!(r.outcome, Outcome::Found);
    assert_eq!(r.canonical, n("example.com"));
    assert_eq!(r.addresses, vec![(ip("1.2.3.4"), 30)]);
}

#[test]
fn abandon_cancels_the_transaction() {
    let mut e = engine();
    let now = START;
    let (tx, _, _) = sent(&e.resolve(1, "example.com", rtype::A, false, now));
    let actions = e.abandon(1);
    assert_eq!(actions, vec![Action::Cancel { tx }]);
    assert_eq!(e.in_flight(), 0);
    assert!(e.received(tx, b"", now).is_empty());
}

#[test]
fn a_reply_with_the_wrong_question_or_a_dead_transaction_is_ignored() {
    let mut e = engine();
    let now = START;
    let (tx, _, q) = sent(&e.resolve(1, "www.example.com", rtype::A, false, now));
    let mut wrong_type = q.clone();
    wrong_type.questions[0].rtype = rtype::AAAA;
    assert!(e.received(tx, &reply(&wrong_type, vec![], 0), now).is_empty());
    let mut two_questions = q.clone();
    two_questions.questions.push(q.questions[0].clone());
    assert!(e.received(tx, &reply(&two_questions, vec![], 0), now).is_empty());
    let mut not_a_response = q.clone();
    not_a_response.header.response = false;
    assert!(e.received(tx, &not_a_response.encode().unwrap(), now).is_empty());
    // Answered once; the same bytes again hit a dead transaction.
    let ok = reply(&q, vec![Record::new(n("www.example.com"), 5, RData::A(v4("1.2.3.4")))], 0);
    assert!(!e.received(tx, &ok, now).is_empty());
    assert!(e.received(tx, &ok, now).is_empty());
    assert!(e.received(tx + 1000, &ok, now).is_empty());
}

#[test]
fn in_flight_is_bounded_and_refused_beyond_it() {
    let mut e = engine();
    let now = START;
    for i in 0..MAX_IN_FLIGHT as u64 {
        let actions = e.resolve(i, &format!("h{i}.example.com"), rtype::A, false, now);
        assert!(matches!(actions[0], Action::Send { .. }));
    }
    let a = done(&e.resolve(u64::MAX, "one-more.example.com", rtype::A, false, now));
    assert_eq!(a.outcome, Outcome::Unavailable);
    assert_eq!(e.counters.refused, 1);
    // Synthetic names still answer under load.
    let a = done(&e.resolve(u64::MAX - 1, "localhost", rtype::A, false, now));
    assert_eq!(a.outcome, Outcome::Found);
    // Timeouts drain it.
    let actions = e.tick(now + SERVER_TIMEOUT * 4);
    assert!(actions.len() >= MAX_IN_FLIGHT);
}

#[test]
fn hostile_ttls_and_missing_soa_are_bounded() {
    let mut e = engine();
    let now = START;
    let (tx, _, q) = sent(&e.resolve(1, "long.example.com", rtype::A, false, now));
    let rec = Record::new(n("long.example.com"), u32::MAX, RData::A(v4("1.2.3.4")));
    done(&e.received(tx, &reply(&q, vec![rec], 0), now));
    // Cached, but not forever.
    let a = done(&e.resolve(2, "long.example.com", rtype::A, false, now + (u64::from(MAX_POSITIVE_TTL) - 1) * SECOND));
    assert_eq!(a.source, Source::Cache);
    sent(&e.resolve(3, "long.example.com", rtype::A, false, now + (u64::from(MAX_POSITIVE_TTL) + 1) * SECOND));
    // NXDOMAIN with no SOA: not cached at all.
    let (tx, _, q) = sent(&e.resolve(4, "gone.example.com", rtype::A, false, now));
    done(&e.received(tx, &reply(&q, vec![], rcode::NXDOMAIN), now));
    sent(&e.resolve(5, "gone.example.com", rtype::A, false, now + 1 * SECOND));
    // An NXDOMAIN whose SOA claims a week: capped to minutes.
    let (tx, _, q) = sent(&e.resolve(6, "neg.example.com", rtype::A, false, now));
    let mut m = Message::reply_to(&q);
    m.header.rcode = rcode::NXDOMAIN;
    m.authority.push(Record::new(n("example.com"), 604800, RData::Soa { mname: n("a"), rname: n("b"), serial: 1, refresh: 1, retry: 1, expire: 1, minimum: 604800 }));
    done(&e.received(tx, &m.encode().unwrap(), now));
    sent(&e.resolve(7, "neg.example.com", rtype::A, false, now + (u64::from(MAX_NEGATIVE_TTL) + 1) * SECOND));
}

#[test]
fn a_cname_loop_in_a_lookup_terminates() {
    let mut e = engine();
    let now = START;
    let actions = e.lookup(1, "loop.example.com", Family::V4, now);
    let (tx, _, q) = sent(&actions);
    let records = vec![
        Record::new(n("loop.example.com"), 60, RData::Cname(n("a.example.com"))),
        Record::new(n("a.example.com"), 60, RData::Cname(n("b.example.com"))),
        Record::new(n("b.example.com"), 60, RData::Cname(n("a.example.com"))),
    ];
    let actions = e.received(tx, &reply(&q, records, 0), now);
    match &actions[0] {
        Action::Done { completion: Completion::Addresses(a), .. } => {
            assert_eq!(a.outcome, Outcome::Found);
            assert!(a.addresses.is_empty());
        }
        other => panic!("{other:?}"),
    }
}

#[test]
fn a_hostname_with_no_addresses_is_loopback() {
    let mut e = Engine::new(1);
    e.set_hostname(Some("lonely"));
    let a = done(&e.resolve(1, "lonely", rtype::A, false, START));
    assert_eq!(a.records[0].rdata, RData::A(Ipv4Addr::localhost()));
    let a = done(&e.resolve(2, "lonely", rtype::AAAA, false, START));
    assert_eq!(a.records[0].rdata, RData::Aaaa(Ipv6Addr::localhost()));
}

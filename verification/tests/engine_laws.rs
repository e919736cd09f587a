use resolvd::addr::{IpAddr, Ipv4Addr};
use resolvd::dns::{class, rcode, rtype, Message, Name, Question, RData, Record};
use resolvd::engine::{
    Action, Answer, Completion, Counters, Engine, Family, Level, Scope, Source, Txid, DEMOTION, FALLBACK_SCOPE,
    MAX_ATTEMPTS, SERVER_TIMEOUT,
};
use resolvd::protocol::Outcome;
use resolvd::time::{Instant, SECOND};

const NOW: Instant = 500 * SECOND;

fn n(s: &str) -> Name {
    Name::parse(s).unwrap()
}

fn ip(s: &str) -> IpAddr {
    IpAddr::parse(s).unwrap()
}

fn scope(id: &str, servers: &[&str], domains: &[&str]) -> Scope {
    Scope {
        id: id.into(),
        interface: format!("if-{id}"),
        servers: servers.iter().map(|s| ip(s)).collect(),
        domains: domains.iter().map(|d| n(d)).collect(),
        addresses: vec![(ip("10.0.2.15"), 24)],
        default_route: false,
        exclusive: false,
        metric: 100,
        level: Level::Routed,
    }
}

fn with(scopes: Vec<Scope>) -> Engine {
    let mut e = Engine::new(7);
    e.set_scopes(scopes);
    e
}

fn sent(actions: &[Action]) -> (Txid, IpAddr, bool, Message) {
    for a in actions {
        if let Action::Send { tx, server, tcp, payload } = a {
            return (*tx, *server, *tcp, Message::decode(payload).unwrap());
        }
    }
    panic!("nothing sent: {actions:?}");
}

fn done(actions: &[Action]) -> Answer {
    for a in actions {
        if let Action::Done { completion: Completion::Answer(ans), .. } = a {
            return ans.clone();
        }
    }
    panic!("not done: {actions:?}");
}

fn server_for(e: &mut Engine, name: &str) -> IpAddr {
    sent(&e.resolve(1, name, rtype::A, true, NOW)).1
}

#[test]
fn the_lowest_metric_wins() {
    let mut a = scope("a", &["10.0.0.1"], &[]);
    let mut b = scope("b", &["10.0.0.2"], &[]);
    a.default_route = true;
    b.default_route = true;
    b.metric = 50;
    assert_eq!(server_for(&mut with(vec![a, b]), "x.example"), ip("10.0.0.2"));
}

#[test]
fn the_longest_domain_wins_whatever_the_metric() {
    let mut a = scope("a", &["10.0.0.1"], &["example"]);
    a.metric = 1;
    let b = scope("b", &["10.0.0.2"], &["corp.example", "other"]);
    let mut e = with(vec![a, b]);
    assert_eq!(server_for(&mut e, "git.corp.example"), ip("10.0.0.2"));
    assert_eq!(server_for(&mut e, "www.example"), ip("10.0.0.1"));
}

#[test]
fn a_scope_that_is_down_or_has_no_servers_is_passed_over() {
    let mut a = scope("a", &["10.0.0.1"], &["example"]);
    a.level = Level::Down;
    let b = scope("b", &[], &["example"]);
    let mut e = with(vec![a, b]);
    e.set_fallback(vec![ip("9.9.9.9")], vec![]);
    assert_eq!(server_for(&mut e, "www.example"), ip("9.9.9.9"));
    assert_eq!(FALLBACK_SCOPE, "fallback");
}

#[test]
fn an_exclusive_scope_must_have_an_address() {
    let a = scope("a", &["10.0.0.1"], &["example"]);
    let mut b = scope("b", &["10.0.0.2"], &[]);
    b.exclusive = true;
    b.level = Level::Link;
    assert_eq!(server_for(&mut with(vec![a.clone(), b.clone()]), "www.example"), ip("10.0.0.1"));
    b.level = Level::Addressed;
    assert_eq!(server_for(&mut with(vec![a, b]), "www.example"), ip("10.0.0.2"));
}

#[test]
fn retries_go_elsewhere_and_then_round() {
    let mut e = with(vec![scope("a", &["10.0.0.1", "10.0.0.2"], &[])]);
    let (tx, first, _, _) = sent(&e.resolve(1, "x.example", rtype::A, false, NOW));
    let (tx, second, _, _) = sent(&e.failed(tx, NOW));
    assert_ne!(first, second);
    let (tx, third, _, _) = sent(&e.failed(tx, NOW));
    assert!(third == first || third == second);
    let a = done(&e.failed(tx, NOW));
    assert_eq!(a.outcome, Outcome::Unavailable);
    assert_eq!(a.interface.as_deref(), Some("if-a"));
    assert_eq!(MAX_ATTEMPTS, 3);
}

#[test]
fn a_failing_server_is_tried_last_for_a_while() {
    let mut e = with(vec![scope("a", &["10.0.0.1", "10.0.0.2"], &[])]);
    let (tx, first, _, _) = sent(&e.resolve(1, "x.example", rtype::A, false, NOW));
    assert_eq!(first, ip("10.0.0.1"));
    e.failed(tx, NOW);
    assert_eq!(e.demoted(NOW), vec![ip("10.0.0.1")]);
    assert_eq!(sent(&e.resolve(2, "y.example", rtype::A, false, NOW)).1, ip("10.0.0.2"));
    assert_eq!(sent(&e.resolve(3, "z.example", rtype::A, false, NOW + DEMOTION)).1, ip("10.0.0.1"));
    assert!(e.demoted(NOW + DEMOTION).is_empty());
}

#[test]
fn an_answer_ends_a_demotion() {
    let mut e = with(vec![scope("a", &["10.0.0.1"], &[])]);
    let (tx, _, _, _) = sent(&e.resolve(1, "x.example", rtype::A, false, NOW));
    let (tx, _, _, q) = sent(&e.failed(tx, NOW));
    assert_eq!(e.demoted(NOW).len(), 1);
    done(&e.received(tx, &Message::reply_to(&q).encode().unwrap(), NOW));
    assert!(e.demoted(NOW).is_empty());
}

#[test]
fn a_truncated_reply_over_tcp_is_taken_as_it_is() {
    let mut e = with(vec![scope("a", &["10.0.0.1"], &[])]);
    let (tx, server, tcp, q) = sent(&e.resolve(1, "x.example", rtype::A, false, NOW));
    assert!(!tcp);
    let mut m = Message::reply_to(&q);
    m.header.truncated = true;
    let (tx2, server2, tcp2, q2) = sent(&e.received(tx, &m.encode().unwrap(), NOW));
    assert!(tcp2 && server2 == server && tx2 != tx);
    let mut m = Message::reply_to(&q2);
    m.header.truncated = true;
    assert_eq!(done(&e.received(tx2, &m.encode().unwrap(), NOW)).outcome, Outcome::Found);
}

#[test]
fn absence_comes_without_records() {
    let mut e = with(vec![scope("a", &["10.0.0.1"], &[])]);
    let (tx, _, _, q) = sent(&e.resolve(1, "x.example", rtype::A, false, NOW));
    let mut m = Message::reply_to(&q);
    m.header.rcode = rcode::NXDOMAIN;
    m.answers.push(Record::new(n("x.example"), 9, RData::A(Ipv4Addr::new(1, 2, 3, 4))));
    let a = done(&e.received(tx, &m.encode().unwrap(), NOW));
    assert_eq!(a.outcome, Outcome::NotFound);
    assert!(a.records.is_empty());
    assert_eq!(a.rcode, 3);
}

#[test]
fn only_records_of_class_in_come_through_in_the_case_that_was_asked() {
    let mut e = with(vec![scope("a", &["10.0.0.1"], &[])]);
    let (tx, _, _, q) = sent(&e.resolve(1, "MiXed.example", rtype::A, false, NOW));
    let mut m = Message::reply_to(&q);
    let mut chaos = Record::new(q.questions[0].name.clone(), 9, RData::A(Ipv4Addr::new(1, 2, 3, 4)));
    chaos.class = 3;
    m.answers.push(chaos);
    m.answers.push(Record::new(q.questions[0].name.clone(), 9, RData::A(Ipv4Addr::new(1, 2, 3, 5))));
    let a = done(&e.received(tx, &m.encode().unwrap(), NOW));
    assert_eq!(a.records.len(), 1);
    assert_eq!(a.records[0].class, class::IN);
    assert_eq!(a.records[0].name.to_text(), "MiXed.example");
}

#[test]
fn answers_die_with_the_scope_and_no_other() {
    let mut e = with(vec![scope("a", &["10.0.0.1"], &["a.example"]), scope("b", &["10.0.0.2"], &["b.example"])]);
    for (q, name) in [(1, "x.a.example"), (2, "x.b.example")] {
        let (tx, _, _, query) = sent(&e.resolve(q, name, rtype::A, false, NOW));
        let mut m = Message::reply_to(&query);
        m.answers.push(Record::new(n(name), 60, RData::A(Ipv4Addr::new(1, 2, 3, 4))));
        done(&e.received(tx, &m.encode().unwrap(), NOW));
    }
    assert_eq!(e.cache_entries(), 2);
    e.set_scopes(vec![scope("b", &["10.0.0.2"], &["b.example"])]);
    assert_eq!(e.cache_entries(), 1);
    assert_eq!(done(&e.resolve(3, "x.b.example", rtype::A, false, NOW)).source, Source::Cache);
    e.flush();
    assert_eq!(e.cache_entries(), 0);
}

#[test]
fn fallback_answers_die_with_the_fallback_servers() {
    let mut e = Engine::new(1);
    e.set_fallback(vec![ip("9.9.9.9")], vec![]);
    let (tx, _, _, q) = sent(&e.resolve(1, "x.example", rtype::A, false, NOW));
    let mut m = Message::reply_to(&q);
    m.answers.push(Record::new(n("x.example"), 60, RData::A(Ipv4Addr::new(1, 2, 3, 4))));
    done(&e.received(tx, &m.encode().unwrap(), NOW));
    e.set_fallback(vec![ip("9.9.9.9")], vec![n("other.example")]);
    assert_eq!(e.cache_entries(), 1);
    e.set_fallback(vec![ip("9.9.9.8")], vec![]);
    assert_eq!(e.cache_entries(), 0);
    assert_eq!(e.fallback_servers(), &[ip("9.9.9.8")]);
}

#[test]
fn no_cache_asks_again() {
    let mut e = with(vec![scope("a", &["10.0.0.1"], &[])]);
    let (tx, _, _, q) = sent(&e.resolve(1, "x.example", rtype::A, false, NOW));
    let mut m = Message::reply_to(&q);
    m.answers.push(Record::new(n("x.example"), 60, RData::A(Ipv4Addr::new(1, 2, 3, 4))));
    done(&e.received(tx, &m.encode().unwrap(), NOW));
    sent(&e.resolve(2, "x.example", rtype::A, true, NOW));
    assert_eq!(e.counters(), Counters { queries: 2, upstream_sent: 2, upstream_answered: 1, ..Counters::default() });
}

#[test]
fn names_that_are_no_names_are_not_found() {
    let mut e = with(vec![scope("a", &["10.0.0.1"], &[])]);
    assert_eq!(done(&e.resolve(1, "a..b", rtype::A, false, NOW)).outcome, Outcome::NotFound);
    match &e.lookup(2, "a..b", Family::Any, NOW)[0] {
        Action::Done { qid: 2, completion: Completion::Addresses(a) } => assert_eq!(a.outcome, Outcome::NotFound),
        other => panic!("{other:?}"),
    }
    assert_eq!(e.in_flight(), 0);
}

#[test]
fn questions_of_messages_and_of_addresses_are_questions() {
    let mut e = with(vec![scope("a", &["10.0.0.1"], &[])]);
    let (_, _, _, q) = sent(&e.resolve_question(1, &Question::new(n("x.example"), rtype::TXT), NOW));
    assert_eq!(q.questions[0].rtype, rtype::TXT);
    let (_, _, _, q) = sent(&e.reverse(2, ip("192.0.2.9"), NOW));
    assert_eq!(q.questions[0].name, n("9.2.0.192.in-addr.arpa"));
    assert_eq!(q.questions[0].rtype, rtype::PTR);
    assert_eq!(e.in_flight(), 2);
    assert_eq!(e.next_deadline(), Some(NOW + SERVER_TIMEOUT));
}

#[test]
fn the_machine_knows_its_own_names() {
    let mut e = with(vec![scope("a", &["10.0.0.1"], &[])]);
    e.set_hostname(Some("box.example"));
    assert_eq!(e.hostname().map(|h| h.to_text()), Some("box.example".into()));
    let a = done(&e.resolve(1, "15.2.0.10.in-addr.arpa", rtype::PTR, false, NOW));
    assert_eq!(a.records[0].rdata, RData::Ptr(n("box.example")));
    e.set_hostname(Some("."));
    assert_eq!(e.hostname(), None);
    e.set_hostname(None);
    assert_eq!(e.hostname(), None);
    assert_eq!(e.scopes().len(), 1);
}

#[test]
fn abandoning_a_lookup_forgets_both_of_its_transactions() {
    let mut e = with(vec![scope("a", &["10.0.0.1"], &[])]);
    e.lookup(1, "x.example", Family::Any, NOW);
    e.resolve(2, "y.example", rtype::A, false, NOW);
    let actions = e.abandon(1);
    assert_eq!(actions.len(), 2);
    assert!(actions.iter().all(|a| matches!(a, Action::Cancel { .. })));
    assert_eq!(e.in_flight(), 1);
}

#[test]
fn what_is_left_open_is_ended_by_time_alone() {
    let mut e = with(vec![scope("a", &["10.0.0.1", "10.0.0.2"], &["lan"])]);
    e.lookup(1, "x.example", Family::Any, NOW);
    e.resolve(2, "printer", rtype::A, false, NOW);
    let mut answered = Vec::new();
    for k in 1..=u64::from(MAX_ATTEMPTS) {
        for a in e.tick(NOW + k * SERVER_TIMEOUT) {
            if let Action::Done { qid, .. } = a {
                answered.push(qid);
            }
        }
    }
    answered.sort_unstable();
    assert_eq!(answered, [1, 2]);
    assert_eq!(e.in_flight(), 0);
    assert_eq!(e.next_deadline(), None);
}

#[test]
fn an_alias_is_followed_wherever_it_stands() {
    let mut e = with(vec![scope("a", &["10.0.0.1"], &[])]);
    let (tx, _, _, q) = sent(&e.lookup(1, "www.example", Family::V4, NOW));
    let mut m = Message::reply_to(&q);
    m.answers.push(Record::new(n("www.example"), 60, RData::Txt(vec![b"t".to_vec()])));
    m.answers.push(Record::new(n("www.example"), 60, RData::Cname(n("end.example"))));
    m.answers.push(Record::new(n("end.example"), 30, RData::A(Ipv4Addr::new(1, 2, 3, 4))));
    match &e.received(tx, &m.encode().unwrap(), NOW)[..] {
        [Action::Done { qid: 1, completion: Completion::Addresses(a) }] => {
            assert_eq!(a.canonical, n("end.example"));
            assert_eq!(a.addresses, [(ip("1.2.3.4"), 30)]);
        }
        other => panic!("{other:?}"),
    }
}

#[test]
fn a_reply_answers_until_it_expires() {
    let mut e = with(vec![scope("a", &["10.0.0.1"], &[])]);
    let (tx, _, _, q) = sent(&e.resolve(1, "x.example", rtype::A, false, NOW));
    let mut m = Message::reply_to(&q);
    m.answers.push(Record::new(n("x.example"), 60, RData::A(Ipv4Addr::new(1, 2, 3, 4))));
    m.answers.push(Record::new(n("x.example"), 20, RData::A(Ipv4Addr::new(1, 2, 3, 5))));
    done(&e.received(tx, &m.encode().unwrap(), NOW));
    let a = done(&e.resolve(2, "X.example", rtype::A, false, NOW + 20 * SECOND - 1));
    assert_eq!(a.source, Source::Cache);
    assert_eq!(a.records.iter().map(|r| r.ttl).collect::<Vec<_>>(), [41, 1]);
    sent(&e.resolve(3, "x.example", rtype::A, false, NOW + 20 * SECOND));
}

#[test]
fn what_a_server_failed_to_say_is_not_kept() {
    let mut e = with(vec![scope("a", &["10.0.0.1"], &[])]);
    let (tx, _, _, q) = sent(&e.resolve(1, "x.example", rtype::A, false, NOW));
    let mut m = Message::reply_to(&q);
    m.header.rcode = rcode::SERVFAIL;
    let (tx, _, _, _) = sent(&e.received(tx, &m.encode().unwrap(), NOW));
    e.failed(tx, NOW);
    assert_eq!(e.cache_entries(), 0);
}

#[test]
fn a_retry_follows_the_cancel_of_what_is_overdue() {
    let mut e = with(vec![scope("a", &["10.0.0.1", "10.0.0.2"], &[])]);
    let (x, ..) = sent(&e.resolve(1, "x.example", rtype::A, false, NOW));
    let (y, ..) = sent(&e.resolve(2, "y.example", rtype::A, false, NOW));
    assert!(e.tick(NOW + SERVER_TIMEOUT - 1).is_empty());
    match &e.tick(NOW + SERVER_TIMEOUT)[..] {
        [Action::Cancel { tx: a }, Action::Send { tx: b, .. }, Action::Cancel { tx: c }, Action::Send { tx: d, .. }] => {
            assert_eq!((*a, *c), (x, y));
            assert!(*b > y && *d > *b);
        }
        other => panic!("{other:?}"),
    }
}

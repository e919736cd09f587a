//! The engine as a whole system under an arbitrary world: questions, scope
//! changes, replies of every kind, transport failures, and time.

use resolvd::addr::{IpAddr, Ipv4Addr};
use resolvd::dns::{class, rtype, Message, Name, RData, Record};
use resolvd::engine::{Action, Completion, Engine, Family, Level, Scope, MAX_IN_FLIGHT, SERVER_TIMEOUT};
use resolvd::protocol::Outcome;
use resolvd::time::{Instant, SECOND};
use std::collections::{BTreeMap, BTreeSet};

struct Dice(u64);

impl Dice {
    fn next(&mut self) -> u64 {
        let mut x = self.0;
        x ^= x >> 12;
        x ^= x << 25;
        x ^= x >> 27;
        self.0 = x;
        x.wrapping_mul(0x2545_F491_4F6C_DD1D)
    }

    fn below(&mut self, n: u64) -> u64 {
        (self.next() >> 11) % n
    }
}

const NAMES: [&str; 14] = [
    "example.com",
    "www.example.com",
    "printer",
    "localhost",
    "box",
    "git.corp.example",
    "thing.local",
    "1.2.0.10.in-addr.arpa",
    "a.b.c.d.e.f.g.h.example",
    "x",
    "",
    "..",
    "EXAMPLE.COM.",
    "loop.example.com",
];

const TYPES: [u16; 8] = [rtype::A, rtype::AAAA, rtype::PTR, rtype::CNAME, rtype::TXT, rtype::ANY, 65, rtype::SOA];

fn n(s: &str) -> Name {
    Name::parse(s).unwrap()
}

fn ip(s: &str) -> IpAddr {
    IpAddr::parse(s).unwrap()
}

fn scope(id: &str, servers: &[&str], domains: &[&str], default_route: bool, exclusive: bool, metric: u32) -> Scope {
    Scope {
        id: id.into(),
        interface: id.into(),
        servers: servers.iter().map(|s| ip(s)).collect(),
        domains: domains.iter().map(|d| n(d)).collect(),
        addresses: vec![(ip("10.0.2.15"), 24)],
        default_route,
        exclusive,
        metric,
        level: Level::Routed,
    }
}

fn scopes(variant: u64) -> Vec<Scope> {
    match variant {
        0 => vec![],
        1 => vec![scope("lan", &["10.0.2.3"], &["lan"], true, false, 100)],
        2 => vec![
            scope("lan", &["10.0.2.3", "10.0.2.4"], &["lan"], true, false, 100),
            scope("vpn", &["10.8.0.1"], &["corp.example"], false, false, 50),
        ],
        3 => vec![
            scope("lan", &["10.0.2.3"], &["lan"], true, false, 100),
            scope("vpn", &["10.8.0.1"], &["corp.example"], false, true, 50),
        ],
        _ => vec![scope("lan", &["10.0.2.9"], &["a.example", "b.example", "c.example"], false, false, 100)],
    }
}

/// A message that matches what was sent.
fn answer_for(sent: &[u8], dice: &mut Dice) -> Vec<u8> {
    let q = Message::decode(sent).unwrap();
    let mut m = Message::reply_to(&q);
    m.header.rcode = dice.below(6) as u8;
    m.header.truncated = dice.below(5) == 0;
    let ttl = dice.next() as u32;
    let name = q.questions[0].name.clone();
    for i in 0..dice.below(4) {
        m.answers.push(match i % 3 {
            0 => Record::new(name.clone(), ttl, RData::A(Ipv4Addr::new(10, 0, 0, i as u8))),
            1 => Record::new(name.clone(), ttl, RData::Cname(n("loop.example.com"))),
            _ => Record::new(n("loop.example.com"), ttl, RData::Cname(name.clone())),
        });
    }
    if dice.below(2) == 0 {
        m.authority.push(Record::new(
            n("example.com"),
            ttl,
            RData::Soa { mname: n("a"), rname: n("b"), serial: 1, refresh: 1, retry: 1, expire: 1, minimum: ttl },
        ));
    }
    m.encode().unwrap()
}

struct World {
    open: BTreeMap<u64, Vec<u8>>,
    answered: BTreeMap<u64, u32>,
}

impl World {
    fn apply(&mut self, actions: Vec<Action>) {
        for a in actions {
            match a {
                Action::Send { tx, payload, .. } => assert!(self.open.insert(tx, payload).is_none(), "{tx} used again"),
                Action::Cancel { tx } => {
                    self.open.remove(&tx);
                }
                Action::Done { qid, completion } => {
                    *self.answered.entry(qid).or_default() += 1;
                    match completion {
                        Completion::Answer(a) => {
                            assert!(a.outcome == Outcome::Found || a.records.is_empty());
                            assert!(a.records.iter().all(|r| r.class == class::IN));
                        }
                        Completion::Addresses(a) => assert!(a.outcome == Outcome::Found || a.addresses.is_empty()),
                    }
                }
            }
        }
    }

    fn pick(&self, dice: &mut Dice) -> Option<u64> {
        if self.open.is_empty() {
            return None;
        }
        self.open.keys().nth(dice.below(self.open.len() as u64) as usize).copied()
    }
}

fn play(seed: u64, steps: u64) {
    let mut dice = Dice(seed | 1);
    let mut e = Engine::new(seed);
    e.set_scopes(scopes(1));
    e.set_hostname(Some("box"));
    let mut now: Instant = 100 * SECOND;
    let mut world = World { open: BTreeMap::new(), answered: BTreeMap::new() };
    let mut asked = BTreeSet::new();
    let mut qid: u64 = 0;
    for _ in 0..steps {
        let name = NAMES[dice.below(NAMES.len() as u64) as usize];
        let actions = match dice.below(13) {
            0 | 1 => {
                qid += 1;
                asked.insert(qid);
                let t = TYPES[dice.below(TYPES.len() as u64) as usize];
                e.resolve(qid, name, t, dice.below(2) == 0, now)
            }
            2 => {
                qid += 1;
                asked.insert(qid);
                let family = [Family::Any, Family::V4, Family::V6][dice.below(3) as usize];
                e.lookup(qid, name, family, now)
            }
            3 => {
                qid += 1;
                asked.insert(qid);
                e.reverse(qid, IpAddr::V4(Ipv4Addr::new(10, dice.below(256) as u8, 2, 15)), now)
            }
            4 | 5 | 6 => match world.pick(&mut dice) {
                Some(tx) => {
                    let bytes = answer_for(&world.open[&tx], &mut dice);
                    world.open.remove(&tx);
                    e.received(tx, &bytes, now)
                }
                None => Vec::new(),
            },
            7 => match world.pick(&mut dice) {
                Some(tx) => {
                    let mut q = Message::decode(&world.open[&tx]).unwrap();
                    q.questions[0].rtype ^= 1;
                    let before = e.in_flight();
                    let actions = e.received(tx, &Message::reply_to(&q).encode().unwrap(), now);
                    assert!(actions.is_empty(), "a reply to the wrong question was accepted");
                    assert_eq!(e.in_flight(), before);
                    actions
                }
                None => Vec::new(),
            },
            8 => match world.pick(&mut dice) {
                Some(tx) => {
                    world.open.remove(&tx);
                    e.failed(tx, now)
                }
                None => Vec::new(),
            },
            9 => {
                now += dice.below(3_000) * (SECOND / 1000);
                e.tick(now)
            }
            10 => {
                e.set_scopes(scopes(dice.below(5)));
                Vec::new()
            }
            11 => {
                if dice.below(2) == 0 {
                    e.set_fallback(vec![ip("9.9.9.9")], vec![n("fb.example")]);
                    e.set_hosts(vec![(n("printer"), vec![ip("10.0.2.9")])]);
                } else {
                    e.set_fallback(vec![], vec![]);
                    e.set_hosts(vec![]);
                }
                Vec::new()
            }
            _ => {
                e.flush();
                Vec::new()
            }
        };
        world.apply(actions);
        assert!(e.in_flight() <= MAX_IN_FLIGHT);
        assert_eq!(e.in_flight(), world.open.len());
    }
    for _ in 0..4 {
        now += SERVER_TIMEOUT;
        let actions = e.tick(now);
        world.apply(actions);
    }
    assert_eq!(e.in_flight(), 0);
    assert!(world.open.is_empty());
    for q in &asked {
        assert_eq!(world.answered.get(q), Some(&1), "question {q}");
    }
    assert_eq!(world.answered.len(), asked.len());
}

#[test]
fn every_question_is_answered_exactly_once() {
    for seed in 0..60 {
        play(seed * 7919 + 3, 400);
    }
}

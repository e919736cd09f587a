use resolvd::addr::IpAddr;
use resolvd::msgpack;
use resolvd::protocol::{
    recv, send, AddressOut, Addresses, Answer, Counters, Family, Outcome, RecordOut, Reply, Request, ScopeStatus,
    StatusReport, Validation, WireError, RESOLVER_CONTROL, RESOLVER_QUERY,
};

fn ip(s: &str) -> IpAddr {
    IpAddr::parse(s).unwrap()
}

#[test]
fn requests_round_trip() {
    for req in [
        Request::Resolve {
            name: "example.com".into(),
            rtype: 1,
            no_cache: true,
        },
        Request::Lookup {
            name: "host".into(),
            family: Family::V6,
        },
        Request::Reverse {
            address: ip("10.0.2.15"),
        },
        Request::Status,
        Request::Flush,
    ] {
        assert_eq!(Request::decode(&req.encode()).unwrap(), req);
    }
    assert_eq!(Request::Flush.required_right(), RESOLVER_CONTROL);
    assert_eq!(Request::Status.required_right(), RESOLVER_QUERY);
}

#[test]
fn replies_round_trip() {
    let answer = Reply::Answer(Answer {
        outcome: Outcome::Found,
        records: vec![RecordOut {
            name: "example.com".into(),
            rtype: 1,
            ttl: 30,
            data: vec![1, 2, 3, 4],
            text: "1.2.3.4".into(),
        }],
        source: "dns".into(),
        server: Some("10.0.2.3".into()),
        interface: Some("eth0".into()),
        validation: Validation::Unvalidated,
        rcode: 0,
    });
    assert_eq!(Reply::decode(&answer.encode()).unwrap(), answer);
    let addresses = Reply::Addresses(Addresses {
        outcome: Outcome::Found,
        canonical: "example.com".into(),
        addresses: vec![AddressOut {
            address: ip("1.2.3.4"),
            ttl: 30,
        }],
        source: "cache".into(),
        validation: Validation::Unvalidated,
    });
    assert_eq!(Reply::decode(&addresses.encode()).unwrap(), addresses);
    let status = Reply::Status(StatusReport {
        hostname: "box".into(),
        netd: true,
        scopes: vec![ScopeStatus {
            interface: "eth0".into(),
            servers: vec!["10.0.2.3".into()],
            domains: vec!["lan".into()],
            default_route: true,
            exclusive: false,
            metric: 100,
            subnets: vec!["10.0.2.0/24".into()],
            demoted: vec![],
        }],
        fallback_servers: vec![],
        cache_entries: 3,
        counters: Counters {
            queries: 9,
            cache_hits: 2,
            ..Counters::default()
        },
    });
    assert_eq!(Reply::decode(&status.encode()).unwrap(), status);
    assert_eq!(Reply::decode(&Reply::Okay.encode()).unwrap(), Reply::Okay);
    let e = Reply::Error("no".into());
    assert_eq!(Reply::decode(&e.encode()).unwrap(), e);
}

#[test]
fn framing_round_trips_and_refuses_oversize() {
    let mut buf = Vec::new();
    send(&mut buf, b"abc").unwrap();
    assert_eq!(buf, [3, 0, 0, 0, b'a', b'b', b'c']);
    assert_eq!(recv(&mut &buf[..]).unwrap(), b"abc");
    let big = [0xffu8, 0xff, 0xff, 0x00];
    assert!(matches!(recv(&mut &big[..]), Err(WireError::TooLarge(_))));
}

struct Rng(u64);
impl Rng {
    fn next(&mut self) -> u64 {
        let mut x = self.0;
        x ^= x >> 12;
        x ^= x << 25;
        x ^= x >> 27;
        self.0 = x;
        x.wrapping_mul(0x2545_F491_4F6C_DD1D)
    }
    fn below(&mut self, n: usize) -> usize {
        (self.next() % n.max(1) as u64) as usize
    }
}

#[test]
fn fuzz_decoders_never_panic() {
    let mut rng = Rng(0xc0de);
    let seeds: Vec<Vec<u8>> = vec![
        Request::Resolve {
            name: "a.example".into(),
            rtype: 1,
            no_cache: true,
        }
        .encode(),
        Request::Lookup {
            name: "x".into(),
            family: Family::V6,
        }
        .encode(),
        Request::Reverse {
            address: ip("10.0.0.1"),
        }
        .encode(),
        Reply::Answer(Answer {
            records: vec![RecordOut {
                name: "a".into(),
                rtype: 1,
                ttl: 1,
                data: vec![1],
                text: "t".into(),
            }],
            ..Default::default()
        })
        .encode(),
        Reply::Status(StatusReport {
            scopes: vec![ScopeStatus::default()],
            ..Default::default()
        })
        .encode(),
        Reply::Addresses(Addresses {
            addresses: vec![AddressOut {
                address: ip("::1"),
                ttl: 2,
            }],
            ..Default::default()
        })
        .encode(),
    ];
    for _ in 0..20_000 {
        let mut bytes = if rng.below(4) == 0 {
            (0..rng.below(200)).map(|_| rng.next() as u8).collect()
        } else {
            seeds[rng.below(seeds.len())].clone()
        };
        for _ in 0..1 + rng.below(5) {
            if bytes.is_empty() {
                break;
            }
            let at = rng.below(bytes.len());
            match rng.below(3) {
                0 => bytes[at] = rng.next() as u8,
                1 => bytes.truncate(at),
                _ => bytes.insert(at, rng.next() as u8),
            }
        }
        if let Ok(r) = Request::decode(&bytes) {
            assert_eq!(Request::decode(&r.encode()).unwrap(), r);
        }
        if let Ok(r) = Reply::decode(&bytes) {
            let _ = Reply::decode(&r.encode()).unwrap();
        }
        let _ = msgpack::Reader::new(&bytes).skip();
        let _ = recv(&mut &bytes[..]);
    }
}

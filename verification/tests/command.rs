use resolvd::addr::IpAddr;
use resolvd::cli::{finish, parse, start, Command, Report, Start};
use resolvd::probe;
use resolvd::protocol::{
    AddressOut, Addresses, Answer, Counters, Family, Outcome, RecordOut, Reply, Request, ScopeStatus, StatusReport,
};

fn command(args: &[&str]) -> Command {
    parse(&args.iter().map(|a| a.to_string()).collect())
}

fn asked(args: &[&str]) -> Request {
    match start(&command(args)) {
        Start::Ask(r) => r,
        other => panic!("{other:?}"),
    }
}

fn ended(args: &[&str]) -> Report {
    match start(&command(args)) {
        Start::End(r) => r,
        other => panic!("{other:?}"),
    }
}

#[test]
fn every_verb_is_one_request() {
    assert_eq!(asked(&["status"]), Request::Status);
    assert_eq!(asked(&["flush"]), Request::Flush);
    assert_eq!(asked(&["query", "h"]), Request::Resolve { name: "h".into(), rtype: 1, no_cache: false });
    assert_eq!(asked(&["--no-cache", "query", "h", "mx"]), Request::Resolve { name: "h".into(), rtype: 15, no_cache: true });
    assert_eq!(asked(&["lookup", "h"]), Request::Lookup { name: "h".into(), family: Family::Any });
    assert_eq!(asked(&["reverse", "::1"]), Request::Reverse { address: IpAddr::parse("::1").unwrap() });
}

#[test]
fn what_cannot_be_asked_is_complained_of() {
    let r = ended(&["query", "h", "no\"pe"]);
    assert_eq!((r.err.as_str(), r.out.as_str(), r.code), ("resolv: unknown record type \"no\\\"pe\"\n", "", 1));
    let r = ended(&["reverse", "1.2.3"]);
    assert_eq!((r.err.as_str(), r.code), ("resolv: \"1.2.3\" is not an address\n", 1));
    for args in [&[][..], &["status", "now"], &["query"], &["query", "a", "b", "c"], &["dance"]] {
        let r = ended(args);
        assert_eq!(r.code, 64);
        assert!(r.err.starts_with("usage: resolv status | query"));
    }
}

#[test]
fn errors_and_other_replies_fail() {
    let r = finish(&command(&["flush"]), Err("resolvd is not reachable".into()));
    assert_eq!((r.err.as_str(), r.code), ("resolv: resolvd is not reachable\n", 1));
    let r = finish(&command(&["flush"]), Ok(Reply::Error("access denied".into())));
    assert_eq!((r.err.as_str(), r.code), ("resolv: access denied\n", 1));
    let r = finish(&command(&["flush"]), Ok(Reply::Answer(Answer::default())));
    assert_eq!((r.out.as_str(), r.err.as_str(), r.code), ("", "", 1));
    let r = finish(&command(&["flush"]), Ok(Reply::Okay));
    assert_eq!((r.out.as_str(), r.err.as_str(), r.code), ("", "", 0));
}

#[test]
fn an_answer_is_printed() {
    let mut a = Answer {
        outcome: Outcome::Found,
        records: vec![RecordOut { name: "h.example".into(), rtype: 1, ttl: 30, data: vec![], text: "1.2.3.4".into() }],
        source: "dns".into(),
        server: Some("10.0.2.3".into()),
        interface: Some("eth0".into()),
        rcode: 0,
        ..Default::default()
    };
    let r = finish(&command(&["query", "h.example"]), Ok(Reply::Answer(a.clone())));
    assert_eq!(r.out, "found  dns via 10.0.2.3 on eth0  validation unvalidated\nh.example\t30\tA\t1.2.3.4\n");
    assert_eq!(r.code, 0);
    a.rcode = 3;
    a.server = None;
    a.interface = None;
    let r = finish(&command(&["query", "h.example"]), Ok(Reply::Answer(a.clone())));
    assert_eq!(r.out, "found  dns  validation unvalidated\nrcode NXDOMAIN\nh.example\t30\tA\t1.2.3.4\n");
    a.outcome = Outcome::NotFound;
    let r = finish(&command(&["reverse", "1.2.3.4"]), Ok(Reply::Answer(a)));
    assert_eq!((r.out.as_str(), r.code), ("notfound  dns\n1.2.3.4\n", 2));
}

#[test]
fn addresses_are_printed() {
    let a = Addresses {
        outcome: Outcome::Unavailable,
        canonical: "h.example".into(),
        addresses: vec![AddressOut { address: IpAddr::parse("::2").unwrap(), ttl: 7 }],
        source: "cache".into(),
        ..Default::default()
    };
    let r = finish(&command(&["lookup", "h.example"]), Ok(Reply::Addresses(a)));
    assert_eq!((r.out.as_str(), r.code), ("unavailable  cache  canonical h.example\n::2\t7\n", 3));
}

#[test]
fn the_status_is_printed() {
    let r = finish(&command(&["status"]), Ok(Reply::Status(StatusReport::default())));
    assert_eq!(
        r.out,
        "hostname   (unset)\nnetd       not connected\ncache      0 entries\nscopes     (none)\n\n\
         queries 0  synthetic 0  cache-hits 0  upstream sent 0 answered 0 failed 0  refused 0\n"
    );
    let s = StatusReport {
        hostname: "box".into(),
        netd: true,
        scopes: vec![ScopeStatus {
            interface: "eth0".into(),
            servers: vec!["10.0.2.3".into(), "10.0.2.4".into()],
            domains: vec!["lan".into()],
            default_route: true,
            exclusive: true,
            metric: 100,
            subnets: vec!["10.0.2.0/24".into()],
            demoted: vec!["10.0.2.4".into()],
        }],
        fallback_servers: vec!["9.9.9.9".into(), "::9".into()],
        cache_entries: 3,
        counters: Counters { queries: 12, ..Counters::default() },
    };
    let r = finish(&command(&["status"]), Ok(Reply::Status(s)));
    assert_eq!(
        r.out,
        "hostname   box\nnetd       connected\ncache      3 entries\n\n\
         eth0  metric 100  [default-route, exclusive]\n  server   10.0.2.3\n  server   10.0.2.4  (demoted)\n\
         \x20 domain   lan\n  subnet   10.0.2.0/24\n\nfallback   9.9.9.9 ::9\n\n\
         queries 12  synthetic 0  cache-hits 0  upstream sent 0 answered 0 failed 0  refused 0\n"
    );
}

#[test]
fn the_probe_asks_and_describes() {
    let q = probe::query("a.bc.");
    assert_eq!(q, [0x12, 0x34, 1, 0, 0, 1, 0, 0, 0, 0, 0, 0, 1, b'a', 2, b'b', b'c', 0, 0, 1, 0, 1]);
    assert_eq!(probe::describe(&[1, 2, 3]), "short reply (3 bytes)");
    let mut r = q.clone();
    r[3] = 0x83;
    r[7] = 2;
    assert_eq!(probe::describe(&r), "rcode=3 ancount=2 A=[] (22 bytes)");
    for last in [4, 5] {
        r.extend_from_slice(&[0xc0, 12, 0, 1, 0, 1, 0, 0, 0, 9, 0, 4, 1, 2, 3, last]);
    }
    assert_eq!(probe::describe(&r), "rcode=3 ancount=2 A=[\"1.2.3.4\", \"1.2.3.5\"] (54 bytes)");
}

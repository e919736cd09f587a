use resolvd::addr::{IpAddr, Ipv4Addr, Ipv6Addr};
use resolvd::dns::{rtype, Error, Message, Name, Question, RData, Record, EDNS_UDP_SIZE};
use std::hash::{Hash, Hasher};

fn v6(s: &str) -> Ipv6Addr {
    match IpAddr::parse(s) {
        Some(IpAddr::V6(a)) => a,
        other => panic!("not an address: {other:?}"),
    }
}

fn n(s: &str) -> Name {
    Name::parse(s).unwrap()
}

#[test]
fn names_parse_display_and_compare_case_insensitively() {
    assert_eq!(n("www.Example.COM").to_text(), "www.Example.COM");
    assert_eq!(n("www.example.com"), n("WWW.EXAMPLE.COM"));
    assert_eq!(n("."), Name::root());
    assert_eq!(n("example.com.").label_count(), 2);
    assert!(Name::parse("a..b").is_err());
    assert!(Name::parse(&"a".repeat(64)).is_err());
    assert!(n("host.example.com").ends_with(&n("EXAMPLE.com")));
    assert!(!n("example.com").ends_with(&n("host.example.com")));
    assert_eq!(n("host").join(&n("example.com")).unwrap(), n("host.example.com"));
    let mut h1 = std::collections::hash_map::DefaultHasher::new();
    let mut h2 = std::collections::hash_map::DefaultHasher::new();
        n("A.b").hash(&mut h1);
    n("a.B").hash(&mut h2);
    assert_eq!(h1.finish(), h2.finish());
}

#[test]
fn reverse_names_round_trip() {
    let v4 = Name::reverse_v4(Ipv4Addr::new(10, 0, 2, 15));
    assert_eq!(v4.to_text(), "15.2.0.10.in-addr.arpa");
    assert_eq!(v4.reverse_address(), Some(IpAddr::V4(Ipv4Addr::new(10, 0, 2, 15))));
    let a6 = v6("2001:db8::1");
    let v6_name = Name::reverse_v6(a6);
    assert!(v6_name.to_text().starts_with("1.0.0.0.0.0.0.0."));
    assert_eq!(v6_name.reverse_address(), Some(IpAddr::V6(a6)));
    assert_eq!(n("example.com").reverse_address(), None);
    assert_eq!(n("x.2.0.10.in-addr.arpa").reverse_address(), None);
}

#[test]
fn a_query_round_trips() {
    let q = Message::query(0x1234, Question::new(n("example.com"), rtype::A));
    let bytes = q.encode().unwrap();
    assert_eq!(&bytes[..2], &[0x12, 0x34]);
    assert_eq!(bytes[2] & 0x01, 0x01); // RD
    let back = Message::decode(&bytes).unwrap();
    assert_eq!(back, q);
    assert_eq!(back.udp_size(), EDNS_UDP_SIZE);
}

#[test]
fn a_response_with_every_typed_record_round_trips() {
    let mut m = Message::reply_to(&Message::query(7, Question::new(n("example.com"), rtype::ANY)));
    let recs = vec![
        Record::new(n("example.com"), 300, RData::A(Ipv4Addr::new(93, 184, 216, 34))),
        Record::new(n("example.com"), 300, RData::Aaaa(v6("2606:2800::1"))),
        Record::new(n("www.example.com"), 60, RData::Cname(n("example.com"))),
        Record::new(n("34.216.184.93.in-addr.arpa"), 60, RData::Ptr(n("example.com"))),
        Record::new(n("example.com"), 60, RData::Ns(n("a.iana-servers.net"))),
        Record::new(
            n("example.com"),
            60,
            RData::Soa {
                mname: n("ns.icann.org"),
                rname: n("noc.dns.icann.org"),
                serial: 2024,
                refresh: 7200,
                retry: 3600,
                expire: 1209600,
                minimum: 3600,
            },
        ),
        Record::new(n("example.com"), 60, RData::Mx { preference: 10, exchange: n("mail.example.com") }),
        Record::new(
            n("_sip._tcp.example.com"),
            60,
            RData::Srv { priority: 1, weight: 2, port: 5060, target: n("sip.example.com") },
        ),
        Record::new(n("example.com"), 60, RData::Txt(vec![b"v=spf1 -all".to_vec(), b"x".to_vec()])),
        Record { name: n("example.com"), rtype: 99, class: 1, ttl: 1, rdata: RData::Unknown(vec![1, 2, 3]) },
    ];
    m.answers = recs.clone();
    m.additional.push(Record::opt(4096, true));
    let bytes = m.encode().unwrap();
    let back = Message::decode(&bytes).unwrap();
    assert_eq!(back.answers, recs);
    assert!(back.header.response && back.header.recursion_available);
    assert_eq!(back.udp_size(), 4096);
    assert_eq!(back.rcode(), 0);
    assert_eq!(back.answers[8].rdata_text(), "\"v=spf1 -all\" \"x\"");
    assert_eq!(back.answers[5].rdata_text(), "ns.icann.org noc.dns.icann.org 2024 7200 3600 1209600 3600");
}

#[test]
fn compression_pointers_are_followed_and_loops_refused() {
    // Header + question "a.b" + answer with name pointer to offset 12.
    let mut bytes = vec![0, 1, 0x81, 0x80, 0, 1, 0, 1, 0, 0, 0, 0];
    bytes.extend_from_slice(&[1, b'a', 1, b'b', 0, 0, 1, 0, 1]);
    bytes.extend_from_slice(&[0xC0, 12, 0, 1, 0, 1, 0, 0, 0, 5, 0, 4, 1, 2, 3, 4]);
    let m = Message::decode(&bytes).unwrap();
    assert_eq!(m.answers[0].name, n("a.b"));
    assert_eq!(m.answers[0].rdata, RData::A(Ipv4Addr::new(1, 2, 3, 4)));
    assert_eq!(m.answers[0].ttl, 5);

    // A pointer to itself.
    let mut bad = vec![0, 1, 0x81, 0x80, 0, 1, 0, 0, 0, 0, 0, 0];
    bad.extend_from_slice(&[0xC0, 12, 0, 1, 0, 1]);
    assert_eq!(Message::decode(&bad), Err(Error::BadPointer));
    // A forward pointer.
    let mut fwd = vec![0, 1, 0x81, 0x80, 0, 1, 0, 0, 0, 0, 0, 0];
    fwd.extend_from_slice(&[0xC0, 20, 0, 1, 0, 1, 0, 0, 0, 0, 0, 0, 0, 0]);
    assert_eq!(Message::decode(&fwd), Err(Error::BadPointer));
}

#[test]
fn malformed_input_never_panics() {
    let q = Message::query(1, Question::new(n("example.com"), rtype::A));
    let good = q.encode().unwrap();
    for cut in 0..good.len() {
        let _ = Message::decode(&good[..cut]);
    }
    // Every single-byte mutation.
    for i in 0..good.len() {
        for v in [0u8, 0x3f, 0x40, 0x80, 0xc0, 0xff] {
            let mut m = good.clone();
            m[i] = v;
            let _ = Message::decode(&m);
        }
    }
    // A record whose rdlength runs past the end.
    let mut bytes = vec![0, 1, 0x81, 0x80, 0, 0, 0, 1, 0, 0, 0, 0];
    bytes.extend_from_slice(&[0, 0, 1, 0, 1, 0, 0, 0, 0, 0xff, 0xff]);
    assert_eq!(Message::decode(&bytes), Err(Error::Truncated));
    // A count claiming records that are not there.
    let bytes = vec![0, 1, 0x81, 0x80, 0xff, 0xff, 0, 0, 0, 0, 0, 0];
    assert_eq!(Message::decode(&bytes), Err(Error::Truncated));
}

#[test]
fn udp_encoding_truncates_over_the_limit() {
    let mut m = Message::reply_to(&Message::query(1, Question::new(n("big.example"), rtype::A)));
    for i in 0..100u8 {
        m.answers.push(Record::new(n("big.example"), 1, RData::A(Ipv4Addr::new(10, 0, 0, i))));
    }
    let bytes = m.encode_udp(512).unwrap();
    assert!(bytes.len() <= 512);
    let back = Message::decode(&bytes).unwrap();
    assert!(back.header.truncated);
    assert!(back.answers.is_empty());
    assert_eq!(back.questions, m.questions);
}

#[test]
fn case_randomisation_keeps_equality() {
    let mut i = 0;
    let r = n("www.example.com").randomise_case(|| {
        i += 1;
        i % 2 == 0
    });
    assert_eq!(r, n("www.example.com"));
    assert_ne!(r.to_text(), "www.example.com");
}

#[test]
fn extended_rcode_is_read_from_opt() {
    let mut m = Message::reply_to(&Message::query(1, Question::new(n("x"), rtype::A)));
    m.header.rcode = 0;
    let mut opt = Record::opt(1232, false);
    opt.ttl = 1 << 24; // BADVERS
    m.additional.push(opt);
    assert_eq!(m.rcode(), 16);
    assert_eq!(rtype::parse("aaaa"), Some(rtype::AAAA));
    assert_eq!(rtype::parse("TYPE65"), Some(65));
    assert_eq!(rtype::name(65), "TYPE65");
}

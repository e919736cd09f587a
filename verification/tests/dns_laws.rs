use resolvd::addr::{IpAddr, Ipv4Addr, Ipv6Addr};
use resolvd::dns::{class, rcode, rtype, Error, Header, Message, Name, Question, RData, Record, MAX_MESSAGE_SIZE};
use std::hash::{Hash, Hasher};

fn n(s: &str) -> Name {
    Name::parse(s).unwrap()
}

fn reply_with(records: Vec<Record>) -> Message {
    let mut m = Message::reply_to(&Message::query(3, Question::new(n("example.com"), rtype::A)));
    m.answers = records;
    m
}

#[test]
fn what_is_encoded_decodes_to_itself() {
    let m = reply_with(vec![Record::new(n("example.com"), 5, RData::A(Ipv4Addr::new(1, 2, 3, 4)))]);
    assert_eq!(Message::decode(&m.encode().unwrap()), Ok(m));
}

#[test]
fn long_strings_are_cut_and_the_encoding_is_canonical() {
    let long = reply_with(vec![Record::new(n("example.com"), 5, RData::Txt(vec![vec![b'x'; 300]]))]);
    let short = reply_with(vec![Record::new(n("example.com"), 5, RData::Txt(vec![vec![b'x'; 255]]))]);
    let bytes = long.encode().unwrap();
    assert_eq!(bytes, short.encode().unwrap());
    assert_eq!(Message::decode(&bytes), Ok(short));
}

#[test]
fn trailing_bytes_change_nothing() {
    let m = reply_with(vec![Record::new(n("example.com"), 5, RData::Cname(n("a.example.com")))]);
    let mut bytes = m.encode().unwrap();
    bytes.extend_from_slice(&[0, 0, 0xc0, 0xff, 7]);
    assert_eq!(Message::decode(&bytes), Ok(m));
}

#[test]
fn the_bytes_of_a_query_are_these() {
    let q = Message::query(0xabcd, Question::new(n("a.b"), rtype::AAAA));
    let expected = [
        0xab, 0xcd, 0x01, 0x00, 0, 1, 0, 0, 0, 0, 0, 1, // header
        1, b'a', 1, b'b', 0, 0, 28, 0, 1, // question
        0, 0, 41, 0x04, 0xd0, 0, 0, 0, 0, 0, 0, // OPT
    ];
    assert_eq!(q.encode().unwrap(), expected);
}

#[test]
fn every_error_of_the_wire_has_an_input() {
    let header = [0u8, 1, 0x81, 0x80, 0, 1, 0, 0, 0, 0, 0, 0];
    let with = |rest: &[u8]| {
        let mut b = header.to_vec();
        b.extend_from_slice(rest);
        Message::decode(&b)
    };
    assert_eq!(with(&[]), Err(Error::Truncated));
    assert_eq!(with(&[0x40, 0, 0, 1, 0, 1]), Err(Error::BadLabel));
    assert_eq!(with(&[0xc0, 12, 0, 1, 0, 1]), Err(Error::BadPointer));
    let mut long = Vec::new();
    for _ in 0..5 {
        long.push(63);
        long.extend_from_slice(&[b'a'; 63]);
    }
    long.extend_from_slice(&[0, 0, 1, 0, 1]);
    assert_eq!(with(&long), Err(Error::NameTooLong));
    let mut bad_a = vec![0u8, 1, 0x81, 0x80, 0, 0, 0, 1, 0, 0, 0, 0];
    bad_a.extend_from_slice(&[0, 0, 1, 0, 1, 0, 0, 0, 0, 0, 3, 1, 2, 3]);
    assert_eq!(Message::decode(&bad_a), Err(Error::BadRData));
    assert_eq!(Name::from_labels(vec![vec![]]), Err(Error::BadName));
    assert_eq!(Name::from_labels(vec![vec![b'a'; 64]]), Err(Error::BadName));
    assert_eq!(Name::from_labels(vec![vec![b'a'; 63]; 4]), Err(Error::NameTooLong));
    let mut big = Message::default();
    for _ in 0..300 {
        big.answers.push(Record::new(n("x"), 0, RData::Unknown(vec![0; 250])));
    }
    assert_eq!(big.encode(), Err(Error::TooLarge));
    assert!(big.answers.len() * 250 > MAX_MESSAGE_SIZE);
    assert_eq!(Error::Truncated.as_str(), "truncated message");
    assert_eq!(Error::TrailingBytes.as_str(), "trailing bytes after the last section");
    assert_eq!(Error::TooLarge.as_str(), "message too large");
}

#[test]
fn names_that_are_written_plainly_are_read_back() {
    let name = Name::from_labels(vec![b"_sip".to_vec(), b"EXAMPLE".to_vec(), b"com".to_vec()]).unwrap();
    assert_eq!(name.to_text(), "_sip.EXAMPLE.com");
    assert!(Name::parse(&name.to_text()).unwrap().same_case(&name));
    assert_eq!(Name::root().to_text(), ".");
    let odd = Name::from_labels(vec![vec![b'a', b'.', 0, 0xff]]).unwrap();
    assert_eq!(odd.to_text(), "a\\.\\000\\255");
}

#[test]
fn names_differ_beyond_case() {
    assert_ne!(n("a.b"), n("a.c"));
    assert_ne!(n("a.b").hash_key(), n("a.c").hash_key());
    assert_eq!(n("A.b").hash_key(), n("a.B").hash_key());
    assert!(n("a.b").same_case(&n("a.b")));
    assert!(!n("a.b").same_case(&n("A.b")));
}

#[test]
fn the_hash_of_a_name_is_that_of_its_key() {
    let hash = |name: &Name| {
        let mut h = std::collections::hash_map::DefaultHasher::new();
        name.hash(&mut h);
        h.finish()
    };
    assert_eq!(hash(&n("WWW.example")), hash(&n("www.EXAMPLE")));
    assert_ne!(hash(&n("www.example")), hash(&n("www.examplf")));
}

#[test]
fn case_is_chosen_letter_by_letter() {
    let flipped = n("a1b.c").with_case(&[true, false, true]);
    assert_eq!(flipped.to_text(), "A1b.C");
    assert_eq!(flipped, n("a1b.c"));
}

#[test]
fn reverse_names_of_both_families_are_these() {
    assert_eq!(Name::reverse_v4(Ipv4Addr::new(192, 0, 2, 1)).to_text(), "1.2.0.192.in-addr.arpa");
    assert_eq!(
        Name::reverse_v6(Ipv6Addr::localhost()).to_text(),
        "1.0.0.0.0.0.0.0.0.0.0.0.0.0.0.0.0.0.0.0.0.0.0.0.0.0.0.0.0.0.0.0.ip6.arpa"
    );
    assert_eq!(n("256.0.0.10.in-addr.arpa").reverse_address(), None);
    assert_eq!(n("0.0.10.in-addr.arpa").reverse_address(), None);
    assert_eq!(n("+1.0.0.127.in-addr.arpa").reverse_address(), None);
    assert_eq!(n("01.0.0.127.in-addr.arpa").reverse_address(), None);
    assert_eq!(n("1.0.0.127.IN-ADDR.arpa").reverse_address(), Some(IpAddr::V4(Ipv4Addr::new(127, 0, 0, 1))));
}

#[test]
fn header_flags_are_where_they_belong() {
    let mut m = Message::default();
    m.header = Header {
        id: 1,
        response: true,
        opcode: 2,
        authoritative: true,
        truncated: true,
        recursion_desired: true,
        recursion_available: true,
        authentic_data: true,
        checking_disabled: true,
        rcode: 5,
    };
    let bytes = m.encode().unwrap();
    assert_eq!(&bytes[..4], &[0, 1, 0b1001_0111, 0b1011_0101]);
    assert_eq!(Message::decode(&bytes).unwrap().header, m.header);
}

#[test]
fn types_and_codes_have_names() {
    for t in [rtype::A, rtype::NS, rtype::CNAME, rtype::SOA, rtype::PTR, rtype::MX, rtype::TXT, rtype::AAAA, rtype::SRV, rtype::ANY, 65, 65535] {
        assert_eq!(rtype::parse(&rtype::name(t)), Some(t));
    }
    assert_eq!(rtype::parse("type1"), Some(rtype::A));
    assert_eq!(rtype::parse("TYPE65536"), None);
    assert_eq!(rtype::parse("nonsense"), None);
    assert_eq!(rtype::parse("OPT"), None);
    assert_eq!(rtype::parse(""), None);
    assert_eq!(rtype::parse("tYpE65"), Some(65));
    assert_eq!(rcode::name(rcode::NXDOMAIN), "NXDOMAIN");
    assert_eq!(rcode::name(11), "RCODE11");
}

#[test]
fn record_data_reads_as_text() {
    let text = |d: RData| Record::new(n("x"), 0, d).rdata_text();
    assert_eq!(text(RData::A(Ipv4Addr::new(10, 0, 0, 1))), "10.0.0.1");
    assert_eq!(text(RData::Aaaa(Ipv6Addr::localhost())), "::1");
    assert_eq!(text(RData::Mx { preference: 10, exchange: n("m.example") }), "10 m.example");
    assert_eq!(text(RData::Srv { priority: 1, weight: 2, port: 3, target: n("t") }), "1 2 3 t");
    assert_eq!(text(RData::Txt(vec![b"a\"b".to_vec(), vec![0xff]])), "\"a\\\"b\" \"\u{fffd}\"");
    assert_eq!(text(RData::Unknown(vec![1, 0xab])), "\\# 2 01ab");
}

#[test]
fn record_data_has_its_wire_form() {
    assert_eq!(Record::new(n("x"), 0, RData::A(Ipv4Addr::new(1, 2, 3, 4))).rdata_bytes(), [1, 2, 3, 4]);
    assert_eq!(Record::new(n("x"), 0, RData::Cname(n("a.b"))).rdata_bytes(), [1, b'a', 1, b'b', 0]);
    assert_eq!(Record::new(n("x"), 0, RData::Mx { preference: 258, exchange: n("a") }).rdata_bytes(), [1, 2, 1, b'a', 0]);
    assert_eq!(Record::new(n("x"), 0, RData::Txt(vec![b"hi".to_vec()])).rdata_bytes(), [2, b'h', b'i']);
}

#[test]
fn a_message_for_udp_is_cut_only_where_it_must_be() {
    let mut m = reply_with(Vec::new());
    for i in 0..30u8 {
        m.answers.push(Record::new(n("example.com"), 1, RData::A(Ipv4Addr::new(10, 0, 0, i))));
    }
    let whole = m.encode().unwrap();
    assert_eq!(m.encode_udp(whole.len() as u16).unwrap(), whole);
    let cut = Message::decode(&m.encode_udp(whole.len() as u16 - 1).unwrap()).unwrap();
    assert!(cut.header.truncated && cut.answers.is_empty());
}

#[test]
fn addresses_are_read_as_they_are_written() {
    for s in ["0.0.0.0", "255.255.255.255", "10.0.2.15", "::", "::1", "2001:db8::1", "::ffff:1.2.3.4", "1:2:3:4:5:6:7:8", "fe80::1:0:0:1"] {
        assert_eq!(IpAddr::parse(s).unwrap().to_text(), s);
    }
    for s in ["", "1.2.3", "1.2.3.4.5", "256.0.0.1", "01.2.3.4", "1.2.3.4 ", ":", ":::", "1:2:3:4:5:6:7", "1:2:3:4:5:6:7:8:9", "12345::", "g::", "::1.2.3"] {
        assert_eq!(IpAddr::parse(s), None, "{s}");
    }
    assert_eq!(IpAddr::parse("2001:DB8:0:0:0:0:0:1").unwrap().to_text(), "2001:db8::1");
}

#[test]
fn what_answers_hold_is_class_in() {
    assert_eq!(Record::new(n("x"), 0, RData::A(Ipv4Addr::localhost())).class, class::IN);
    assert_eq!(Question::new(n("x"), rtype::A).class, class::IN);
    assert!(IpAddr::V4(Ipv4Addr::localhost()).is_loopback());
    assert!(!IpAddr::V4(Ipv4Addr::new(128, 0, 0, 1)).is_loopback());
}

use resolvd::addr::Ipv4Addr;
use resolvd::dns::{rcode, rtype, Message, Name, Question, RData, Record};
use resolvd::engine::Answer;
use resolvd::protocol::Outcome;
use resolvd::stub::{build_reply, parse_query};

#[test]
fn a_found_answer_becomes_noerror_with_records_and_a_cname_when_expanded() {
    let q = Message::query(9, Question::new(Name::parse("printer").unwrap(), rtype::A));
    let answer = Answer {
        outcome: Outcome::Found,
        records: vec![Record::new(Name::parse("printer.lan").unwrap(), 30, RData::A(Ipv4Addr::new(10, 0, 2, 9)))],
        resolved_name: Some(Name::parse("printer.lan").unwrap()),
        ..Default::default()
    };
    let r = build_reply(&q, &answer);
    assert_eq!(r.header.id, 9);
    assert!(r.header.response && r.header.recursion_available);
    assert_eq!(r.answers.len(), 2);
    assert_eq!(r.answers[0].rdata, RData::Cname(Name::parse("printer.lan").unwrap()));
    assert!(r.opt().is_some());
    let bytes = r.encode().unwrap();
    Message::decode(&bytes).unwrap();
}

#[test]
fn outcomes_map_to_rcodes() {
    let q = Message::query(1, Question::new(Name::parse("x.example").unwrap(), rtype::A));
    let nf = build_reply(&q, &Answer { outcome: Outcome::NotFound, ..Default::default() });
    assert_eq!(nf.header.rcode, rcode::NXDOMAIN);
    let un = build_reply(&q, &Answer { outcome: Outcome::Unavailable, ..Default::default() });
    assert_eq!(un.header.rcode, rcode::SERVFAIL);
}

#[test]
fn bad_queries_get_error_replies() {
    let mut m = Message::query(5, Question::new(Name::parse("x").unwrap(), rtype::A));
    m.header.opcode = 2;
    let bytes = m.encode().unwrap();
    let reply = parse_query(&bytes).err().flatten().unwrap();
    assert_eq!(Message::decode(&reply).unwrap().header.rcode, rcode::NOTIMP);
    assert!(parse_query(&[0u8; 12]).is_err());
    let mut r = Message::query(5, Question::new(Name::parse("x").unwrap(), rtype::A));
    r.header.response = true;
    assert!(matches!(parse_query(&r.encode().unwrap()), Err(None)));
    let mut bad = bytes.clone();
    bad.truncate(20);
    let reply = parse_query(&bad).err().flatten().unwrap();
    assert_eq!(Message::decode(&reply).unwrap().header.rcode, rcode::FORMERR);
}

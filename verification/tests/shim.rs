use resolvd::addr::IpAddr;
use resolvd::nss::buffer::{Put, Shape};
use resolvd::nss::{
    family_of, lookup, render_hostent, render_named, render_tuples, resolve_addresses, reverse, start_by_address,
    start_by_name, start_by_name_of, status_of, Af, Errno, Failure, Got, NssStatus, Start, HOST_NOT_FOUND, NO_DATA,
    NO_RECOVERY, TRY_AGAIN,
};
use resolvd::protocol::{
    AddressOut, Addresses, Answer, Family, IoError, IoKind, Outcome, RecordOut, Reply, Request, WireError,
};

fn ip(s: &str) -> IpAddr {
    IpAddr::parse(s).unwrap()
}

fn addresses(outcome: Outcome, list: &[(&str, u32)]) -> Addresses {
    Addresses {
        outcome,
        canonical: "h.example".into(),
        addresses: list.iter().map(|(a, ttl)| AddressOut { address: ip(a), ttl: *ttl }).collect(),
        ..Default::default()
    }
}

fn pointer(text: &str, rtype: u16, ttl: u32) -> RecordOut {
    RecordOut { rtype, ttl, text: text.into(), ..Default::default() }
}

#[test]
fn statuses_have_their_numbers() {
    assert_eq!([NssStatus::TryAgain, NssStatus::Unavail, NssStatus::NotFound, NssStatus::Success].map(|s| s.code()), [-2, -1, 0, 1]);
}

#[test]
fn failing_is_told_the_right_way() {
    let failure = |got: Got<Addresses>| status_of(&got);
    assert_eq!(failure(Got::Value(addresses(Outcome::Found, &[]))), None);
    assert_eq!(failure(lookup(None)), Some(Failure { status: NssStatus::Unavail, errno: Errno::NoEntry, h_errno: NO_RECOVERY }));
    assert_eq!(
        failure(lookup(Some(Ok(Reply::Addresses(addresses(Outcome::NotFound, &[])))))),
        Some(Failure { status: NssStatus::NotFound, errno: Errno::NoEntry, h_errno: HOST_NOT_FOUND })
    );
    let again = Some(Failure { status: NssStatus::TryAgain, errno: Errno::Again, h_errno: TRY_AGAIN });
    assert_eq!(failure(lookup(Some(Ok(Reply::Addresses(addresses(Outcome::Unavailable, &[])))))), again);
    let late = WireError::Io(IoError { kind: IoKind::TimedOut, message: "late".into() });
    assert_eq!(failure(lookup(Some(Err(late)))), again);
    let broken = WireError::Io(IoError { kind: IoKind::UnexpectedEof, message: "gone".into() });
    assert!(matches!(lookup(Some(Err(broken))), Got::Unavailable));
    assert!(matches!(lookup(Some(Ok(Reply::Okay))), Got::Unavailable));
}

#[test]
fn a_reverse_answer_needs_a_record() {
    let mut a = Answer { outcome: Outcome::Found, ..Default::default() };
    assert!(matches!(reverse(Some(Ok(Reply::Answer(a.clone())))), Got::NotFound));
    a.records.push(pointer("h.example", 12, 1));
    assert!(matches!(reverse(Some(Ok(Reply::Answer(a.clone())))), Got::Value(_)));
    a.outcome = Outcome::Unavailable;
    assert!(matches!(reverse(Some(Ok(Reply::Answer(a)))), Got::TryAgain));
    assert!(matches!(reverse(None), Got::Unavailable));
}

#[test]
fn only_addresses_of_the_family_are_given() {
    let both = || Some(Ok(Reply::Addresses(addresses(Outcome::Found, &[("1.2.3.4", 5), ("::2", 6)]))));
    match resolve_addresses(both(), Family::V6) {
        Got::Value(a) => assert_eq!(a.addresses, [AddressOut { address: ip("::2"), ttl: 6 }]),
        other => panic!("{other:?}"),
    }
    match resolve_addresses(both(), Family::Any) {
        Got::Value(a) => assert_eq!(a.addresses.len(), 2),
        other => panic!("{other:?}"),
    }
    let four = Some(Ok(Reply::Addresses(addresses(Outcome::Found, &[("1.2.3.4", 5)]))));
    let got = resolve_addresses(four, Family::V6);
    assert!(matches!(got, Got::NoData));
    assert_eq!(
        status_of(&got),
        Some(Failure { status: NssStatus::NotFound, errno: Errno::NoEntry, h_errno: NO_DATA })
    );
    let absent = Some(Ok(Reply::Addresses(addresses(Outcome::NotFound, &[]))));
    assert!(matches!(resolve_addresses(absent, Family::V6), Got::NotFound));
}

#[test]
fn calls_start_where_they_must() {
    assert!(matches!(start_by_name(None), Start::Fail(f) if f.h_errno == HOST_NOT_FOUND));
    assert!(matches!(start_by_name(Some("a.LocalHost.")), Start::Local(a) if a.addresses.len() == 2));
    match start_by_name(Some("h.example")) {
        Start::Ask(r) => assert_eq!(r, Request::Lookup { name: "h.example".into(), family: Family::Any }),
        other => panic!("{other:?}"),
    }
    for af in [Af::Unspec, Af::Other] {
        match start_by_name_of(Some("h.example"), af) {
            Start::Fail(f) => assert_eq!(f, Failure { status: NssStatus::Unavail, errno: Errno::FamilyNotSupported, h_errno: NO_DATA }),
            other => panic!("{other:?}"),
        }
    }
    assert!(matches!(start_by_name_of(Some("localhost"), Af::Inet6), Start::Local(a) if a.addresses[0].address == ip("::1")));
    assert_eq!([Af::Inet, Af::Inet6, Af::Unspec, Af::Other].map(family_of), [Some(Family::V4), Some(Family::V6), Some(Family::Any), None]);
}

#[test]
fn calls_by_address_start_where_they_must() {
    assert!(matches!(start_by_address(None, Af::Inet), Start::Fail(f) if f.status == NssStatus::NotFound));
    assert!(matches!(start_by_address(Some(&[1, 2, 3, 4]), Af::Inet6), Start::Fail(f) if f.h_errno == NO_RECOVERY));
    match start_by_address(Some(&[127, 0, 0, 1]), Af::Inet) {
        Start::Local(a) => assert_eq!((a.records[0].rtype, a.records[0].text.as_str()), (12, "localhost")),
        other => panic!("{other:?}"),
    }
    match start_by_address(Some(&[1, 2, 3, 4]), Af::Inet) {
        Start::Ask(r) => assert_eq!(r, Request::Reverse { address: ip("1.2.3.4") }),
        other => panic!("{other:?}"),
    }
}

#[test]
fn a_host_is_laid_out_in_the_buffer() {
    let a = addresses(Outcome::Found, &[("1.2.3.4", 9), ("5.6.7.8", 3)]);
    let h = render_hostent(&a, 1024, 8).unwrap();
    assert_eq!((h.name, h.aliases, h.addr_list, h.ttl), (0, 16, 32, 3));
    let written: Vec<String> = h.puts.iter().map(|p| format!("{p:?}")).collect();
    assert_eq!(written.len(), 7);
    assert!(matches!(&h.puts[0], Put::Bytes { at: 0, bytes } if bytes == b"h.example\0"));
    assert!(matches!(&h.puts[1], Put::Nulls { at: 16, count: 2 }));
    assert!(matches!(&h.puts[2], Put::Nulls { at: 32, count: 4 }));
    assert!(matches!(&h.puts[3], Put::Bytes { at: 64, bytes } if bytes == &[1, 2, 3, 4]));
    assert!(matches!(&h.puts[4], Put::Pointer { at: 32, to: 64 }));
    assert!(matches!(&h.puts[5], Put::Bytes { at: 68, bytes } if bytes == &[5, 6, 7, 8]));
    assert!(matches!(&h.puts[6], Put::Pointer { at: 40, to: 68 }));
    assert!(render_hostent(&a, 72, 8).is_ok());
    for len in 0..72 {
        assert_eq!(render_hostent(&a, len, 8).unwrap_err(), Failure { status: NssStatus::TryAgain, errno: Errno::Range, h_errno: 0 });
    }
}

#[test]
fn a_list_of_addresses_is_linked() {
    let shape = Shape { pointer: 8, tuple: 40, tuple_align: 8 };
    let a = addresses(Outcome::Found, &[("1.2.3.4", 9), ("::5", 3)]);
    let t = render_tuples(&a, 96, shape).unwrap();
    assert_eq!((t.first, t.ttl), (Some(16), 3));
    assert!(matches!(&t.puts[1], Put::Tuple { at: 16, next: Some(56), name: 0, v6: false, octets } if octets == &[1, 2, 3, 4]));
    assert!(matches!(&t.puts[2], Put::Tuple { at: 56, next: None, name: 0, v6: true, octets } if octets.len() == 16));
    assert_eq!(render_tuples(&a, 95, shape).unwrap_err().errno, Errno::Range);
    let none = render_tuples(&addresses(Outcome::Found, &[]), 10, shape).unwrap();
    assert_eq!((none.first, none.puts.len(), none.ttl), (None, 1, 0));
}

#[test]
fn a_host_that_an_address_is_has_its_names() {
    let a = Answer {
        records: vec![pointer("one.example.", 12, 4), pointer("ignored", 5, 2), pointer("two.example", 12, 8)],
        ..Default::default()
    };
    let h = render_named(&a, &[1, 2, 3, 4], 256, 8).unwrap();
    assert_eq!((h.name, h.aliases, h.addr_list, h.ttl), (0, 16, 56, 2));
    assert!(matches!(&h.puts[0], Put::Bytes { bytes, .. } if bytes == b"one.example\0"));
    assert!(matches!(&h.puts[1], Put::Nulls { at: 16, count: 3 }));
    assert!(matches!(&h.puts[2], Put::Bytes { at: 40, bytes } if bytes == b"two.example\0"));
    assert!(matches!(&h.puts[3], Put::Pointer { at: 16, to: 40 }));
    assert!(matches!(&h.puts[5], Put::Bytes { at: 80, bytes } if bytes == &[1, 2, 3, 4]));
    assert!(matches!(&h.puts[6], Put::Pointer { at: 56, to: 80 }));
    let none = Answer { records: vec![pointer("x", 5, 1)], ..Default::default() };
    assert_eq!(render_named(&none, &[1, 2, 3, 4], 256, 8).unwrap_err().status, NssStatus::NotFound);
    let zero = Answer { records: vec![pointer("a\0b", 12, 1)], ..Default::default() };
    assert_eq!(render_named(&zero, &[1, 2, 3, 4], 256, 8).unwrap_err().errno, Errno::Range);
}

use resolvd::addr::IpAddr;
use resolvd::msgpack::{self, Reader, Type, Writer};
use resolvd::protocol::{
    framed, recv, send, Addresses, Answer, Family, IoError, IoKind, Outcome, Reply, Request, StatusReport, Validation,
    WireError, MAX_MESSAGE_BYTES,
};

fn request(fields: &[(&str, &str)]) -> Result<Request, WireError> {
    let mut w = Writer::new();
    w.write_map(fields.len() as u32);
    for (k, v) in fields {
        w.write_str(k).write_str(v);
    }
    Request::decode(&w.into_bytes())
}

#[test]
fn a_field_that_comes_twice_is_refused() {
    assert_eq!(request(&[("query", "status"), ("query", "flush")]), Err(WireError::Duplicate("query".into())));
}

#[test]
fn a_field_that_is_unknown_is_ignored() {
    assert_eq!(request(&[("shape", "round"), ("query", "status")]), Ok(Request::Status));
}

#[test]
fn every_error_of_the_native_wire_has_an_input() {
    assert_eq!(request(&[]), Err(WireError::Missing("query")));
    assert_eq!(request(&[("query", "lookup")]), Err(WireError::Missing("name")));
    assert_eq!(request(&[("query", "resolve"), ("name", "a")]), Err(WireError::Missing("type")));
    assert_eq!(request(&[("query", "reverse"), ("address", "nowhere")]), Err(WireError::Missing("address")));
    assert_eq!(request(&[("query", "dance")]), Err(WireError::UnknownQuery("dance".into())));
    assert_eq!(Request::decode(&[]), Err(WireError::Encoding(msgpack::Error::Truncated)));
    assert_eq!(Request::decode(&[0xc0]), Err(WireError::Encoding(msgpack::Error::Type)));
    let mut out = Vec::new();
    let big = vec![0u8; MAX_MESSAGE_BYTES + 1];
    assert_eq!(send(&mut out, &big), Err(WireError::TooLarge(MAX_MESSAGE_BYTES + 1)));
    assert!(out.is_empty());
    assert!(matches!(recv(&mut &[1u8, 0][..]), Err(WireError::Io(IoError { kind: IoKind::UnexpectedEof, .. }))));
    assert!(matches!(recv(&mut &[1u8, 0, 0, 0][..]), Err(WireError::Io(IoError { kind: IoKind::UnexpectedEof, .. }))));
}

#[test]
fn errors_of_the_native_wire_read_as_text() {
    assert_eq!(WireError::UnknownQuery("a\"b".into()).to_text(), "unknown query \"a\\\"b\"");
    assert_eq!(WireError::Missing("name").to_text(), "missing or malformed field name");
    assert_eq!(WireError::Duplicate("k".into()).to_text(), "duplicate field k");
    assert_eq!(WireError::TooLarge(70_000).to_text(), "message of 70000 bytes exceeds the ceiling");
    assert_eq!(WireError::Encoding(msgpack::Error::Utf8).to_text(), "malformed message: string is not UTF-8");
    assert_eq!(WireError::from(msgpack::Error::Depth), WireError::Encoding(msgpack::Error::Depth));
}

#[test]
fn the_bytes_of_a_request_are_these() {
    assert_eq!(Request::Status.encode(), [0x81, 0xa5, b'q', b'u', b'e', b'r', b'y', 0xa6, b's', b't', b'a', b't', b'u', b's']);
    assert_eq!(framed(b"ab"), [2, 0, 0, 0, b'a', b'b']);
}

#[test]
fn a_family_that_is_not_given_is_any() {
    assert_eq!(request(&[("query", "lookup"), ("name", "h")]), Ok(Request::Lookup { name: "h".into(), family: Family::Any }));
    let asked = request(&[("query", "lookup"), ("name", "h"), ("family", "inet6")]);
    assert_eq!(asked, Ok(Request::Lookup { name: "h".into(), family: Family::V6 }));
    assert_eq!(request(&[("query", "lookup"), ("name", "h"), ("family", "inet5")]), Ok(Request::Lookup { name: "h".into(), family: Family::Any }));
    assert_eq!(Outcome::Unavailable.as_str(), "unavailable");
    assert_eq!(Validation::Secure.as_str(), "secure");
}

#[test]
fn a_reverse_request_keeps_either_family() {
    for s in ["192.0.2.7", "2001:db8::7"] {
        let r = Request::Reverse { address: IpAddr::parse(s).unwrap() };
        assert_eq!(Request::decode(&r.encode()), Ok(r));
    }
}

#[test]
fn empty_replies_round_trip() {
    for r in [Reply::Answer(Answer::default()), Reply::Addresses(Addresses::default()), Reply::Status(StatusReport::default())] {
        assert_eq!(Reply::decode(&r.encode()), Ok(r));
    }
}

#[test]
fn numbers_take_the_shortest_form() {
    let bytes = |v: u64| {
        let mut w = Writer::new();
        w.write_uint(v);
        w.into_bytes()
    };
    assert_eq!(bytes(127), [0x7f]);
    assert_eq!(bytes(128), [0xcc, 0x80]);
    assert_eq!(bytes(256), [0xcd, 1, 0]);
    assert_eq!(bytes(65_536), [0xce, 0, 1, 0, 0]);
    assert_eq!(bytes(1 << 32), [0xcf, 0, 0, 0, 1, 0, 0, 0, 0]);
    let mut w = Writer::new();
    w.write_int(-1).write_int(-33).write_int(i64::MIN);
    let b = w.into_bytes();
    assert_eq!(&b[..3], &[0xff, 0xd0, 0xdf]);
    let mut r = Reader::new(&b);
    assert_eq!(r.read_int(), Ok(-1));
    assert_eq!(r.read_int(), Ok(-33));
    assert_eq!(r.read_int(), Ok(i64::MIN));
}

#[test]
fn every_error_of_the_encoding_has_an_input() {
    assert_eq!(Reader::new(&[]).read_bool(), Err(msgpack::Error::Truncated));
    assert_eq!(Reader::new(&[0xc0]).read_bool(), Err(msgpack::Error::Type));
    assert_eq!(Reader::new(&[0xa2, 0xff, 0xfe]).read_str(), Err(msgpack::Error::Utf8));
    assert_eq!(Reader::new(&[0xd4, 0, 0]).skip(), Err(msgpack::Error::Unsupported));
    assert_eq!(Reader::new(&[0x91; 64]).skip(), Err(msgpack::Error::Depth));
    assert_eq!(msgpack::Error::Utf8.as_str(), "string is not UTF-8");
}

#[test]
fn text_is_read_as_it_was_written() {
    let mut w = Writer::new();
    w.write_str("grüße").write_nil().write_bin(&[0xff]);
    let b = w.into_bytes();
    let mut r = Reader::new(&b);
    assert_eq!(r.peek(), Some(Type::Str));
    assert_eq!(r.read_str(), Ok("grüße"));
    assert_eq!(r.peek(), Some(Type::Nil));
    assert_eq!(r.read_nil(), Ok(()));
    assert_eq!(r.read_bin(), Ok(&[0xffu8][..]));
    assert_eq!(r.remaining(), 0);
}

#[test]
fn skipping_ends_where_reading_does() {
    let mut w = Writer::new();
    w.write_str("abc").write_int(-70_000).write_bool(true);
    let b = w.into_bytes();
    let mut r = Reader::new(&b);
    assert_eq!(r.skip(), Ok(()));
    assert_eq!(r.skip(), Ok(()));
    assert_eq!(r.read_bool(), Ok(true));
}

#[test]
fn any_value_is_stepped_over_whole() {
    let mut w = Writer::new();
    w.write_map(2).write_str("a").write_array(3).write_nil().write_bool(true).write_int(-70_000);
    w.write_str("b").write_map(1).write_uint(300).write_bin(&[1, 2, 3]);
    w.write_str("tail");
    let bytes = w.to_bytes();
    let mut r = Reader::new(&bytes);
    assert_eq!(r.remaining(), bytes.len());
    assert_eq!(r.skip(), Ok(()));
    assert_eq!(r.remaining(), 5);
    assert_eq!(r.read_str(), Ok("tail"));
    assert_eq!(r.remaining(), 0);

    let mut w = Writer::new();
    for _ in 0..32 {
        w.write_array(1);
    }
    w.write_nil().write_bool(false);
    let bytes = w.into_bytes();
    let mut r = Reader::new(&bytes);
    assert_eq!(r.skip(), Ok(()));
    assert_eq!(r.read_bool(), Ok(false));
    assert_eq!(r.remaining(), 0);
}

#[test]
fn what_is_left_only_shrinks() {
    let bytes = [0x92, 0xa1, b'x', 0xcd, 1, 2, 0xc0];
    let mut r = Reader::new(&bytes);
    let mut left = vec![r.remaining()];
    assert_eq!(r.read_array(), Ok(2));
    left.push(r.remaining());
    assert_eq!(r.read_str(), Ok("x"));
    left.push(r.remaining());
    assert_eq!(r.read_uint(), Ok(0x102));
    left.push(r.remaining());
    assert_eq!(r.read_bool(), Err(msgpack::Error::Type));
    left.push(r.remaining());
    assert_eq!(left, [7, 6, 4, 1, 0]);
}

#[test]
fn the_largest_numbers_arrive() {
    let mut w = Writer::new();
    w.write_uint(u64::MAX).write_uint(u64::MAX).write_uint(u64::MAX).write_nil();
    let bytes = w.into_bytes();
    let mut r = Reader::new(&bytes);
    assert_eq!(r.read_uint(), Ok(u64::MAX));
    assert_eq!(r.skip(), Ok(()));
    assert_eq!(r.read_int(), Err(msgpack::Error::Type));
    assert_eq!(r.read_nil(), Ok(()));
    let mut s = StatusReport { cache_entries: u64::MAX, ..Default::default() };
    s.counters.queries = u64::MAX;
    s.counters.refused = 1 << 63;
    let reply = Reply::Status(s);
    assert_eq!(Reply::decode(&reply.encode()), Ok(reply));
}

#[test]
fn integers_may_be_wider_than_they_need_be() {
    for bytes in [&[0xccu8, 7][..], &[0xcd, 0, 7], &[0xce, 0, 0, 0, 7], &[0xd0, 7], &[0xd1, 0, 7], &[0xd3, 0, 0, 0, 0, 0, 0, 0, 7]] {
        assert_eq!(Reader::new(bytes).read_int(), Ok(7));
        assert_eq!(Reader::new(bytes).read_uint(), Ok(7));
    }
    assert_eq!(Reader::new(&[0xd1, 0xff, 0xff]).read_int(), Ok(-1));
    assert_eq!(Reader::new(&[0xd1, 0xff, 0xff]).read_uint(), Err(msgpack::Error::Type));
    assert_eq!(Reader::new(&[0xcf, 0]).read_int(), Err(msgpack::Error::Truncated));
    assert_eq!(Reader::new(&[0xa0]).read_int(), Err(msgpack::Error::Type));
}

#[test]
fn counts_that_cannot_be_honest_are_refused() {
    assert_eq!(Reader::new(&[0x81, 0xc0, 0xc0]).read_map(), Ok(1));
    assert_eq!(Reader::new(&[0x82, 0xc0, 0xc0, 0xc0]).read_map(), Err(msgpack::Error::Truncated));
    assert_eq!(Reader::new(&[0x92, 0xc0]).read_array(), Err(msgpack::Error::Truncated));
    assert_eq!(Reader::new(&[0x92, 0xc0]).read_map(), Err(msgpack::Error::Type));
}

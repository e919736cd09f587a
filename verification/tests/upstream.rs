use resolvd::stream::{tcp_frame, Read};
use resolvd::upstream::{After, Event, Upstream, Work, Write};

#[test]
fn a_datagram_is_received_once() {
    let mut u = Upstream::new();
    u.send(1, false, b"query");
    assert_eq!(u.interests(), [(1, false)]);
    assert!(matches!(u.service(1, true), Work::Receive));
    assert!(matches!(u.received(1, Read::WouldBlock), After::Wait));
    match u.received(1, Read::Bytes(b"reply".to_vec())) {
        After::Over(Event::Received(b)) => assert_eq!(b, b"reply"),
        other => panic!("{other:?}"),
    }
    assert!(matches!(u.service(1, false), Work::Nothing));
    u.send(2, false, b"query");
    assert!(matches!(u.received(2, Read::Error), After::Over(Event::Failed)));
    assert!(u.interests().is_empty());
}

#[test]
fn a_stream_is_written_and_then_read() {
    let mut u = Upstream::new();
    u.send(3, true, b"query");
    assert_eq!(u.interests(), [(3, true)]);
    let frame = tcp_frame(b"query");
    match u.service(3, false) {
        Work::Write { first, bytes } => assert!(first && bytes == frame),
        other => panic!("{other:?}"),
    }
    assert!(matches!(u.wrote(3, Write::Wrote(2)), After::Wait));
    match u.service(3, false) {
        Work::Write { first, bytes } => assert!(!first && bytes == frame[2..]),
        other => panic!("{other:?}"),
    }
    assert!(matches!(u.wrote(3, Write::WouldBlock), After::Wait));
    assert!(matches!(u.wrote(3, Write::Wrote(5)), After::Wait));
    assert_eq!(u.interests(), [(3, false)]);
    assert!(matches!(u.service(3, true), Work::Read));
    let reply = tcp_frame(b"the reply");
    assert!(matches!(u.read(3, Read::Bytes(reply[..4].to_vec())), After::Again));
    assert!(matches!(u.read(3, Read::WouldBlock), After::Wait));
    assert!(matches!(u.read(3, Read::Interrupted), After::Again));
    assert!(matches!(u.read(3, Read::Bytes(reply[4..].to_vec())), After::Again));
    match u.read(3, Read::WouldBlock) {
        After::Over(Event::Received(b)) => assert_eq!(b, b"the reply"),
        other => panic!("{other:?}"),
    }
}

#[test]
fn a_stream_that_breaks_has_failed() {
    let mut u = Upstream::new();
    u.send(1, true, b"q");
    assert!(matches!(u.service(1, true), Work::Fail));
    assert!(u.interests().is_empty());
    u.send(2, true, b"q");
    assert!(matches!(u.wrote(2, Write::Error), After::Over(Event::Failed)));
    u.send(3, true, b"q");
    u.wrote(3, Write::Wrote(3));
    assert!(matches!(u.read(3, Read::End), After::Over(Event::Failed)));
    u.send(4, true, b"q");
    u.cancel(4);
    assert!(matches!(u.read(4, Read::WouldBlock), After::Wait));
}

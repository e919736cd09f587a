//! Exchanges with upstream servers, one per transaction.
//!
//! A datagram is sent from a socket of its own, which is how the source port
//! becomes one more thing a forger must guess. TCP is for truncated answers
//! only, nonblocking end to end: a server that accepts and then sits there
//! costs a slot, not the loop.
use crate::octets;
use crate::stream::{law_tcp_frame_round_trip, tcp_frame, tcp_framed, tcp_message, tcp_message_in, Read, ReadView};
use crate::table::{lemma_numbers, numbers, Table};
use vstd::prelude::*;

pub use crate::engine::Txid;

verus! {

pub const DNS_PORT: u16 = 53;

/// How far an exchange is.
#[derive(Debug)]
pub enum Exchange {
    /// A datagram was sent.
    Datagram,
    /// A connection is being made, or `sent` bytes of the frame are out.
    Sending { frame: Vec<u8>, sent: usize },
    /// The frame is out.
    Receiving { buf: Vec<u8> },
}

pub enum ExchangeView {
    Datagram,
    Sending { frame: Seq<u8>, sent: nat },
    Receiving { buf: Seq<u8> },
}

impl View for Exchange {
    type V = ExchangeView;

    open spec fn view(&self) -> ExchangeView {
        match self {
            Exchange::Datagram => ExchangeView::Datagram,
            Exchange::Sending { frame, sent } => ExchangeView::Sending { frame: frame@, sent: *sent as nat },
            Exchange::Receiving { buf } => ExchangeView::Receiving { buf: buf@ },
        }
    }
}

/// How an exchange ended.
#[derive(Debug)]
pub enum Event {
    Received(Vec<u8>),
    Failed,
}

pub enum EventView {
    Received(Seq<u8>),
    Failed,
}

impl View for Event {
    type V = EventView;

    open spec fn view(&self) -> EventView {
        match self {
            Event::Received(b) => EventView::Received(b@),
            Event::Failed => EventView::Failed,
        }
    }
}

/// What a socket that is ready is to be used for.
#[derive(Debug)]
pub enum Work {
    /// It is not one of ours.
    Nothing,
    /// The exchange is over: it failed.
    Fail,
    /// Receive a datagram.
    Receive,
    /// Write these bytes; at the first of them see whether the connection was
    /// made at all.
    Write { first: bool, bytes: Vec<u8> },
    /// Read the stream.
    Read,
}

pub enum WorkView {
    Nothing,
    Fail,
    Receive,
    Write { first: bool, bytes: Seq<u8> },
    Read,
}

impl View for Work {
    type V = WorkView;

    open spec fn view(&self) -> WorkView {
        match self {
            Work::Nothing => WorkView::Nothing,
            Work::Fail => WorkView::Fail,
            Work::Receive => WorkView::Receive,
            Work::Write { first, bytes } => WorkView::Write { first: *first, bytes: bytes@ },
            Work::Read => WorkView::Read,
        }
    }
}

/// What a write came to.
#[derive(Debug, Clone, Copy)]
pub enum Write {
    Wrote(usize),
    WouldBlock,
    Error,
}

/// What comes after a read.
#[derive(Debug)]
pub enum After {
    /// Read on.
    Again,
    /// Nothing more for now.
    Wait,
    /// The exchange is over.
    Over(Event),
}

pub enum AfterView {
    Again,
    Wait,
    Over(EventView),
}

impl View for After {
    type V = AfterView;

    open spec fn view(&self) -> AfterView {
        match self {
            After::Again => AfterView::Again,
            After::Wait => AfterView::Wait,
            After::Over(e) => AfterView::Over(e@),
        }
    }
}

/// The exchanges that are under way.
#[derive(Debug)]
pub struct Upstream {
    exchanges: Table<Exchange>,
}

pub type Exchanges = Map<u64, ExchangeView>;

impl View for Upstream {
    type V = Exchanges;

    closed spec fn view(&self) -> Exchanges {
        self.exchanges@
    }
}

/// An exchange that has just been opened.
pub open spec fn opened(tcp: bool, payload: Seq<u8>) -> ExchangeView {
    if tcp {
        ExchangeView::Sending { frame: tcp_framed(payload), sent: 0 }
    } else {
        ExchangeView::Datagram
    }
}

/// Whether an exchange waits to write.
pub open spec fn wants_to_write(e: ExchangeView) -> bool {
    e is Sending
}

/// What is to be done where a socket is ready; `trouble` is an error or a
/// hang-up on it, which is the end of anything but what is being received.
pub open spec fn work(m: Exchanges, tx: u64, trouble: bool) -> WorkView {
    if !m.contains_key(tx) {
        WorkView::Nothing
    } else {
        match m[tx] {
            ExchangeView::Datagram => WorkView::Receive,
            ExchangeView::Sending { frame, sent } => if trouble {
                WorkView::Fail
            } else {
                WorkView::Write { first: sent == 0, bytes: frame.skip(sent as int) }
            },
            ExchangeView::Receiving { buf: _ } => WorkView::Read,
        }
    }
}

pub open spec fn after_ready(m: Exchanges, tx: u64, trouble: bool) -> Exchanges {
    if work(m, tx, trouble) is Fail {
        m.remove(tx)
    } else {
        m
    }
}

/// What a datagram, or the want of one, comes to.
pub open spec fn after_datagram(m: Exchanges, tx: u64, read: ReadView) -> (Exchanges, AfterView) {
    if !m.contains_key(tx) {
        (m, AfterView::Wait)
    } else {
        match read {
            ReadView::Bytes(b) => (m.remove(tx), AfterView::Over(EventView::Received(b))),
            ReadView::WouldBlock => (m, AfterView::Wait),
            _ => (m.remove(tx), AfterView::Over(EventView::Failed)),
        }
    }
}

/// What a write comes to. When the whole frame is out, the answer is read.
pub open spec fn after_write(m: Exchanges, tx: u64, write: Write) -> (Exchanges, AfterView) {
    if !m.contains_key(tx) {
        (m, AfterView::Wait)
    } else {
        match (m[tx], write) {
            (ExchangeView::Sending { frame, sent }, Write::Wrote(n)) => {
                let now = if sent + n == frame.len() {
                    ExchangeView::Receiving { buf: Seq::empty() }
                } else {
                    ExchangeView::Sending { frame, sent: (sent + n) as nat }
                };
                (m.insert(tx, now), AfterView::Wait)
            },
            (ExchangeView::Sending { frame: _, sent: _ }, Write::Error) => (
                m.remove(tx),
                AfterView::Over(EventView::Failed),
            ),
            _ => (m, AfterView::Wait),
        }
    }
}

/// What a read of a stream comes to. A server that closes before it has sent
/// a whole message has failed.
pub open spec fn after_read(m: Exchanges, tx: u64, read: ReadView) -> (Exchanges, AfterView) {
    if !m.contains_key(tx) {
        (m, AfterView::Wait)
    } else {
        match (m[tx], read) {
            (ExchangeView::Receiving { buf }, ReadView::Bytes(b)) => (
                m.insert(tx, ExchangeView::Receiving { buf: buf + b }),
                AfterView::Again,
            ),
            (ExchangeView::Receiving { buf: _ }, ReadView::Interrupted) => (m, AfterView::Again),
            (ExchangeView::Receiving { buf }, ReadView::WouldBlock) => match tcp_message_in(buf) {
                Some(message) => (m.remove(tx), AfterView::Over(EventView::Received(message))),
                None => (m, AfterView::Wait),
            },
            (ExchangeView::Receiving { buf: _ }, _) => (m.remove(tx), AfterView::Over(EventView::Failed)),
            _ => (m, AfterView::Wait),
        }
    }
}

/// Whether what is out of a frame is part of it.
pub open spec fn in_bounds(m: Exchanges) -> bool {
    forall|tx: u64| #[trigger]
        m.contains_key(tx) ==> (m[tx] matches ExchangeView::Sending { frame, sent } ==> sent <= frame.len())
}

impl Upstream {
    pub fn new() -> (r: Upstream)
        ensures
            r@ == Map::<u64, ExchangeView>::empty(),
            in_bounds(r@),
    {
        Upstream { exchanges: Table::new() }
    }

    /// Take up an exchange whose socket is open.
    pub fn send(&mut self, tx: Txid, tcp: bool, payload: &[u8])
        requires
            payload@.len() <= u16::MAX,
            in_bounds(old(self)@),
        ensures
            final(self)@ == old(self)@.insert(tx, opened(tcp, payload@)),
            in_bounds(final(self)@),
    {
        let exchange = if tcp {
            Exchange::Sending { frame: tcp_frame(payload), sent: 0 }
        } else {
            Exchange::Datagram
        };
        self.exchanges.insert(tx, exchange);
    }

    pub fn cancel(&mut self, tx: Txid)
        requires
            in_bounds(old(self)@),
        ensures
            final(self)@ == old(self)@.remove(tx),
            in_bounds(final(self)@),
    {
        self.exchanges.remove(tx);
    }

    /// The exchanges, in order, and whether each waits to write.
    pub fn interests(&self) -> (r: Vec<(Txid, bool)>)
        ensures
            r@ == Seq::new(
                numbers(self@).len(),
                |i: int| (numbers(self@)[i], wants_to_write(self@[numbers(self@)[i]])),
            ),
    {
        let ids = self.exchanges.numbers();
        proof {
            lemma_numbers(self@);
        }
        let mut out: Vec<(Txid, bool)> = Vec::new();
        let mut i: usize = 0;
        while i < ids.len()
            invariant
                i <= ids@.len(),
                ids@ == numbers(self@),
                forall|j: int| 0 <= j < ids@.len() ==> self@.contains_key(#[trigger] ids@[j]),
                out@.len() == i,
                forall|j: int|
                    0 <= j < i ==> #[trigger] out@[j] == (ids@[j], wants_to_write(self@[ids@[j]])),
            decreases ids@.len() - i,
        {
            assert(self@.contains_key(ids@[i as int]));
            let writes: bool = match self.exchanges.get(ids[i]) {
                Some(Exchange::Sending { frame: _, sent: _ }) => true,
                _ => false,
            };
            out.push((ids[i], writes));
            i += 1;
        }
        assert(out@ =~= Seq::new(ids@.len(), |i: int| (ids@[i], wants_to_write(self@[ids@[i]]))));
        out
    }

    /// The socket of `tx` is ready.
    pub fn service(&mut self, tx: Txid, trouble: bool) -> (r: Work)
        requires
            in_bounds(old(self)@),
        ensures
            r@ == work(old(self)@, tx, trouble),
            final(self)@ == after_ready(old(self)@, tx, trouble),
            in_bounds(final(self)@),
    {
        let work = match self.exchanges.get(tx) {
            None => Work::Nothing,
            Some(Exchange::Datagram) => Work::Receive,
            Some(Exchange::Receiving { buf: _ }) => Work::Read,
            Some(Exchange::Sending { frame, sent }) => {
                if trouble {
                    Work::Fail
                } else {
                    assert(self@.contains_key(tx));
                    let bytes = octets::copy_range(frame.as_slice(), *sent, frame.len());
                    assert(bytes@ =~= frame@.skip(*sent as int));
                    Work::Write { first: *sent == 0, bytes }
                }
            },
        };
        match work {
            Work::Fail => {
                self.exchanges.remove(tx);
            },
            _ => {},
        }
        work
    }

    /// A datagram arrived for `tx`, or none did.
    pub fn received(&mut self, tx: Txid, read: Read) -> (r: After)
        requires
            in_bounds(old(self)@),
        ensures
            (final(self)@, r@) == after_datagram(old(self)@, tx, read@),
            in_bounds(final(self)@),
    {
        if self.exchanges.get(tx).is_none() {
            return After::Wait;
        }
        match read {
            Read::WouldBlock => After::Wait,
            Read::Bytes(b) => {
                self.exchanges.remove(tx);
                After::Over(Event::Received(b))
            },
            _ => {
                self.exchanges.remove(tx);
                After::Over(Event::Failed)
            },
        }
    }

    /// The stream of `tx` was written to.
    pub fn wrote(&mut self, tx: Txid, write: Write) -> (r: After)
        requires
            in_bounds(old(self)@),
            write matches Write::Wrote(n) ==> (old(self)@.contains_key(tx) ==> (old(self)@[tx] matches ExchangeView::Sending {
                frame,
                sent,
            } ==> sent + n <= frame.len())),
        ensures
            (final(self)@, r@) == after_write(old(self)@, tx, write),
            in_bounds(final(self)@),
    {
        let ghost before = self@;
        let exchange = match self.exchanges.remove(tx) {
            Some(e) => e,
            None => {
                assert(before.remove(tx) =~= before);
                return After::Wait;
            },
        };
        let ghost was = exchange@;
        assert(before.contains_key(tx));
        match (exchange, write) {
            (Exchange::Sending { frame, sent }, Write::Wrote(n)) => {
                let total: usize = frame.len();
                let sent: usize = sent + n;
                let now = if sent == total {
                    let buf: Vec<u8> = Vec::new();
                    assert(buf@ =~= Seq::<u8>::empty());
                    Exchange::Receiving { buf }
                } else {
                    Exchange::Sending { frame, sent }
                };
                self.exchanges.insert(tx, now);
                assert(before.remove(tx).insert(tx, now@) =~= before.insert(tx, now@));
                After::Wait
            },
            (Exchange::Sending { frame: _, sent: _ }, Write::Error) => After::Over(Event::Failed),
            (exchange, _) => {
                self.exchanges.insert(tx, exchange);
                assert(before.remove(tx).insert(tx, was) =~= before);
                After::Wait
            },
        }
    }

    /// The stream of `tx` was read from.
    pub fn read(&mut self, tx: Txid, read: Read) -> (r: After)
        requires
            in_bounds(old(self)@),
        ensures
            (final(self)@, r@) == after_read(old(self)@, tx, read@),
            in_bounds(final(self)@),
    {
        let ghost before = self@;
        let exchange = match self.exchanges.remove(tx) {
            Some(e) => e,
            None => {
                assert(before.remove(tx) =~= before);
                return After::Wait;
            },
        };
        let ghost was = exchange@;
        assert(before.contains_key(tx));
        let mut buf = match exchange {
            Exchange::Receiving { buf } => buf,
            exchange => {
                self.exchanges.insert(tx, exchange);
                assert(before.remove(tx).insert(tx, was) =~= before);
                return After::Wait;
            },
        };
        match read {
            Read::Bytes(b) => {
                octets::push_all(&mut buf, b.as_slice());
                let now = Exchange::Receiving { buf };
                self.exchanges.insert(tx, now);
                assert(before.remove(tx).insert(tx, now@) =~= before.insert(tx, now@));
                After::Again
            },
            Read::Interrupted => {
                self.exchanges.insert(tx, Exchange::Receiving { buf });
                assert(before.remove(tx).insert(tx, was) =~= before);
                After::Again
            },
            Read::WouldBlock => match tcp_message(buf.as_slice()) {
                Some(message) => After::Over(Event::Received(message)),
                None => {
                    self.exchanges.insert(tx, Exchange::Receiving { buf });
                    assert(before.remove(tx).insert(tx, was) =~= before);
                    After::Wait
                },
            },
            _ => After::Over(Event::Failed),
        }
    }
}

/// Every byte of a frame is written once and in order: what is left to write
/// after part of it was is the rest.
pub proof fn law_frames_are_written_in_order(m: Exchanges, tx: u64, n: usize)
    requires
        m.contains_key(tx),
        m[tx] matches ExchangeView::Sending { frame, sent } && sent + n < frame.len(),
    ensures
        work(m, tx, false)->bytes == work(m, tx, false)->bytes.take(n as int) + work(
            after_write(m, tx, Write::Wrote(n)).0,
            tx,
            false,
        )->bytes,
{
    let rest = work(m, tx, false)->bytes;
    let after = work(after_write(m, tx, Write::Wrote(n)).0, tx, false)->bytes;
    assert(after =~= rest.skip(n as int));
    assert(rest =~= rest.take(n as int) + rest.skip(n as int));
}

/// A message that a server sends over a stream is received as it is, however
/// it was cut up.
pub proof fn law_streamed_message_is_received(m: Exchanges, tx: u64, message: Seq<u8>, a: Seq<u8>, b: Seq<u8>)
    requires
        m.contains_key(tx),
        m[tx] == (ExchangeView::Receiving { buf: Seq::empty() }),
        message.len() <= u16::MAX,
        a + b == tcp_framed(message),
    ensures
        ({
            let m1 = after_read(m, tx, ReadView::Bytes(a)).0;
            let m2 = after_read(m1, tx, ReadView::Bytes(b)).0;
            after_read(m2, tx, ReadView::WouldBlock).1 == AfterView::Over(EventView::Received(message))
        }),
{
    law_tcp_frame_round_trip(message, Seq::empty());
    assert(tcp_framed(message) + Seq::<u8>::empty() =~= tcp_framed(message));
    assert(Seq::<u8>::empty() + a + b =~= a + b);
}

} // verus!

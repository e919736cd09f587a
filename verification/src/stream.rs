//! Connections that messages arrive on in pieces.
//!
//! A peer that sends half a message and stops holds a few bytes of buffer and
//! a moment at which it is given up, and nothing else.
use crate::octets::{self, be_bytes, be_value, push_all, push_be, value_be};
use crate::table::{lemma_numbers, numbers, Table};
use crate::time::{Duration, Instant};
use vstd::prelude::*;

verus! {

// DNS over a stream: two bytes of length, then the message.

/// A message with its length in front.
pub open spec fn tcp_framed(message: Seq<u8>) -> Seq<u8> {
    be_bytes(message.len(), 2) + message
}

pub fn tcp_frame(message: &[u8]) -> (r: Vec<u8>)
    requires
        message@.len() <= u16::MAX,
    ensures
        r@ == tcp_framed(message@),
{
    let mut frame: Vec<u8> = Vec::new();
    push_be(&mut frame, message.len() as u64, 2);
    push_all(&mut frame, message);
    assert(frame@ =~= tcp_framed(message@));
    frame
}

/// The message at the front of what arrived, once all of it has.
pub open spec fn tcp_message_in(buf: Seq<u8>) -> Option<Seq<u8>> {
    if buf.len() < 2 {
        None
    } else {
        let len = be_value(buf.take(2));
        if buf.len() < 2 + len {
            None
        } else {
            Some(buf.subrange(2, (2 + len) as int))
        }
    }
}

pub fn tcp_message(buf: &[u8]) -> (r: Option<Vec<u8>>)
    ensures
        match tcp_message_in(buf@) {
            Some(m) => r matches Some(v) && v@ == m,
            None => r is None,
        },
{
    if buf.len() < 2 {
        return None;
    }
    let head = octets::copy_range(buf, 0, 2);
    assert(head@ =~= buf@.take(2));
    proof {
        octets::lemma_pow256();
        octets::lemma_be_value_bound(head@);
    }
    let len: usize = value_be(head.as_slice()) as usize;
    if buf.len() - 2 < len {
        return None;
    }
    Some(octets::copy_range(buf, 2, 2 + len))
}

/// What is framed and followed by anything is read back.
pub proof fn law_tcp_frame_round_trip(message: Seq<u8>, more: Seq<u8>)
    requires
        message.len() <= u16::MAX,
    ensures
        tcp_message_in(tcp_framed(message) + more) == Some(message),
{
    let buf = tcp_framed(message) + more;
    octets::lemma_pow256();
    octets::lemma_be_round_trip(message.len(), 2);
    assert(buf.take(2) =~= be_bytes(message.len(), 2));
    assert(buf.subrange(2, (2 + message.len()) as int) =~= message);
}

/// Nothing is read before all of a message has arrived.
pub proof fn law_tcp_frame_waits_for_all(message: Seq<u8>, n: int)
    requires
        message.len() <= u16::MAX,
        0 <= n < tcp_framed(message).len(),
    ensures
        tcp_message_in(tcp_framed(message).take(n)) is None,
{
    let part = tcp_framed(message).take(n);
    octets::lemma_pow256();
    octets::lemma_be_round_trip(message.len(), 2);
    if n >= 2 {
        assert(part.take(2) =~= be_bytes(message.len(), 2));
    }
}

// Connections.

/// What a read of a connection came to.
pub enum Read {
    Bytes(Vec<u8>),
    /// The peer has closed its side.
    End,
    /// Nothing more for now.
    WouldBlock,
    Interrupted,
    Error,
}

pub enum ReadView {
    Bytes(Seq<u8>),
    End,
    WouldBlock,
    Interrupted,
    Error,
}

impl View for Read {
    type V = ReadView;

    open spec fn view(&self) -> ReadView {
        match self {
            Read::Bytes(b) => ReadView::Bytes(b@),
            Read::End => ReadView::End,
            Read::WouldBlock => ReadView::WouldBlock,
            Read::Interrupted => ReadView::Interrupted,
            Read::Error => ReadView::Error,
        }
    }
}

/// A connection that has not yet sent all it owes.
#[derive(Debug)]
pub struct Client {
    pub buf: Vec<u8>,
    pub since: Instant,
}

#[verifier::ext_equal]
pub struct ClientView {
    pub buf: Seq<u8>,
    pub since: Instant,
}

impl View for Client {
    type V = ClientView;

    open spec fn view(&self) -> ClientView {
        ClientView { buf: self.buf@, since: self.since }
    }
}

/// A connection that nothing arrived on yet.
pub open spec fn silent(now: Instant) -> ClientView {
    ClientView { buf: Seq::empty(), since: now }
}

impl Client {
    pub fn new(now: Instant) -> (r: Client)
        ensures
            r@ == silent(now),
    {
        let r = Client { buf: Vec::new(), since: now };
        assert(r@ =~= silent(now));
        r
    }
}

/// Whether a connection has sat too long.
pub open spec fn sat_too_long(since: Instant, now: Instant, timeout: Duration) -> bool {
    now - since >= timeout
}

/// The connections that have not sat too long.
pub open spec fn fresh_clients(c: Map<u64, ClientView>, now: Instant, timeout: Duration) -> Map<u64, ClientView> {
    Map::new(|id: u64| c.contains_key(id) && !sat_too_long(c[id].since, now, timeout), |id: u64| c[id])
}

/// Drops the connections that have sat too long, and says which.
pub fn drop_stale(clients: &mut Table<Client>, now: Instant, timeout: Duration) -> (gone: Vec<u64>)
    ensures
        final(clients)@ == fresh_clients(old(clients)@, now, timeout),
        forall|id: u64| #[trigger]
            gone@.contains(id) <==> old(clients)@.contains_key(id) && sat_too_long(
                old(clients)@[id].since,
                now,
                timeout,
            ),
{
    let ids = clients.numbers();
    let ghost all = clients@;
    proof {
        lemma_numbers(all);
    }
    let mut gone: Vec<u64> = Vec::new();
    let mut i: usize = 0;
    while i < ids.len()
        invariant
            i <= ids@.len(),
            ids@ == numbers(all),
            forall|j: int| 0 <= j < ids@.len() ==> all.contains_key(#[trigger] ids@[j]),
            forall|j: int, k: int| 0 <= j < k < ids@.len() ==> #[trigger] ids@[j] < #[trigger] ids@[k],
            forall|id: u64| #[trigger]
                clients@.contains_key(id) <==> all.contains_key(id) && !(ids@.take(i as int).contains(id)
                    && sat_too_long(all[id].since, now, timeout)),
            forall|id: u64| #[trigger] clients@.contains_key(id) ==> clients@[id] == all[id],
            forall|id: u64| #[trigger]
                gone@.contains(id) <==> ids@.take(i as int).contains(id) && sat_too_long(
                    all[id].since,
                    now,
                    timeout,
                ),
        decreases ids@.len() - i,
    {
        let id: u64 = ids[i];
        assert(all.contains_key(ids@[i as int]));
        assert(!ids@.take(i as int).contains(id)) by {
            if ids@.take(i as int).contains(id) {
                let j = choose|j: int| 0 <= j < i && ids@.take(i as int)[j] == id;
                assert(ids@[j] < ids@[i as int]);
            }
        }
        assert(clients@.contains_key(id));
        let stale: bool = match clients.get(id) {
            Some(c) => now >= c.since && now - c.since >= timeout,
            None => false,
        };
        proof {
            assert(ids@.take(i + 1) =~= ids@.take(i as int).push(id));
            assert forall|x: u64| ids@.take(i + 1).contains(x) <==> ids@.take(i as int).contains(x) || x == id by {
                lemma_pushed(ids@.take(i as int), id, x);
            }
        }
        if stale {
            clients.remove(id);
            let ghost before = gone@;
            gone.push(id);
            assert forall|x: u64| #[trigger] gone@.contains(x) <==> before.contains(x) || x == id by {
                lemma_pushed(before, id, x);
            }
        }
        i += 1;
    }
    assert(ids@.take(i as int) =~= ids@);
    assert(clients@ =~= fresh_clients(all, now, timeout));
    gone
}

/// The moment from which a connection has sat too long: the last one there is,
/// where it is past that.
pub open spec fn expiry(since: Instant, timeout: Duration) -> Instant {
    if since + timeout <= u64::MAX {
        (since + timeout) as u64
    } else {
        u64::MAX
    }
}

/// Whether a moment is the first at which a connection has sat too long, there
/// being none where there is no connection.
pub open spec fn is_next_expiry(c: Map<u64, ClientView>, timeout: Duration, next: Option<Instant>) -> bool {
    match next {
        Some(t) => {
            &&& exists|id: u64| #[trigger] c.contains_key(id) && expiry(c[id].since, timeout) == t
            &&& forall|id: u64| #[trigger] c.contains_key(id) ==> t <= expiry(c[id].since, timeout)
        },
        None => forall|id: u64| !#[trigger] c.contains_key(id),
    }
}

pub fn next_expiry(clients: &Table<Client>, timeout: Duration) -> (r: Option<Instant>)
    ensures
        is_next_expiry(clients@, timeout, r),
{
    let ids = clients.numbers();
    proof {
        lemma_numbers(clients@);
    }
    let mut best: Option<Instant> = None;
    let mut i: usize = 0;
    while i < ids.len()
        invariant
            i <= ids@.len(),
            forall|j: int| 0 <= j < ids@.len() ==> clients@.contains_key(#[trigger] ids@[j]),
            match best {
                Some(t) => {
                    &&& exists|j: int| 0 <= j < i && expiry(clients@[#[trigger] ids@[j]].since, timeout) == t
                    &&& forall|j: int| 0 <= j < i ==> t <= expiry(clients@[#[trigger] ids@[j]].since, timeout)
                },
                None => i == 0,
            },
        decreases ids@.len() - i,
    {
        assert(clients@.contains_key(ids@[i as int]));
        if let Some(c) = clients.get(ids[i]) {
            let t: u64 = c.since.saturating_add(timeout);
            assert(expiry(clients@[ids@[i as int]].since, timeout) == t);
            best = match best {
                Some(b) => if t < b {
                    Some(t)
                } else {
                    Some(b)
                },
                None => Some(t),
            };
        }
        i += 1;
    }
    proof {
        assert forall|id: u64| #[trigger] clients@.contains_key(id) implies (best matches Some(t) && t
            <= expiry(clients@[id].since, timeout)) by {
            let j = choose|j: int| 0 <= j < ids@.len() && ids@[j] == id;
            assert(clients@.contains_key(ids@[j]));
        }
    }
    best
}

proof fn lemma_pushed(v: Seq<u64>, id: u64, x: u64)
    ensures
        v.push(id).contains(x) <==> v.contains(x) || x == id,
{
    let w = v.push(id);
    if v.contains(x) {
        let k = choose|k: int| 0 <= k < v.len() && v[k] == x;
        assert(w[k] == x);
    }
    if w.contains(x) {
        let k = choose|k: int| 0 <= k < w.len() && w[k] == x;
        if k < v.len() {
            assert(v[k] == x);
        }
    }
    assert(w[v.len() as int] == id);
}

} // verus!

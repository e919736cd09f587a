//! The native door: one request per connection, authorised against the
//! resolver's control object.
//!
//! Connections are nonblocking end to end: a client that sends half a request
//! and stops holds a few bytes of buffer, not the loop.
use crate::octets::{self, push_all};
use crate::protocol::{
    dec_ask, enc_reply, frame, frame_length, framed, le32_value, Ask, Fault, Reply, ReplyView, Request,
    MAX_MESSAGE_BYTES, RESOLVER_ALL_ACCESS, RESOLVER_CONTROL, RESOLVER_QUERY,
};
use crate::stream::{Client, ClientView, Read, ReadView};
use crate::stub::opt_bytes;
use crate::time::Duration;
use vstd::prelude::*;

verus! {

/// A client has this long to send its whole request.
pub const CLIENT_TIMEOUT: Duration = 5_000_000_000;

// Rights.

/// Whom the control object names.
#[derive(Debug, Clone, Copy, PartialEq, Eq, Structural)]
pub enum Trustee {
    System,
    Administrators,
    Everyone,
}

/// Who may do what where no descriptor is configured: everyone may query, the
/// system and its administrators may control. `read_control` is the right to
/// read the descriptor.
pub open spec fn default_rights(read_control: u32) -> Seq<(Trustee, u32)> {
    seq![
        (Trustee::System, RESOLVER_ALL_ACCESS),
        (Trustee::Administrators, RESOLVER_ALL_ACCESS),
        (Trustee::Everyone, RESOLVER_QUERY | read_control),
    ]
}

pub fn default_grants(read_control: u32) -> (r: Vec<(Trustee, u32)>)
    ensures
        r@ == default_rights(read_control),
{
    let r = vec![
        (Trustee::System, RESOLVER_ALL_ACCESS),
        (Trustee::Administrators, RESOLVER_ALL_ACCESS),
        (Trustee::Everyone, RESOLVER_QUERY | read_control),
    ];
    assert(r@ =~= default_rights(read_control));
    r
}

/// What reading, writing, executing and everything mean of a resolver.
#[derive(Debug, Clone, Copy, PartialEq, Eq, Structural)]
pub struct Mapping {
    pub read: u32,
    pub write: u32,
    pub execute: u32,
    pub all: u32,
}

pub fn mapping(read_control: u32) -> (r: Mapping)
    ensures
        r.read == RESOLVER_QUERY | read_control,
        r.write == RESOLVER_CONTROL | read_control,
        r.execute == RESOLVER_QUERY,
        r.all == RESOLVER_ALL_ACCESS,
{
    Mapping {
        read: RESOLVER_QUERY | read_control,
        write: RESOLVER_CONTROL | read_control,
        execute: RESOLVER_QUERY,
        all: RESOLVER_ALL_ACCESS,
    }
}

/// By default everyone has the right that every request but a flush needs, and
/// not the one that a flush needs; the system and its administrators have
/// both.
pub proof fn law_everyone_may_query_and_not_control(read_control: u32)
    requires
        read_control & 0x3 == 0,
    ensures
        default_rights(read_control)[2].1 & RESOLVER_QUERY == RESOLVER_QUERY,
        default_rights(read_control)[2].1 & RESOLVER_CONTROL == 0,
        RESOLVER_ALL_ACCESS & RESOLVER_QUERY == RESOLVER_QUERY,
        RESOLVER_ALL_ACCESS & RESOLVER_CONTROL == RESOLVER_CONTROL,
{
    assert(read_control & 0x3 == 0 ==> (0x1u32 | read_control) & 0x1 == 0x1 && (0x1u32 | read_control) & 0x2 == 0)
        by (bit_vector);
    assert(0xf_0003u32 & 0x1 == 0x1 && 0xf_0003u32 & 0x2 == 0x2) by (bit_vector);
}

// Requests.

#[derive(Debug)]
pub enum Progress {
    /// Read on.
    Again,
    /// Still reading.
    Incomplete,
    /// A whole request arrived.
    Request(Request),
    /// The connection is over, or the bytes were not a request; what is owed
    /// is sent first.
    Closed(Option<Vec<u8>>),
}

pub enum ProgressView {
    Again,
    Incomplete,
    Request(Ask),
    Closed(Option<Seq<u8>>),
}

impl View for Progress {
    type V = ProgressView;

    open spec fn view(&self) -> ProgressView {
        match self {
            Progress::Again => ProgressView::Again,
            Progress::Incomplete => ProgressView::Incomplete,
            Progress::Request(r) => ProgressView::Request(r@),
            Progress::Closed(b) => ProgressView::Closed(opt_bytes(*b)),
        }
    }
}

/// The frame of a reply.
pub open spec fn reply_frame(r: ReplyView) -> Seq<u8> {
    frame(enc_reply(r))
}

/// The bytes of a reply.
pub fn respond(reply: &Reply) -> (r: Vec<u8>)
    ensures
        r@ == reply_frame(reply@),
{
    framed(reply.encode().as_slice())
}

/// The end of a connection with an error told.
pub open spec fn refused(message: Seq<char>) -> ProgressView {
    ProgressView::Closed(Some(reply_frame(ReplyView::Error(message))))
}

/// What the bytes that arrived come to, once there are no more for now.
pub open spec fn request_in(buf: Seq<u8>) -> ProgressView {
    if buf.len() < 4 {
        ProgressView::Incomplete
    } else {
        let len = le32_value(buf);
        if len > MAX_MESSAGE_BYTES {
            refused("request too large"@)
        } else if buf.len() < 4 + len {
            ProgressView::Incomplete
        } else {
            match dec_ask(buf.subrange(4, 4 + len as int)) {
                Ok(a) => ProgressView::Request(a),
                Err(e) => refused(e.text()),
            }
        }
    }
}

/// What a read of a connection comes to.
pub open spec fn progressed(c: ClientView, read: ReadView) -> (ClientView, ProgressView) {
    match read {
        ReadView::End => (c, ProgressView::Closed(None)),
        ReadView::Error => (c, ProgressView::Closed(None)),
        ReadView::Interrupted => (c, ProgressView::Again),
        ReadView::Bytes(chunk) => {
            let buf = c.buf + chunk;
            if buf.len() > 4 + MAX_MESSAGE_BYTES {
                (c, refused("request too large"@))
            } else {
                (ClientView { buf, ..c }, ProgressView::Again)
            }
        },
        ReadView::WouldBlock => (c, request_in(c.buf)),
    }
}

fn refuse(message: &str) -> (r: Progress)
    ensures
        r@ == refused(message@),
{
    Progress::Closed(Some(respond(&Reply::Error(message.to_owned()))))
}

impl Client {
    /// Take what was read and see whether a request is complete.
    pub fn read(&mut self, read: Read) -> (r: Progress)
        ensures
            (final(self)@, r@) == progressed(old(self)@, read@),
    {
        match read {
            Read::End => Progress::Closed(None),
            Read::Error => Progress::Closed(None),
            Read::Interrupted => Progress::Again,
            Read::Bytes(chunk) => {
                if chunk.len() > 4 + MAX_MESSAGE_BYTES || self.buf.len() > 4 + MAX_MESSAGE_BYTES - chunk.len() {
                    return refuse("request too large");
                }
                push_all(&mut self.buf, chunk.as_slice());
                Progress::Again
            },
            Read::WouldBlock => {
                if self.buf.len() < 4 {
                    return Progress::Incomplete;
                }
                let len: u64 = frame_length(self.buf.as_slice());
                if len > MAX_MESSAGE_BYTES as u64 {
                    return refuse("request too large");
                }
                let len: usize = len as usize;
                if self.buf.len() - 4 < len {
                    return Progress::Incomplete;
                }
                let payload = octets::copy_range(self.buf.as_slice(), 4, 4 + len);
                match Request::decode(payload.as_slice()) {
                    Ok(r) => Progress::Request(r),
                    Err(e) => refuse(e.to_text().as_str()),
                }
            },
        }
    }
}

/// A request that was framed and arrived is the one that was sent, whatever
/// follows it.
pub proof fn law_framed_request_arrives(payload: Seq<u8>, more: Seq<u8>, a: Ask)
    requires
        payload.len() <= MAX_MESSAGE_BYTES,
        dec_ask(payload) == Ok::<Ask, Fault>(a),
    ensures
        request_in(frame(payload) + more) == ProgressView::Request(a),
{
    let buf = frame(payload) + more;
    let n = payload.len();
    assert(buf[0] == (n % 0x100) as u8);
    assert(buf[1] == (n / 0x100 % 0x100) as u8);
    assert(buf[2] == (n / 0x1_0000 % 0x100) as u8);
    assert(buf[3] == (n / 0x100_0000 % 0x100) as u8);
    assert(le32_value(buf) == n);
    assert(buf.subrange(4, 4 + n as int) =~= payload);
}

} // verus!

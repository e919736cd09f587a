//! How a program that asks the C library resolves a host.
//!
//! The question is forwarded to the resolver's native door and the answer is
//! rendered as the C library's structures: the protocol is in the resolver's
//! terms, and this flattens it into what that interface can carry.
//!
//! # What it does not do
//!
//! It reads no hosts file, it does not speak DNS itself (a second policy
//! path), and it does not cache (that is the resolver's, shared by every
//! process). Before the resolver is running it answers `localhost` on its
//! own, the one name a machine can never be without, and nothing else.
//!
//! # Failing the right way
//!
//! An absent name is not found; a name with no address of the family is not
//! found for want of data, which is told apart. Where the resolver is there but nothing could
//! answer, the caller is to try again: that is never told as absence. A
//! resolver that is not there is unavailable.
pub mod buffer;
pub mod content;
pub mod laws;

use crate::addr::{is_loopback, localhost_v4, localhost_v6, IpAddr, Ipv4Addr, Ipv6Addr};
use crate::octets::{self, strings};
use crate::protocol::{
    no_answer, no_record, views, AddressOut, AddressOutView, Addresses, AddressesView, Answer, AnswerView, Ask, Family,
    Fault, IoKind, Outcome, RecordOut, RecordOutView, Reply, ReplyView, Request, Validation, WireError,
};
use crate::text::{self, lower};
use buffer::{
    opt_place, pointed, puts_view, with_bytes, with_pointers, with_string, with_tuples, Packer, PackerView, Put, Puts,
    Shape,
};
use vstd::prelude::*;
use vstd::utf8::*;

verus! {

#[derive(Debug, Clone, Copy, PartialEq, Eq, Structural)]
pub enum NssStatus {
    TryAgain,
    Unavail,
    NotFound,
    Success,
}

impl NssStatus {
    /// The number that the C library knows a status by.
    pub fn code(self) -> (r: i32)
        ensures
            r == match self {
                NssStatus::TryAgain => -2i32,
                NssStatus::Unavail => -1i32,
                NssStatus::NotFound => 0i32,
                NssStatus::Success => 1i32,
            },
    {
        match self {
            NssStatus::TryAgain => -2,
            NssStatus::Unavail => -1,
            NssStatus::NotFound => 0,
            NssStatus::Success => 1,
        }
    }
}

pub const HOST_NOT_FOUND: i32 = 1;

pub const TRY_AGAIN: i32 = 2;

pub const NO_RECOVERY: i32 = 3;

pub const NO_DATA: i32 = 4;

/// The error number that goes with a failure.
#[derive(Debug, Clone, Copy, PartialEq, Eq, Structural)]
pub enum Errno {
    /// `ENOENT`
    NoEntry,
    /// `EAGAIN`
    Again,
    /// `ERANGE`
    Range,
    /// `EAFNOSUPPORT`
    FamilyNotSupported,
}

/// What a call that fails is told.
#[derive(Debug, Clone, Copy, PartialEq, Eq, Structural)]
pub struct Failure {
    pub status: NssStatus,
    pub errno: Errno,
    pub h_errno: i32,
}

pub open spec fn host_not_found() -> Failure {
    Failure { status: NssStatus::NotFound, errno: Errno::NoEntry, h_errno: HOST_NOT_FOUND }
}

/// The host is known, and has nothing of what was asked for.
pub open spec fn host_without_data() -> Failure {
    Failure { status: NssStatus::NotFound, errno: Errno::NoEntry, h_errno: NO_DATA }
}

/// The buffer is too small; the caller comes again with a larger one.
pub open spec fn no_room() -> Failure {
    Failure { status: NssStatus::TryAgain, errno: Errno::Range, h_errno: 0 }
}

fn not_found() -> (r: Failure)
    ensures
        r == host_not_found(),
{
    Failure { status: NssStatus::NotFound, errno: Errno::NoEntry, h_errno: HOST_NOT_FOUND }
}

fn out_of_room() -> (r: Failure)
    ensures
        r == no_room(),
{
    Failure { status: NssStatus::TryAgain, errno: Errno::Range, h_errno: 0 }
}

/// What the resolver had for a question.
#[derive(Debug)]
pub enum Got<T> {
    Value(T),
    /// The name exists, and has no address of the family.
    NoData,
    NotFound,
    TryAgain,
    Unavailable,
}

impl<T: View> View for Got<T> {
    type V = Got<T::V>;

    open spec fn view(&self) -> Got<T::V> {
        match self {
            Got::Value(v) => Got::Value(v@),
            Got::NoData => Got::NoData,
            Got::NotFound => Got::NotFound,
            Got::TryAgain => Got::TryAgain,
            Got::Unavailable => Got::Unavailable,
        }
    }
}

/// How a call ends that has no value.
pub open spec fn failure_of<V>(got: Got<V>) -> Option<Failure> {
    match got {
        Got::Value(_) => None,
        Got::NoData => Some(host_without_data()),
        Got::NotFound => Some(host_not_found()),
        Got::TryAgain => Some(Failure { status: NssStatus::TryAgain, errno: Errno::Again, h_errno: TRY_AGAIN }),
        Got::Unavailable => Some(
            Failure { status: NssStatus::Unavail, errno: Errno::NoEntry, h_errno: NO_RECOVERY },
        ),
    }
}

pub fn status_of<T: View>(got: &Got<T>) -> (r: Option<Failure>)
    ensures
        r == failure_of(got@),
{
    match got {
        Got::Value(_) => None,
        Got::NoData => Some(Failure { status: NssStatus::NotFound, errno: Errno::NoEntry, h_errno: NO_DATA }),
        Got::NotFound => Some(not_found()),
        Got::TryAgain => Some(Failure { status: NssStatus::TryAgain, errno: Errno::Again, h_errno: TRY_AGAIN }),
        Got::Unavailable => Some(
            Failure { status: NssStatus::Unavail, errno: Errno::NoEntry, h_errno: NO_RECOVERY },
        ),
    }
}

// Replies.

/// What came of a call: nothing where the resolver could not be reached.
pub type Called = Option<Result<Reply, WireError>>;

pub open spec fn called_view(c: Called) -> Option<Result<ReplyView, Fault>> {
    match c {
        Some(Ok(r)) => Some(Ok(r@)),
        Some(Err(e)) => Some(Err(e@)),
        None => None,
    }
}

/// Whether an error is that of a resolver that is there and did not answer in
/// time.
pub open spec fn is_timeout(e: Fault) -> bool {
    e matches Fault::Io(kind, _) && (kind == IoKind::WouldBlock || kind == IoKind::TimedOut)
}

pub open spec fn error_got<V>(e: Fault) -> Got<V> {
    if is_timeout(e) {
        Got::TryAgain
    } else {
        Got::Unavailable
    }
}

/// What a reply to a lookup is.
pub open spec fn lookup_got(c: Option<Result<ReplyView, Fault>>) -> Got<AddressesView> {
    match c {
        None => Got::Unavailable,
        Some(Err(e)) => error_got(e),
        Some(Ok(ReplyView::Addresses(a))) => match a.outcome {
            Outcome::Found => Got::Value(a),
            Outcome::NotFound => Got::NotFound,
            Outcome::Unavailable => Got::TryAgain,
        },
        Some(Ok(_)) => Got::Unavailable,
    }
}

/// What a reply to a reverse question is.
pub open spec fn reverse_got(c: Option<Result<ReplyView, Fault>>) -> Got<AnswerView> {
    match c {
        None => Got::Unavailable,
        Some(Err(e)) => error_got(e),
        Some(Ok(ReplyView::Answer(a))) => match a.outcome {
            Outcome::Found => if a.records.len() == 0 {
                Got::NotFound
            } else {
                Got::Value(a)
            },
            Outcome::NotFound => Got::NotFound,
            Outcome::Unavailable => Got::TryAgain,
        },
        Some(Ok(_)) => Got::Unavailable,
    }
}

fn timed_out(e: &WireError) -> (r: bool)
    ensures
        r == is_timeout(e@),
{
    match e {
        WireError::Io(e) => match e.kind {
            IoKind::WouldBlock => true,
            IoKind::TimedOut => true,
            _ => false,
        },
        _ => false,
    }
}

pub fn lookup(called: Called) -> (r: Got<Addresses>)
    ensures
        r@ == lookup_got(called_view(called)),
{
    match called {
        None => Got::Unavailable,
        Some(Err(e)) => if timed_out(&e) {
            Got::TryAgain
        } else {
            Got::Unavailable
        },
        Some(Ok(Reply::Addresses(a))) => match a.outcome {
            Outcome::Found => Got::Value(a),
            Outcome::NotFound => Got::NotFound,
            Outcome::Unavailable => Got::TryAgain,
        },
        Some(Ok(_)) => Got::Unavailable,
    }
}

pub fn reverse(called: Called) -> (r: Got<Answer>)
    ensures
        r@ == reverse_got(called_view(called)),
{
    match called {
        None => Got::Unavailable,
        Some(Err(e)) => if timed_out(&e) {
            Got::TryAgain
        } else {
            Got::Unavailable
        },
        Some(Ok(Reply::Answer(a))) => match a.outcome {
            Outcome::Found => if a.records.len() == 0 {
                Got::NotFound
            } else {
                Got::Value(a)
            },
            Outcome::NotFound => Got::NotFound,
            Outcome::Unavailable => Got::TryAgain,
        },
        Some(Ok(_)) => Got::Unavailable,
    }
}

// `localhost`.

/// A text without the dots at its end.
pub open spec fn undotted(b: Seq<u8>) -> Seq<u8>
    decreases b.len(),
{
    if b.len() > 0 && b.last() == 0x2e {
        undotted(b.drop_last())
    } else {
        b
    }
}

pub open spec fn lowered(b: Seq<u8>) -> Seq<u8> {
    Seq::new(b.len(), |i: int| lower(b[i]))
}

/// `localhost`
pub open spec fn localhost_text() -> Seq<u8> {
    seq![0x6cu8, 0x6f, 0x63, 0x61, 0x6c, 0x68, 0x6f, 0x73, 0x74]
}

/// Whether a name is `localhost` or under it, in any case and with or without
/// dots at its end.
pub open spec fn names_localhost(b: Seq<u8>) -> bool {
    let n = lowered(undotted(b));
    ||| n == localhost_text()
    ||| n.len() >= 10 && n.skip(n.len() - 10) == seq![0x2eu8] + localhost_text()
}

pub fn length_undotted(b: &[u8]) -> (n: usize)
    ensures
        n <= b@.len(),
        undotted(b@) == b@.take(n as int),
{
    let mut n: usize = b.len();
    assert(b@.take(n as int) =~= b@);
    while n > 0 && b[n - 1] == 0x2e
        invariant
            n <= b@.len(),
            undotted(b@) == undotted(b@.take(n as int)),
        decreases n,
    {
        assert(b@.take(n as int).drop_last() =~= b@.take(n - 1));
        n -= 1;
    }
    n
}

/// `localhost` without a resolver: the one answer that is given here.
pub fn is_localhost(name: &str) -> (r: bool)
    ensures
        r == names_localhost(encode_utf8(name@)),
{
    let b = name.as_bytes();
    let n: usize = length_undotted(b);
    let host: [u8; 10] = [0x2e, 0x6c, 0x6f, 0x63, 0x61, 0x6c, 0x68, 0x6f, 0x73, 0x74];
    let ghost low = lowered(undotted(b@));
    if n < 9 {
        assert(low.len() < 9);
        return false;
    }
    let mut i: usize = 0;
    while i < 9
        invariant
            i <= 9 <= n <= b@.len(),
            host@ =~= seq![0x2eu8] + localhost_text(),
            b@ == encode_utf8(name@),
            undotted(b@) == b@.take(n as int),
            low == lowered(undotted(b@)),
            forall|j: int| 0 <= j < i ==> low[n - 9 + j] == #[trigger] host@[1 + j],
        decreases 9 - i,
    {
        if text::to_lower(b[n - 9 + i]) != host[1 + i] {
            assert(low[n - 9 + i] != host@[1 + i]);
            proof {
                if low == localhost_text() {
                    assert(low[n - 9 + i] == localhost_text()[i as int]);
                }
                if low.len() >= 10 {
                    assert(low.skip(low.len() - 10)[1 + i] == low[n - 9 + i]);
                    assert((seq![0x2eu8] + localhost_text())[1 + i] == host@[1 + i]);
                }
            }
            return false;
        }
        i += 1;
    }
    if n == 9 {
        assert(low =~= localhost_text()) by {
            assert forall|j: int| 0 <= j < 9 implies low[j] == localhost_text()[j] by {
                assert(low[n - 9 + j] == host@[1 + j]);
            }
        }
        return true;
    }
    let dotted: bool = text::to_lower(b[n - 10]) == 0x2e;
    proof {
        let tail = low.skip(low.len() - 10);
        assert(low.len() != localhost_text().len());
        if dotted {
            assert(tail =~= seq![0x2eu8] + localhost_text()) by {
                assert forall|j: int| 0 <= j < 10 implies tail[j] == (seq![0x2eu8] + localhost_text())[j] by {
                    if j > 0 {
                        assert(low[n - 9 + (j - 1)] == host@[1 + (j - 1)]);
                    }
                }
            }
        } else {
            assert(tail[0] != (seq![0x2eu8] + localhost_text())[0]);
        }
    }
    dotted
}

/// The addresses of `localhost`.
pub open spec fn local_out(family: Family) -> AddressesView {
    let v4 = AddressOutView { address: localhost_v4(), ttl: 0 };
    let v6 = AddressOutView { address: localhost_v6(), ttl: 0 };
    AddressesView {
        outcome: Outcome::Found,
        canonical: "localhost"@,
        addresses: match family {
            Family::Any => seq![v4, v6],
            Family::V4 => seq![v4],
            Family::V6 => seq![v6],
        },
        source: "local"@,
        validation: Validation::Unvalidated,
    }
}

pub fn local_addresses(family: Family) -> (r: Addresses)
    ensures
        r@ == local_out(family),
{
    let v4 = AddressOut { address: IpAddr::V4(Ipv4Addr::localhost()), ttl: 0 };
    let v6 = AddressOut { address: IpAddr::V6(Ipv6Addr::localhost()), ttl: 0 };
    let mut addresses: Vec<AddressOut> = Vec::new();
    match family {
        Family::Any => {
            addresses.push(v4);
            addresses.push(v6);
        },
        Family::V4 => addresses.push(v4),
        Family::V6 => addresses.push(v6),
    }
    assert(views(addresses@) =~= local_out(family).addresses);
    Addresses {
        outcome: Outcome::Found,
        canonical: "localhost".to_owned(),
        addresses,
        source: "local".to_owned(),
        validation: Validation::Unvalidated,
    }
}

// Questions by name.

/// An address family as the C library has it.
#[derive(Debug, Clone, Copy, PartialEq, Eq, Structural)]
pub enum Af {
    Inet,
    Inet6,
    Unspec,
    Other,
}

pub open spec fn family_in(af: Af) -> Option<Family> {
    match af {
        Af::Inet => Some(Family::V4),
        Af::Inet6 => Some(Family::V6),
        Af::Unspec => Some(Family::Any),
        Af::Other => None,
    }
}

pub fn family_of(af: Af) -> (r: Option<Family>)
    ensures
        r == family_in(af),
{
    match af {
        Af::Inet => Some(Family::V4),
        Af::Inet6 => Some(Family::V6),
        Af::Unspec => Some(Family::Any),
        Af::Other => None,
    }
}

/// What a call does first.
#[derive(Debug)]
pub enum Start<T> {
    /// It fails.
    Fail(Failure),
    /// It needs no resolver.
    Local(T),
    /// It asks the resolver.
    Ask(Request),
}

pub enum StartView<V> {
    Fail(Failure),
    Local(V),
    Ask(Ask),
}

impl<T: View> View for Start<T> {
    type V = StartView<T::V>;

    open spec fn view(&self) -> StartView<T::V> {
        match self {
            Start::Fail(f) => StartView::Fail(*f),
            Start::Local(v) => StartView::Local(v@),
            Start::Ask(r) => StartView::Ask(r@),
        }
    }
}

/// The addresses of a name: known here, or asked for.
pub open spec fn addresses_start(name: Seq<char>, family: Family) -> StartView<AddressesView> {
    if names_localhost(encode_utf8(name)) {
        StartView::Local(local_out(family))
    } else {
        StartView::Ask(Ask::Lookup { name, family })
    }
}

pub open spec fn opt_str(s: Option<&str>) -> Option<Seq<char>> {
    match s {
        Some(s) => Some(s@),
        None => None,
    }
}

/// A question for the addresses of both families; a name that is no text is
/// not found.
pub open spec fn any_start(name: Option<Seq<char>>) -> StartView<AddressesView> {
    match name {
        None => StartView::Fail(host_not_found()),
        Some(name) => addresses_start(name, Family::Any),
    }
}

/// A question for the addresses of one family.
pub open spec fn one_start(name: Option<Seq<char>>, af: Af) -> StartView<AddressesView> {
    match name {
        None => StartView::Fail(host_not_found()),
        Some(name) => match family_in(af) {
            Some(Family::V4) => addresses_start(name, Family::V4),
            Some(Family::V6) => addresses_start(name, Family::V6),
            _ => StartView::Fail(
                Failure { status: NssStatus::Unavail, errno: Errno::FamilyNotSupported, h_errno: NO_DATA },
            ),
        },
    }
}

fn ask_addresses(name: &str, family: Family) -> (r: Start<Addresses>)
    ensures
        r@ == addresses_start(name@, family),
{
    if is_localhost(name) {
        Start::Local(local_addresses(family))
    } else {
        Start::Ask(Request::Lookup { name: name.to_owned(), family })
    }
}

/// How a call for both families starts.
pub fn start_by_name(name: Option<&str>) -> (r: Start<Addresses>)
    ensures
        r@ == any_start(opt_str(name)),
{
    match name {
        None => Start::Fail(not_found()),
        Some(name) => ask_addresses(name, Family::Any),
    }
}

/// How a call for one family starts.
pub fn start_by_name_of(name: Option<&str>, af: Af) -> (r: Start<Addresses>)
    ensures
        r@ == one_start(opt_str(name), af),
{
    match name {
        None => Start::Fail(not_found()),
        Some(name) => match family_of(af) {
            Some(Family::V4) => ask_addresses(name, Family::V4),
            Some(Family::V6) => ask_addresses(name, Family::V6),
            _ => Start::Fail(
                Failure { status: NssStatus::Unavail, errno: Errno::FamilyNotSupported, h_errno: NO_DATA },
            ),
        },
    }
}

/// Whether an address is of a family.
pub open spec fn of_family(a: Seq<u8>, family: Family) -> bool {
    match family {
        Family::Any => true,
        Family::V4 => a.len() == 4,
        Family::V6 => a.len() == 16,
    }
}

pub open spec fn addresses_of(a: Seq<AddressOutView>, family: Family) -> Seq<AddressOutView>
    decreases a.len(),
{
    if a.len() == 0 {
        Seq::empty()
    } else if of_family(a.last().address, family) {
        addresses_of(a.drop_last(), family).push(a.last())
    } else {
        addresses_of(a.drop_last(), family)
    }
}

/// What the resolver had, of a family; a name with no address of it is there
/// all the same.
pub open spec fn addresses_got(got: Got<AddressesView>, family: Family) -> Got<AddressesView> {
    match got {
        Got::Value(a) => {
            let addresses = addresses_of(a.addresses, family);
            if addresses.len() == 0 {
                Got::NoData
            } else {
                Got::Value(AddressesView { addresses, ..a })
            }
        },
        _ => got,
    }
}

fn keep_family(addresses: &Vec<AddressOut>, family: Family) -> (r: Vec<AddressOut>)
    ensures
        views(r@) == addresses_of(views(addresses@), family),
{
    let ghost all = views(addresses@);
    let mut out: Vec<AddressOut> = Vec::new();
    let mut i: usize = 0;
    assert(views(out@) =~= addresses_of(all.take(0), family));
    while i < addresses.len()
        invariant
            i <= addresses@.len(),
            all == views(addresses@),
            views(out@) == addresses_of(all.take(i as int), family),
        decreases addresses@.len() - i,
    {
        assert(all.take(i + 1).drop_last() =~= all.take(i as int));
        assert(all[i as int] == addresses@[i as int]@);
        let address = addresses[i].address;
        proof {
            address.lemma_len();
        }
        let kept: bool = match family {
            Family::Any => true,
            Family::V4 => address.is_ipv4(),
            Family::V6 => !address.is_ipv4(),
        };
        if kept {
            let ghost before = views(out@);
            let one = AddressOut { address, ttl: addresses[i].ttl };
            let ghost view = one@;
            out.push(one);
            assert(views(out@) =~= before.push(view));
        }
        i += 1;
    }
    assert(all.take(i as int) =~= all);
    out
}

/// How a call for addresses goes on when the resolver was asked.
pub fn resolve_addresses(called: Called, family: Family) -> (r: Got<Addresses>)
    ensures
        r@ == addresses_got(lookup_got(called_view(called)), family),
{
    match lookup(called) {
        Got::Value(a) => {
            let addresses = keep_family(&a.addresses, family);
            assert(views(addresses@).len() == addresses@.len());
            if addresses.len() == 0 {
                return Got::NoData;
            }
            Got::Value(
                Addresses {
                    outcome: a.outcome,
                    canonical: a.canonical,
                    addresses,
                    source: a.source,
                    validation: a.validation,
                },
            )
        },
        other => other,
    }
}

// Questions by address.

/// The record of a loopback address.
pub open spec fn localhost_answer() -> AnswerView {
    AnswerView {
        outcome: Outcome::Found,
        records: seq![RecordOutView { rtype: 12, text: "localhost"@, ..no_record() }],
        ..no_answer()
    }
}

/// A question for the names of an address.
pub open spec fn address_start(addr: Option<Seq<u8>>, af: Af) -> StartView<AnswerView> {
    match addr {
        None => StartView::Fail(host_not_found()),
        Some(a) => if (af == Af::Inet && a.len() == 4) || (af == Af::Inet6 && a.len() == 16) {
            if is_loopback(a) {
                StartView::Local(localhost_answer())
            } else {
                StartView::Ask(Ask::Reverse { address: a })
            }
        } else {
            StartView::Fail(
                Failure { status: NssStatus::Unavail, errno: Errno::FamilyNotSupported, h_errno: NO_RECOVERY },
            )
        },
    }
}

pub open spec fn opt_slice(s: Option<&[u8]>) -> Option<Seq<u8>> {
    match s {
        Some(s) => Some(s@),
        None => None,
    }
}

fn local_answer() -> (r: Answer)
    ensures
        r@ == localhost_answer(),
{
    let mut record = RecordOut::default();
    record.rtype = 12;
    record.text = "localhost".to_owned();
    let ghost one = record@;
    let mut answer = Answer::default();
    answer.outcome = Outcome::Found;
    answer.records.push(record);
    assert(views(answer.records@) =~= seq![one]);
    answer
}

/// How a call for the names of an address starts.
pub fn start_by_address(addr: Option<&[u8]>, af: Af) -> (r: Start<Answer>)
    ensures
        r@ == address_start(opt_slice(addr), af),
{
    let bytes = match addr {
        None => return Start::Fail(not_found()),
        Some(b) => b,
    };
    let address = match af {
        Af::Inet if bytes.len() == 4 => IpAddr::V4(Ipv4Addr::from_slice(bytes)),
        Af::Inet6 if bytes.len() == 16 => IpAddr::V6(Ipv6Addr::from_slice(bytes)),
        _ => {
            return Start::Fail(
                Failure { status: NssStatus::Unavail, errno: Errno::FamilyNotSupported, h_errno: NO_RECOVERY },
            );
        },
    };
    if address.is_loopback() {
        Start::Local(local_answer())
    } else {
        Start::Ask(Request::Reverse { address })
    }
}

// Structures.

/// Where the parts of a host's structure are, and what is written for it.
#[derive(Debug)]
pub struct Hostent {
    pub name: usize,
    pub aliases: usize,
    pub addr_list: usize,
    pub puts: Vec<Put>,
    pub ttl: u32,
}

#[verifier::ext_equal]
pub struct HostentView {
    pub name: nat,
    pub aliases: nat,
    pub addr_list: nat,
    pub puts: Puts,
    pub ttl: u32,
}

impl View for Hostent {
    type V = HostentView;

    open spec fn view(&self) -> HostentView {
        HostentView {
            name: self.name as nat,
            aliases: self.aliases as nat,
            addr_list: self.addr_list as nat,
            puts: puts_view(self.puts@),
            ttl: self.ttl,
        }
    }
}

pub open spec fn hostent_view(r: Result<Hostent, Failure>) -> Result<HostentView, Failure> {
    match r {
        Ok(h) => Ok(h@),
        Err(f) => Err(f),
    }
}

/// The least of the times, or 0 where there is none.
pub open spec fn least(t: Seq<u32>) -> u32
    decreases t.len(),
{
    if t.len() == 0 {
        0
    } else if t.len() == 1 {
        t[0]
    } else if t.last() < least(t.drop_last()) {
        t.last()
    } else {
        least(t.drop_last())
    }
}

pub open spec fn address_ttls(a: Seq<AddressOutView>) -> Seq<u32> {
    Seq::new(a.len(), |i: int| a[i].ttl)
}

pub open spec fn record_ttls(r: Seq<RecordOutView>) -> Seq<u32> {
    Seq::new(r.len(), |i: int| r[i].ttl)
}

pub open spec fn octets_of(a: Seq<AddressOutView>) -> Seq<Seq<u8>> {
    Seq::new(a.len(), |i: int| a[i].address)
}

fn least_of(t: &Vec<u32>) -> (r: u32)
    ensures
        r == least(t@),
{
    let mut r: u32 = 0;
    let mut i: usize = 0;
    while i < t.len()
        invariant
            i <= t@.len(),
            r == least(t@.take(i as int)),
        decreases t@.len() - i,
    {
        assert(t@.take(i + 1).drop_last() =~= t@.take(i as int));
        if i == 0 || t[i] < r {
            r = t[i];
        }
        i += 1;
    }
    assert(t@.take(i as int) =~= t@);
    r
}

/// The alignment of an address in a buffer.
pub const ADDRESS_ALIGN: usize = 4;

/// Addresses, each with a pointer to it from a list.
pub open spec fn with_addresses(p: PackerView, list: nat, a: Seq<Seq<u8>>, pointer: nat) -> Option<PackerView>
    decreases a.len(),
{
    if a.len() == 0 {
        Some(p)
    } else {
        match with_addresses(p, list, a.drop_last(), pointer) {
            None => None,
            Some(q) => match with_bytes(q, a.last(), ADDRESS_ALIGN as nat) {
                None => None,
                Some((q, at)) => Some(pointed(q, list + (a.len() - 1) as nat * pointer, at)),
            },
        }
    }
}

/// Strings, each with a pointer to it from a list.
pub open spec fn with_aliases(p: PackerView, list: nat, names: Seq<Seq<u8>>, pointer: nat) -> Option<PackerView>
    decreases names.len(),
{
    if names.len() == 0 {
        Some(p)
    } else {
        match with_aliases(p, list, names.drop_last(), pointer) {
            None => None,
            Some(q) => match with_string(q, names.last()) {
                None => None,
                Some((q, at)) => Some(pointed(q, list + (names.len() - 1) as nat * pointer, at)),
            },
        }
    }
}

pub open spec fn empty_buffer(len: usize) -> PackerView {
    PackerView { len: len as nat, used: 0, puts: Seq::empty() }
}

/// A host with a name, no aliases, and addresses.
pub open spec fn hostent_of(a: AddressesView, len: usize, pointer: usize) -> Option<HostentView> {
    match with_string(empty_buffer(len), encode_utf8(a.canonical)) {
        None => None,
        Some((p, name)) => match with_pointers(p, 1, pointer as nat) {
            None => None,
            Some((p, aliases)) => match with_pointers(p, a.addresses.len() + 1, pointer as nat) {
                None => None,
                Some((p, addr_list)) => match with_addresses(p, addr_list, octets_of(a.addresses), pointer as nat) {
                    None => None,
                    Some(p) => Some(
                        HostentView { name, aliases, addr_list, puts: p.puts, ttl: least(address_ttls(a.addresses)) },
                    ),
                },
            },
        },
    }
}

proof fn lemma_no_addresses(p: PackerView, list: nat, a: Seq<Seq<u8>>, k: int, pointer: nat)
    requires
        0 <= k <= a.len(),
        with_addresses(p, list, a.take(k), pointer) is None,
    ensures
        with_addresses(p, list, a, pointer) is None,
    decreases a.len() - k,
{
    if k < a.len() {
        assert(a.take(k + 1).drop_last() =~= a.take(k));
        lemma_no_addresses(p, list, a, k + 1, pointer);
    } else {
        assert(a.take(k) =~= a);
    }
}

proof fn lemma_no_aliases(p: PackerView, list: nat, a: Seq<Seq<u8>>, k: int, pointer: nat)
    requires
        0 <= k <= a.len(),
        with_aliases(p, list, a.take(k), pointer) is None,
    ensures
        with_aliases(p, list, a, pointer) is None,
    decreases a.len() - k,
{
    if k < a.len() {
        assert(a.take(k + 1).drop_last() =~= a.take(k));
        lemma_no_aliases(p, list, a, k + 1, pointer);
    } else {
        assert(a.take(k) =~= a);
    }
}

fn pack_addresses(packer: &mut Packer, list: usize, a: &Vec<Vec<u8>>, pointer: usize) -> (r: bool)
    requires
        list + a@.len() * pointer <= isize::MAX,
        pointer > 0,
    ensures
        match with_addresses(old(packer)@, list as nat, strings(a@), pointer as nat) {
            Some(p) => r && final(packer)@ == p,
            None => !r,
        },
{
    let ghost all = strings(a@);
    let ghost start = packer@;
    let mut slot: usize = list;
    let mut i: usize = 0;
    assert(all.take(0) =~= Seq::empty());
    while i < a.len()
        invariant
            i <= a@.len(),
            all == strings(a@),
            start == old(packer)@,
            slot == list + i * pointer,
            list + a@.len() * pointer <= isize::MAX,
            with_addresses(start, list as nat, all.take(i as int), pointer as nat) == Some(packer@),
        decreases a@.len() - i,
    {
        assert(all.take(i + 1).drop_last() =~= all.take(i as int));
        assert(all[i as int] == a@[i as int]@);
        assert(i * pointer + pointer == (i + 1) * pointer && (i + 1) * pointer <= a@.len() * pointer) by (nonlinear_arith)
            requires
                i < a@.len(),
        ;
        match packer.bytes(a[i].as_slice(), ADDRESS_ALIGN) {
            None => {
                proof {
                    lemma_no_addresses(start, list as nat, all, i + 1, pointer as nat);
                }
                return false;
            },
            Some(at) => packer.point(slot, at),
        }
        slot += pointer;
        i += 1;
    }
    assert(all.take(i as int) =~= all);
    true
}

fn pack_aliases(packer: &mut Packer, list: usize, a: &Vec<Vec<u8>>, pointer: usize) -> (r: bool)
    requires
        list + a@.len() * pointer <= isize::MAX,
        pointer > 0,
    ensures
        match with_aliases(old(packer)@, list as nat, strings(a@), pointer as nat) {
            Some(p) => r && final(packer)@ == p,
            None => !r,
        },
{
    let ghost all = strings(a@);
    let ghost start = packer@;
    let mut slot: usize = list;
    let mut i: usize = 0;
    assert(all.take(0) =~= Seq::empty());
    while i < a.len()
        invariant
            i <= a@.len(),
            all == strings(a@),
            start == old(packer)@,
            slot == list + i * pointer,
            list + a@.len() * pointer <= isize::MAX,
            with_aliases(start, list as nat, all.take(i as int), pointer as nat) == Some(packer@),
        decreases a@.len() - i,
    {
        assert(all.take(i + 1).drop_last() =~= all.take(i as int));
        assert(all[i as int] == a@[i as int]@);
        assert(i * pointer + pointer == (i + 1) * pointer && (i + 1) * pointer <= a@.len() * pointer) by (nonlinear_arith)
            requires
                i < a@.len(),
        ;
        match packer.str(a[i].as_slice()) {
            None => {
                proof {
                    lemma_no_aliases(start, list as nat, all, i + 1, pointer as nat);
                }
                return false;
            },
            Some(at) => packer.point(slot, at),
        }
        slot += pointer;
        i += 1;
    }
    assert(all.take(i as int) =~= all);
    true
}

fn address_octets(a: &Vec<AddressOut>) -> (r: (Vec<Vec<u8>>, Vec<u32>))
    ensures
        strings(r.0@) == octets_of(views(a@)),
        r.1@ == address_ttls(views(a@)),
{
    let mut out: Vec<Vec<u8>> = Vec::new();
    let mut ttls: Vec<u32> = Vec::new();
    let mut i: usize = 0;
    while i < a.len()
        invariant
            i <= a@.len(),
            out@.len() == i,
            ttls@.len() == i,
            forall|j: int| 0 <= j < i ==> (#[trigger] out@[j])@ == a@[j].address@,
            forall|j: int| 0 <= j < i ==> #[trigger] ttls@[j] == a@[j].ttl,
        decreases a@.len() - i,
    {
        out.push(a[i].address.to_octets());
        ttls.push(a[i].ttl);
        i += 1;
    }
    assert(strings(out@) =~= octets_of(views(a@)));
    assert(ttls@ =~= address_ttls(views(a@)));
    (out, ttls)
}

/// Lay out the structure of a host with addresses of one family.
pub fn render_hostent(a: &Addresses, len: usize, pointer: usize) -> (r: Result<Hostent, Failure>)
    requires
        len <= isize::MAX,
        0 < pointer <= isize::MAX,
    ensures
        hostent_view(r) == (match hostent_of(a@, len, pointer) {
            Some(h) => Ok(h),
            None => Err(no_room()),
        }),
{
    let (octets, ttls) = address_octets(&a.addresses);
    let mut packer = Packer::new(len);
    let name = match packer.str(a.canonical.as_str().as_bytes()) {
        None => return Err(out_of_room()),
        Some(at) => at,
    };
    let aliases = match packer.pointers(1, pointer) {
        None => return Err(out_of_room()),
        Some(at) => at,
    };
    let count: usize = a.addresses.len();
    if count == usize::MAX {
        assert((count + 2) * pointer > isize::MAX) by (nonlinear_arith)
            requires
                pointer > 0,
                count == usize::MAX,
        ;
        return Err(out_of_room());
    }
    let addr_list = match packer.pointers(count + 1, pointer) {
        None => return Err(out_of_room()),
        Some(at) => at,
    };
    assert(octets@.len() == strings(octets@).len());
    assert(count * pointer <= (count + 1 + 1) * pointer) by (nonlinear_arith)
        requires
            pointer > 0,
    ;
    if !pack_addresses(&mut packer, addr_list, &octets, pointer) {
        return Err(out_of_room());
    }
    Ok(Hostent { name, aliases, addr_list, puts: packer.into_puts(), ttl: least_of(&ttls) })
}

/// Where a list of addresses starts, and what is written for it.
#[derive(Debug)]
pub struct Tuples {
    pub first: Option<usize>,
    pub puts: Vec<Put>,
    pub ttl: u32,
}

#[verifier::ext_equal]
pub struct TuplesView {
    pub first: Option<nat>,
    pub puts: Puts,
    pub ttl: u32,
}

impl View for Tuples {
    type V = TuplesView;

    open spec fn view(&self) -> TuplesView {
        TuplesView { first: opt_place(self.first), puts: puts_view(self.puts@), ttl: self.ttl }
    }
}

pub open spec fn tuples_view(r: Result<Tuples, Failure>) -> Result<TuplesView, Failure> {
    match r {
        Ok(t) => Ok(t@),
        Err(f) => Err(f),
    }
}

/// Addresses of either family in a list, under the one name.
pub open spec fn tuples_of(a: AddressesView, len: usize, shape: Shape) -> Option<TuplesView> {
    match with_string(empty_buffer(len), encode_utf8(a.canonical)) {
        None => None,
        Some((p, name)) => match with_tuples(p, name, octets_of(a.addresses), shape) {
            None => None,
            Some((p, first)) => Some(TuplesView { first, puts: p.puts, ttl: least(address_ttls(a.addresses)) }),
        },
    }
}

/// Lay out a list of addresses.
pub fn render_tuples(a: &Addresses, len: usize, shape: Shape) -> (r: Result<Tuples, Failure>)
    requires
        len <= isize::MAX,
        0 < shape.tuple_align <= isize::MAX,
    ensures
        tuples_view(r) == (match tuples_of(a@, len, shape) {
            Some(t) => Ok(t),
            None => Err(no_room()),
        }),
{
    let (octets, ttls) = address_octets(&a.addresses);
    let mut packer = Packer::new(len);
    let name = match packer.str(a.canonical.as_str().as_bytes()) {
        None => return Err(out_of_room()),
        Some(at) => at,
    };
    match packer.tuples(name, &octets, shape) {
        None => Err(out_of_room()),
        Some(first) => Ok(Tuples { first, puts: packer.into_puts(), ttl: least_of(&ttls) }),
    }
}

/// The names among records of a reverse answer, without dots at their ends.
pub open spec fn pointer_names(r: Seq<RecordOutView>) -> Seq<Seq<u8>>
    decreases r.len(),
{
    if r.len() == 0 {
        Seq::empty()
    } else if r.last().rtype == 12 {
        pointer_names(r.drop_last()).push(undotted(encode_utf8(r.last().text)))
    } else {
        pointer_names(r.drop_last())
    }
}

fn names_in(r: &Vec<RecordOut>) -> (names: Vec<Vec<u8>>)
    ensures
        strings(names@) == pointer_names(views(r@)),
{
    let ghost all = views(r@);
    let mut out: Vec<Vec<u8>> = Vec::new();
    let mut i: usize = 0;
    assert(strings(out@) =~= pointer_names(all.take(0)));
    while i < r.len()
        invariant
            i <= r@.len(),
            all == views(r@),
            strings(out@) == pointer_names(all.take(i as int)),
        decreases r@.len() - i,
    {
        assert(all.take(i + 1).drop_last() =~= all.take(i as int));
        assert(all[i as int] == r@[i as int]@);
        if r[i].rtype == 12 {
            let b = r[i].text.as_str().as_bytes();
            let name = octets::copy_range(b, 0, length_undotted(b));
            assert(name@ =~= undotted(b@));
            let ghost before = strings(out@);
            let ghost one = name@;
            out.push(name);
            assert(strings(out@) =~= before.push(one));
        }
        i += 1;
    }
    assert(all.take(i as int) =~= all);
    out
}

fn ttls_in(r: &Vec<RecordOut>) -> (ttls: Vec<u32>)
    ensures
        ttls@ == record_ttls(views(r@)),
{
    let mut out: Vec<u32> = Vec::new();
    let mut i: usize = 0;
    while i < r.len()
        invariant
            i <= r@.len(),
            out@.len() == i,
            forall|j: int| 0 <= j < i ==> #[trigger] out@[j] == r@[j].ttl,
        decreases r@.len() - i,
    {
        out.push(r[i].ttl);
        i += 1;
    }
    assert(out@ =~= record_ttls(views(r@)));
    out
}

/// A host with the names of an answer, the first being its own, and the
/// address that was asked about.
pub open spec fn named_hostent(a: AnswerView, address: Seq<u8>, len: usize, pointer: usize) -> Result<
    HostentView,
    Failure,
> {
    let names = pointer_names(a.records);
    if names.len() == 0 {
        Err(host_not_found())
    } else {
        match named_layout(names, address, len, pointer) {
            Some((name, aliases, addr_list, puts)) => Ok(
                HostentView { name, aliases, addr_list, puts, ttl: least(record_ttls(a.records)) },
            ),
            None => Err(no_room()),
        }
    }
}

pub open spec fn named_layout(names: Seq<Seq<u8>>, address: Seq<u8>, len: usize, pointer: usize) -> Option<
    (nat, nat, nat, Puts),
> {
    match with_string(empty_buffer(len), names[0]) {
        None => None,
        Some((p, name)) => match with_pointers(p, names.len(), pointer as nat) {
            None => None,
            Some((p, aliases)) => match with_aliases(p, aliases, names.skip(1), pointer as nat) {
                None => None,
                Some(p) => match with_pointers(p, 2, pointer as nat) {
                    None => None,
                    Some((p, addr_list)) => match with_bytes(p, address, ADDRESS_ALIGN as nat) {
                        None => None,
                        Some((p, at)) => Some((name, aliases, addr_list, pointed(p, addr_list, at).puts)),
                    },
                },
            },
        },
    }
}

/// Lay out the structure of the host that an address is.
pub fn render_named(a: &Answer, address: &[u8], len: usize, pointer: usize) -> (r: Result<Hostent, Failure>)
    requires
        len <= isize::MAX,
        0 < pointer <= isize::MAX,
    ensures
        hostent_view(r) == named_hostent(a@, address@, len, pointer),
{
    let mut names = names_in(&a.records);
    let ghost all = strings(names@);
    assert(names@.len() == all.len());
    if names.len() == 0 {
        return Err(not_found());
    }
    let count: usize = names.len();
    let first = names.remove(0);
    assert(first@ == all[0]);
    assert(strings(names@) =~= all.skip(1));
    let mut packer = Packer::new(len);
    let name = match packer.str(first.as_slice()) {
        None => return Err(out_of_room()),
        Some(at) => at,
    };
    let aliases = match packer.pointers(count, pointer) {
        None => return Err(out_of_room()),
        Some(at) => at,
    };
    assert((count - 1) * pointer <= (count + 1) * pointer) by (nonlinear_arith)
        requires
            pointer > 0,
    ;
    if !pack_aliases(&mut packer, aliases, &names, pointer) {
        return Err(out_of_room());
    }
    let addr_list = match packer.pointers(2, pointer) {
        None => return Err(out_of_room()),
        Some(at) => at,
    };
    match packer.bytes(address, ADDRESS_ALIGN) {
        None => return Err(out_of_room()),
        Some(at) => packer.point(addr_list, at),
    }
    Ok(Hostent { name, aliases, addr_list, puts: packer.into_puts(), ttl: least_of(&ttls_in(&a.records)) })
}

} // verus!

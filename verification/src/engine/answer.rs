//! Answers, and how they are made out of records.
use crate::addr::{is_loopback, localhost_v4, localhost_v6, IpAddr, Ipv4Addr, Ipv6Addr};
use crate::dns::class;
use crate::dns::name::{ends_with, reverse_address, same_name, Labels};
use crate::dns::record::{record_in, records_view, RDataView, RecordView};
use crate::dns::rtype;
use crate::dns::{Name, RData, Record};
use crate::engine::scope::{machine_addresses, own_addresses, Scope, ScopeView};
use crate::protocol::{views, Outcome};
use crate::text::opt_text;
use vstd::prelude::*;

verus! {

/// Positive answers live at most this many seconds, whatever the TTL says.
pub const MAX_POSITIVE_TTL: u32 = 86_400;

/// Negative answers (RFC 2308) at most this many.
pub const MAX_NEGATIVE_TTL: u32 = 300;

/// Where an answer came from.
#[derive(Debug, Clone, Copy, PartialEq, Eq, Structural)]
pub enum Source {
    Local,
    Synthetic,
    Hosts,
    Cache,
    Dns,
}

impl Default for Source {
    fn default() -> (r: Source)
        ensures
            r == Source::Local,
    {
        Source::Local
    }
}

impl Source {
    pub open spec fn text(self) -> Seq<char> {
        match self {
            Source::Local => "local"@,
            Source::Synthetic => "synthetic"@,
            Source::Hosts => "hosts"@,
            Source::Cache => "cache"@,
            Source::Dns => "dns"@,
        }
    }

    pub fn as_str(self) -> (r: &'static str)
        ensures
            r@ == self.text(),
    {
        match self {
            Source::Local => "local",
            Source::Synthetic => "synthetic",
            Source::Hosts => "hosts",
            Source::Cache => "cache",
            Source::Dns => "dns",
        }
    }
}

/// An answer, in the engine's terms.
#[derive(Debug, PartialEq, Eq)]
pub struct Answer {
    pub outcome: Outcome,
    pub records: Vec<Record>,
    pub source: Source,
    pub server: Option<IpAddr>,
    pub interface: Option<String>,
    pub rcode: u16,
    /// The name the records are at, after search expansion.
    pub resolved_name: Option<Name>,
}

#[verifier::ext_equal]
pub struct AnswerView {
    pub outcome: Outcome,
    pub records: Seq<RecordView>,
    pub source: Source,
    pub server: Option<Seq<u8>>,
    pub interface: Option<Seq<char>>,
    pub rcode: u16,
    pub resolved_name: Option<Labels>,
}

pub open spec fn opt_view<T: View>(v: Option<T>) -> Option<T::V> {
    match v {
        Some(v) => Some(v@),
        None => None,
    }
}

impl View for Answer {
    type V = AnswerView;

    open spec fn view(&self) -> AnswerView {
        AnswerView {
            outcome: self.outcome,
            records: records_view(self.records@),
            source: self.source,
            server: opt_view(self.server),
            interface: opt_text(self.interface),
            rcode: self.rcode,
            resolved_name: opt_view(self.resolved_name),
        }
    }
}

/// An outcome and nothing more.
pub open spec fn bare(outcome: Outcome) -> AnswerView {
    AnswerView {
        outcome,
        records: Seq::empty(),
        source: Source::Local,
        server: None,
        interface: None,
        rcode: 0,
        resolved_name: None,
    }
}

impl Answer {
    pub fn bare(outcome: Outcome) -> (r: Answer)
        ensures
            r@ == bare(outcome),
    {
        let r = Answer {
            outcome,
            records: Vec::new(),
            source: Source::Local,
            server: None,
            interface: None,
            rcode: 0,
            resolved_name: None,
        };
        assert(r@ =~= bare(outcome));
        r
    }
}

impl Default for Answer {
    fn default() -> (r: Answer)
        ensures
            r@ == bare(Outcome::Unavailable),
    {
        Answer::bare(Outcome::Unavailable)
    }
}

impl Clone for Answer {
    fn clone(&self) -> (r: Answer)
        ensures
            r@ == self@,
    {
        Answer {
            outcome: self.outcome,
            records: crate::dns::record::copy_records(&self.records),
            source: self.source,
            server: self.server,
            interface: match &self.interface {
                Some(s) => Some(s.clone()),
                None => None,
            },
            rcode: self.rcode,
            resolved_name: match &self.resolved_name {
                Some(n) => Some(n.clone()),
                None => None,
            },
        }
    }
}

/// The addresses of a name: what a lookup returns.
#[derive(Debug, Clone, PartialEq, Eq)]
pub struct Addresses {
    pub outcome: Outcome,
    pub canonical: Name,
    pub addresses: Vec<(IpAddr, u32)>,
    pub source: Source,
}

#[verifier::ext_equal]
pub struct AddressesView {
    pub outcome: Outcome,
    pub canonical: Labels,
    pub addresses: Seq<(Seq<u8>, u32)>,
    pub source: Source,
}

pub open spec fn ttls_view(v: Seq<(IpAddr, u32)>) -> Seq<(Seq<u8>, u32)> {
    Seq::new(v.len(), |i: int| (v[i].0@, v[i].1))
}

impl View for Addresses {
    type V = AddressesView;

    open spec fn view(&self) -> AddressesView {
        AddressesView {
            outcome: self.outcome,
            canonical: self.canonical@,
            addresses: ttls_view(self.addresses@),
            source: self.source,
        }
    }
}

/// No addresses at a name.
pub open spec fn no_addresses(outcome: Outcome, canonical: Labels) -> AddressesView {
    AddressesView { outcome, canonical, addresses: Seq::empty(), source: Source::Local }
}

impl Addresses {
    pub fn none(outcome: Outcome, canonical: Name) -> (r: Addresses)
        ensures
            r@ == no_addresses(outcome, canonical@),
    {
        let r = Addresses { outcome, canonical, addresses: Vec::new(), source: Source::Local };
        assert(r@ =~= no_addresses(outcome, canonical@));
        r
    }
}

impl Default for Addresses {
    fn default() -> (r: Addresses)
        ensures
            r@ == no_addresses(Outcome::Unavailable, Seq::empty()),
    {
        Addresses::none(Outcome::Unavailable, Name::root())
    }
}

// Synthetic answers.

/// `localhost`
pub open spec fn localhost_name() -> Labels {
    seq![seq![0x6cu8, 0x6f, 0x63, 0x61, 0x6c, 0x68, 0x6f, 0x73, 0x74]]
}

/// `local`
pub open spec fn local_name() -> Labels {
    seq![seq![0x6cu8, 0x6f, 0x63, 0x61, 0x6c]]
}

fn localhost() -> (r: Name)
    ensures
        r@ == localhost_name(),
{
    let r = Name::single(&[0x6c, 0x6f, 0x63, 0x61, 0x6c, 0x68, 0x6f, 0x73, 0x74]);
    assert(r@[0] =~= localhost_name()[0]);
    assert(r@ =~= localhost_name());
    r
}

fn local() -> (r: Name)
    ensures
        r@ == local_name(),
{
    let r = Name::single(&[0x6c, 0x6f, 0x63, 0x61, 0x6c]);
    assert(r@[0] =~= local_name()[0]);
    assert(r@ =~= local_name());
    r
}

/// Whether records of a type are asked for by a question of another.
pub open spec fn asks_for(asked: u16, t: u16) -> bool {
    asked == t || asked == rtype::ANY
}

/// The records of addresses at a name that a question asks for.
pub open spec fn address_records(name: Labels, a: Seq<Seq<u8>>, asked: u16) -> Seq<RecordView>
    decreases a.len(),
{
    if a.len() == 0 {
        Seq::empty()
    } else {
        let before = address_records(name, a.drop_last(), asked);
        if a.last().len() == 4 && asks_for(asked, rtype::A) {
            before.push(record_in(name, 0, RDataView::A(a.last())))
        } else if a.last().len() == 16 && asks_for(asked, rtype::AAAA) {
            before.push(record_in(name, 0, RDataView::Aaaa(a.last())))
        } else {
            before
        }
    }
}

/// An answer of records at the name that was asked for.
pub open spec fn found(name: Labels, records: Seq<RecordView>, source: Source) -> AnswerView {
    AnswerView { records, source, resolved_name: Some(name), ..bare(Outcome::Found) }
}

/// Static names and their addresses.
pub type Hosts = Seq<(Labels, Seq<Seq<u8>>)>;

pub open spec fn hosts_view(h: Seq<(Name, Vec<IpAddr>)>) -> Hosts {
    Seq::new(h.len(), |i: int| (h[i].0@, views(h[i].1@)))
}

/// The addresses of a static name, from `i` on.
pub open spec fn host_from(h: Hosts, name: Labels, i: int) -> Option<Seq<Seq<u8>>>
    decreases h.len() - i,
{
    if i < 0 || i >= h.len() {
        None
    } else if same_name(h[i].0, name) {
        Some(h[i].1)
    } else {
        host_from(h, name, i + 1)
    }
}

/// The first static name with an address, from `i` on.
pub open spec fn host_with_from(h: Hosts, a: Seq<u8>, i: int) -> Option<Labels>
    decreases h.len() - i,
{
    if i < 0 || i >= h.len() {
        None
    } else if h[i].1.contains(a) {
        Some(h[i].0)
    } else {
        host_with_from(h, a, i + 1)
    }
}

/// Both loopback addresses.
pub open spec fn loopbacks() -> Seq<Seq<u8>> {
    seq![localhost_v4(), localhost_v6()]
}

/// The addresses of the machine's own name.
pub open spec fn hostname_addresses(s: Seq<ScopeView>) -> Seq<Seq<u8>> {
    if own_addresses(s).len() == 0 {
        loopbacks()
    } else {
        own_addresses(s)
    }
}

/// The name of an address that is known without asking anyone.
pub open spec fn synthetic_pointer(
    s: Seq<ScopeView>,
    hostname: Option<Labels>,
    hosts: Hosts,
    name: Labels,
    a: Seq<u8>,
) -> Option<AnswerView> {
    if is_loopback(a) {
        Some(found(name, seq![record_in(name, 0, RDataView::Ptr(localhost_name()))], Source::Synthetic))
    } else if let Some(host) = host_with_from(hosts, a, 0) {
        Some(found(name, seq![record_in(name, 0, RDataView::Ptr(host))], Source::Hosts))
    } else if hostname is Some && own_addresses(s).contains(a) {
        Some(found(name, seq![record_in(name, 0, RDataView::Ptr(hostname->0))], Source::Synthetic))
    } else {
        None
    }
}

/// Answered before any network: loopback, the machine's own name, static
/// hosts, reverse of both, and `.local` (never forwarded).
pub open spec fn synthetic(
    s: Seq<ScopeView>,
    hostname: Option<Labels>,
    hosts: Hosts,
    name: Labels,
    asked: u16,
) -> Option<AnswerView> {
    if ends_with(name, localhost_name()) {
        Some(found(name, address_records(name, loopbacks(), asked), Source::Synthetic))
    } else if let Some(a) = host_from(hosts, name, 0) {
        Some(found(name, address_records(name, a, asked), Source::Hosts))
    } else if hostname is Some && same_name(hostname->0, name) {
        Some(found(name, address_records(name, hostname_addresses(s), asked), Source::Synthetic))
    } else if ends_with(name, local_name()) {
        Some(AnswerView { source: Source::Synthetic, ..bare(Outcome::NotFound) })
    } else if let Some(a) = reverse_address(name) {
        if asks_for(asked, rtype::PTR) {
            synthetic_pointer(s, hostname, hosts, name, a)
        } else {
            None
        }
    } else {
        None
    }
}

fn found_answer(name: &Name, records: Vec<Record>, source: Source) -> (r: Answer)
    ensures
        r@ == found(name@, records_view(records@), source),
{
    Answer {
        outcome: Outcome::Found,
        records,
        source,
        server: None,
        interface: None,
        rcode: 0,
        resolved_name: Some(name.clone()),
    }
}

fn records_of(name: &Name, addresses: &Vec<IpAddr>, asked: u16) -> (r: Vec<Record>)
    ensures
        records_view(r@) == address_records(name@, views(addresses@), asked),
{
    let ghost a = views(addresses@);
    let mut out: Vec<Record> = Vec::new();
    let mut i: usize = 0;
    assert(records_view(out@) =~= address_records(name@, a.take(0), asked));
    while i < addresses.len()
        invariant
            i <= addresses@.len(),
            a == views(addresses@),
            records_view(out@) == address_records(name@, a.take(i as int), asked),
        decreases addresses@.len() - i,
    {
        assert(a.take(i + 1).drop_last() =~= a.take(i as int));
        assert(a[i as int] == addresses@[i as int]@);
        let ghost before = records_view(out@);
        proof {
            addresses@[i as int].lemma_len();
        }
        match addresses[i] {
            IpAddr::V4(v4) => {
                if asked == rtype::A || asked == rtype::ANY {
                    let record = Record::new(name.clone(), 0, RData::A(v4));
                    let ghost one = record@;
                    out.push(record);
                    assert(records_view(out@) =~= before.push(one));
                }
            },
            IpAddr::V6(v6) => {
                if asked == rtype::AAAA || asked == rtype::ANY {
                    let record = Record::new(name.clone(), 0, RData::Aaaa(v6));
                    let ghost one = record@;
                    out.push(record);
                    assert(records_view(out@) =~= before.push(one));
                }
            },
        }
        i += 1;
    }
    assert(a.take(i as int) =~= a);
    out
}

fn loopback_addresses() -> (r: Vec<IpAddr>)
    ensures
        views(r@) == loopbacks(),
{
    let mut v: Vec<IpAddr> = Vec::new();
    v.push(IpAddr::V4(Ipv4Addr::localhost()));
    v.push(IpAddr::V6(Ipv6Addr::localhost()));
    assert(views(v@) =~= loopbacks());
    v
}

pub(crate) fn contains_address(v: &Vec<IpAddr>, a: &IpAddr) -> (r: bool)
    ensures
        r == views(v@).contains(a@),
{
    let mut i: usize = 0;
    while i < v.len()
        invariant
            i <= v@.len(),
            forall|j: int| 0 <= j < i ==> #[trigger] views(v@)[j] != a@,
        decreases v@.len() - i,
    {
        assert(views(v@)[i as int] == v@[i as int]@);
        if v[i].same(a) {
            return true;
        }
        i += 1;
    }
    false
}

fn pointer(name: &Name, target: Name, source: Source) -> (r: Answer)
    ensures
        r@ == found(name@, seq![record_in(name@, 0, RDataView::Ptr(target@))], source),
{
    let mut records: Vec<Record> = Vec::new();
    records.push(Record::new(name.clone(), 0, RData::Ptr(target)));
    assert(records_view(records@) =~= seq![record_in(name@, 0, RDataView::Ptr(target@))]);
    found_answer(name, records, source)
}

pub(crate) fn host_addresses(hosts: &Vec<(Name, Vec<IpAddr>)>, name: &Name) -> (r: Option<usize>)
    ensures
        match r {
            Some(i) => i < hosts@.len() && host_from(hosts_view(hosts@), name@, 0) == Some(views(hosts@[i as int].1@)),
            None => host_from(hosts_view(hosts@), name@, 0) is None,
        },
{
    let ghost h = hosts_view(hosts@);
    let mut i: usize = 0;
    while i < hosts.len()
        invariant
            i <= hosts@.len(),
            h == hosts_view(hosts@),
            host_from(h, name@, 0) == host_from(h, name@, i as int),
        decreases hosts@.len() - i,
    {
        assert(h[i as int] == (hosts@[i as int].0@, views(hosts@[i as int].1@)));
        if hosts[i].0 == *name {
            return Some(i);
        }
        i += 1;
    }
    None
}

fn host_with(hosts: &Vec<(Name, Vec<IpAddr>)>, a: &IpAddr) -> (r: Option<Name>)
    ensures
        opt_view(r) == host_with_from(hosts_view(hosts@), a@, 0),
{
    let ghost h = hosts_view(hosts@);
    let mut i: usize = 0;
    while i < hosts.len()
        invariant
            i <= hosts@.len(),
            h == hosts_view(hosts@),
            host_with_from(h, a@, 0) == host_with_from(h, a@, i as int),
        decreases hosts@.len() - i,
    {
        assert(h[i as int] == (hosts@[i as int].0@, views(hosts@[i as int].1@)));
        if contains_address(&hosts[i].1, a) {
            return Some(hosts[i].0.clone());
        }
        i += 1;
    }
    None
}

pub(crate) fn synthetic_answer(
    scopes: &Vec<Scope>,
    hostname: &Option<Name>,
    hosts: &Vec<(Name, Vec<IpAddr>)>,
    name: &Name,
    asked: u16,
) -> (r: Option<Answer>)
    ensures
        opt_view(r) == synthetic(views(scopes@), opt_view(*hostname), hosts_view(hosts@), name@, asked),
{
    if name.ends_with(&localhost()) {
        return Some(found_answer(name, records_of(name, &loopback_addresses(), asked), Source::Synthetic));
    }
    if let Some(i) = host_addresses(hosts, name) {
        return Some(found_answer(name, records_of(name, &hosts[i].1, asked), Source::Hosts));
    }
    if let Some(h) = hostname {
        if *h == *name {
            let own = machine_addresses(scopes);
            let addresses = if own.len() == 0 {
                loopback_addresses()
            } else {
                own
            };
            return Some(found_answer(name, records_of(name, &addresses, asked), Source::Synthetic));
        }
    }
    if name.ends_with(&local()) {
        let mut answer = Answer::bare(Outcome::NotFound);
        answer.source = Source::Synthetic;
        return Some(answer);
    }
    if let Some(a) = name.reverse_address() {
        if asked != rtype::PTR && asked != rtype::ANY {
            return None;
        }
        if a.is_loopback() {
            return Some(pointer(name, localhost(), Source::Synthetic));
        }
        if let Some(host) = host_with(hosts, &a) {
            return Some(pointer(name, host, Source::Hosts));
        }
        if let Some(h) = hostname {
            if contains_address(&machine_addresses(scopes), &a) {
                return Some(pointer(name, h.clone(), Source::Synthetic));
            }
        }
    }
    None
}

// Answers out of messages.

/// RFC 2308: the negative TTL is the SOA's minimum field, bounded by its own
/// TTL; that of the first SOA record from `i` on.
pub open spec fn soa_ttl_from(r: Seq<RecordView>, i: int) -> u32
    decreases r.len() - i,
{
    if i < 0 || i >= r.len() {
        0
    } else if let RDataView::Soa { minimum, .. } = r[i].rdata {
        if minimum < r[i].ttl {
            minimum
        } else {
            r[i].ttl
        }
    } else {
        soa_ttl_from(r, i + 1)
    }
}

pub open spec fn negative_ttl(authority: Seq<RecordView>) -> u32 {
    if soa_ttl_from(authority, 0) < MAX_NEGATIVE_TTL {
        soa_ttl_from(authority, 0)
    } else {
        MAX_NEGATIVE_TTL
    }
}

pub(crate) fn negative_seconds(authority: &Vec<Record>) -> (r: u32)
    ensures
        r == negative_ttl(records_view(authority@)),
{
    let ghost a = records_view(authority@);
    let mut i: usize = 0;
    while i < authority.len()
        invariant
            i <= authority@.len(),
            a == records_view(authority@),
            soa_ttl_from(a, 0) == soa_ttl_from(a, i as int),
        decreases authority@.len() - i,
    {
        assert(a[i as int] == authority@[i as int]@);
        if let RData::Soa { minimum, .. } = &authority[i].rdata {
            let minimum: u32 = *minimum;
            let ttl: u32 = authority[i].ttl;
            let least: u32 = if minimum < ttl {
                minimum
            } else {
                ttl
            };
            return if least < MAX_NEGATIVE_TTL {
                least
            } else {
                MAX_NEGATIVE_TTL
            };
        }
        i += 1;
    }
    0
}

/// The records of class IN, those at `name` in the case of `name`: records
/// come back in the case that was sent, and the caller gets the case it used.
pub open spec fn recased(r: Seq<RecordView>, name: Labels) -> Seq<RecordView>
    decreases r.len(),
{
    if r.len() == 0 {
        Seq::empty()
    } else if r.last().class != class::IN {
        recased(r.drop_last(), name)
    } else if same_name(r.last().name, name) {
        recased(r.drop_last(), name).push(RecordView { name, ..r.last() })
    } else {
        recased(r.drop_last(), name).push(r.last())
    }
}

pub(crate) fn recase_records(records: &Vec<Record>, name: &Name) -> (r: Vec<Record>)
    ensures
        records_view(r@) == recased(records_view(records@), name@),
{
    let ghost all = records_view(records@);
    let mut out: Vec<Record> = Vec::new();
    let mut i: usize = 0;
    assert(records_view(out@) =~= recased(all.take(0), name@));
    while i < records.len()
        invariant
            i <= records@.len(),
            all == records_view(records@),
            records_view(out@) == recased(all.take(i as int), name@),
        decreases records@.len() - i,
    {
        assert(all.take(i + 1).drop_last() =~= all.take(i as int));
        assert(all[i as int] == records@[i as int]@);
        if records[i].class == class::IN {
            let ghost before = records_view(out@);
            let mut record = records[i].clone();
            if record.name == *name {
                record.name = name.clone();
            }
            let ghost one = record@;
            out.push(record);
            assert(records_view(out@) =~= before.push(one));
        }
        i += 1;
    }
    assert(all.take(i as int) =~= all);
    out
}

/// The least TTL of records, and no more than `limit`.
pub open spec fn least_ttl(r: Seq<RecordView>, limit: u32) -> u32
    decreases r.len(),
{
    if r.len() == 0 {
        limit
    } else if r.last().ttl < least_ttl(r.drop_last(), limit) {
        r.last().ttl
    } else {
        least_ttl(r.drop_last(), limit)
    }
}

pub(crate) fn least_seconds(records: &Vec<Record>, limit: u32) -> (r: u32)
    ensures
        r == least_ttl(records_view(records@), limit),
{
    let ghost all = records_view(records@);
    let mut least: u32 = limit;
    let mut i: usize = 0;
    while i < records.len()
        invariant
            i <= records@.len(),
            all == records_view(records@),
            least == least_ttl(all.take(i as int), limit),
        decreases records@.len() - i,
    {
        assert(all.take(i + 1).drop_last() =~= all.take(i as int));
        assert(all[i as int] == records@[i as int]@);
        if records[i].ttl < least {
            least = records[i].ttl;
        }
        i += 1;
    }
    assert(all.take(i as int) =~= all);
    least
}

// Addresses out of answers.

/// What the first alias at a name, from `i` on, leads to.
pub open spec fn alias_from(r: Seq<RecordView>, name: Labels, i: int) -> Option<Labels>
    decreases r.len() - i,
{
    if i < 0 || i >= r.len() {
        None
    } else if same_name(r[i].name, name) && r[i].rdata is Cname {
        Some(r[i].rdata->Cname_0)
    } else {
        alias_from(r, name, i + 1)
    }
}

/// Whether a record of a type is at a name.
pub open spec fn has_type(r: Seq<RecordView>, name: Labels, t: u16) -> bool {
    exists|i: int| 0 <= i < r.len() && same_name((#[trigger] r[i]).name, name) && r[i].rtype == t
}

/// Where the aliases from a name lead in at most `steps` steps, a name with
/// records of the type ending the chain.
pub open spec fn end_of_chain(r: Seq<RecordView>, name: Labels, t: u16, steps: nat) -> Labels
    decreases steps,
{
    if steps == 0 {
        name
    } else {
        match alias_from(r, name, 0) {
            Some(target) => if has_type(r, name, t) {
                name
            } else {
                end_of_chain(r, target, t, (steps - 1) as nat)
            },
            None => name,
        }
    }
}

/// The most aliases that are followed.
pub const MAX_ALIASES: usize = 16;

pub open spec fn canonical(r: Seq<RecordView>, name: Labels, t: u16) -> Labels {
    end_of_chain(r, name, t, MAX_ALIASES as nat)
}

/// The addresses of a type at a name.
pub open spec fn addresses_at(r: Seq<RecordView>, name: Labels, t: u16) -> Seq<(Seq<u8>, u32)>
    decreases r.len(),
{
    if r.len() == 0 {
        Seq::empty()
    } else {
        let before = addresses_at(r.drop_last(), name, t);
        let last = r.last();
        if !same_name(last.name, name) {
            before
        } else {
            match last.rdata {
                RDataView::A(a) => if t == rtype::A {
                    before.push((a, last.ttl))
                } else {
                    before
                },
                RDataView::Aaaa(a) => if t == rtype::AAAA {
                    before.push((a, last.ttl))
                } else {
                    before
                },
                _ => before,
            }
        }
    }
}

fn alias(records: &Vec<Record>, name: &Name) -> (r: Option<Name>)
    ensures
        opt_view(r) == alias_from(records_view(records@), name@, 0),
{
    let ghost all = records_view(records@);
    let mut i: usize = 0;
    while i < records.len()
        invariant
            i <= records@.len(),
            all == records_view(records@),
            alias_from(all, name@, 0) == alias_from(all, name@, i as int),
        decreases records@.len() - i,
    {
        assert(all[i as int] == records@[i as int]@);
        if records[i].name == *name {
            if let RData::Cname(target) = &records[i].rdata {
                return Some(target.clone());
            }
        }
        i += 1;
    }
    None
}

fn type_is_at(records: &Vec<Record>, name: &Name, t: u16) -> (r: bool)
    ensures
        r == has_type(records_view(records@), name@, t),
{
    let ghost all = records_view(records@);
    let mut i: usize = 0;
    while i < records.len()
        invariant
            i <= records@.len(),
            all == records_view(records@),
            forall|j: int| 0 <= j < i ==> !(same_name((#[trigger] all[j]).name, name@) && all[j].rtype == t),
        decreases records@.len() - i,
    {
        assert(all[i as int] == records@[i as int]@);
        if records[i].name == *name && records[i].rtype == t {
            return true;
        }
        i += 1;
    }
    false
}

/// Follow CNAMEs from `start` and collect the addresses at the end.
pub(crate) fn chase(records: &Vec<Record>, start: &Name, t: u16) -> (r: (Name, Vec<(IpAddr, u32)>))
    ensures
        r.0@ == canonical(records_view(records@), start@, t),
        ttls_view(r.1@) == addresses_at(
            records_view(records@),
            canonical(records_view(records@), start@, t),
            t,
        ),
{
    let ghost all = records_view(records@);
    let mut name = start.clone();
    let mut steps: usize = MAX_ALIASES;
    let mut more = true;
    while more && steps > 0
        invariant
            all == records_view(records@),
            more ==> canonical(all, start@, t) == end_of_chain(all, name@, t, steps as nat),
            !more ==> canonical(all, start@, t) == name@,
        decreases steps,
    {
        match alias(records, &name) {
            Some(target) => {
                if type_is_at(records, &name, t) {
                    more = false;
                } else {
                    name = target;
                }
            },
            None => {
                more = false;
            },
        }
        steps -= 1;
    }
    let mut addresses: Vec<(IpAddr, u32)> = Vec::new();
    let mut i: usize = 0;
    assert(ttls_view(addresses@) =~= addresses_at(all.take(0), name@, t));
    while i < records.len()
        invariant
            i <= records@.len(),
            all == records_view(records@),
            ttls_view(addresses@) == addresses_at(all.take(i as int), name@, t),
        decreases records@.len() - i,
    {
        assert(all.take(i + 1).drop_last() =~= all.take(i as int));
        assert(all[i as int] == records@[i as int]@);
        let ghost before = ttls_view(addresses@);
        if records[i].name == name {
            match &records[i].rdata {
                RData::A(a) => {
                    if t == rtype::A {
                        addresses.push((IpAddr::V4(*a), records[i].ttl));
                        assert(ttls_view(addresses@) =~= before.push((a@, records@[i as int].ttl)));
                    }
                },
                RData::Aaaa(a) => {
                    if t == rtype::AAAA {
                        addresses.push((IpAddr::V6(*a), records[i].ttl));
                        assert(ttls_view(addresses@) =~= before.push((a@, records@[i as int].ttl)));
                    }
                },
                _ => {},
            }
        }
        i += 1;
    }
    assert(all.take(i as int) =~= all);
    (name, addresses)
}

/// An outcome of each question of a lookup.
pub type Results = Seq<(u16, AnswerView)>;

pub open spec fn results_view(v: Seq<(u16, Answer)>) -> Results {
    Seq::new(v.len(), |i: int| (v[i].0, v[i].1@))
}

/// What the answers of a lookup come to.
pub struct Gathered {
    pub canonical: Labels,
    pub addresses: Seq<(Seq<u8>, u32)>,
    pub any_found: bool,
    pub any_unavailable: bool,
    pub source: Source,
}

pub open spec fn gathered(name: Labels, r: Results) -> Gathered
    decreases r.len(),
{
    if r.len() == 0 {
        Gathered {
            canonical: name,
            addresses: Seq::empty(),
            any_found: false,
            any_unavailable: false,
            source: Source::Local,
        }
    } else {
        let before = gathered(name, r.drop_last());
        let (t, answer) = r.last();
        match answer.outcome {
            Outcome::Found => {
                let start = answer.resolved_name.unwrap_or(name);
                let end = canonical(answer.records, start, t);
                let addresses = addresses_at(answer.records, end, t);
                Gathered {
                    canonical: if addresses.len() > 0 {
                        end
                    } else {
                        before.canonical
                    },
                    addresses: before.addresses + addresses,
                    any_found: true,
                    source: answer.source,
                    ..before
                }
            },
            Outcome::Unavailable => Gathered { any_unavailable: true, ..before },
            Outcome::NotFound => before,
        }
    }
}

/// A lookup's per-type answers as addresses plus a canonical name.
pub open spec fn combined(name: Labels, r: Results) -> AddressesView {
    let g = gathered(name, r);
    AddressesView {
        outcome: if g.any_found {
            Outcome::Found
        } else if g.any_unavailable {
            Outcome::Unavailable
        } else {
            Outcome::NotFound
        },
        canonical: g.canonical,
        addresses: g.addresses,
        source: g.source,
    }
}

pub(crate) fn combine(name: &Name, results: &Vec<(u16, Answer)>) -> (r: Addresses)
    ensures
        r@ == combined(name@, results_view(results@)),
{
    let ghost all = results_view(results@);
    let mut canonical_name = name.clone();
    let mut addresses: Vec<(IpAddr, u32)> = Vec::new();
    let mut any_found = false;
    let mut any_unavailable = false;
    let mut source = Source::Local;
    let mut i: usize = 0;
    assert(ttls_view(addresses@) =~= gathered(name@, all.take(0)).addresses);
    while i < results.len()
        invariant
            i <= results@.len(),
            all == results_view(results@),
            ({
                let g = gathered(name@, all.take(i as int));
                &&& canonical_name@ == g.canonical
                &&& ttls_view(addresses@) == g.addresses
                &&& any_found == g.any_found
                &&& any_unavailable == g.any_unavailable
                &&& source == g.source
            }),
        decreases results@.len() - i,
    {
        assert(all.take(i + 1).drop_last() =~= all.take(i as int));
        assert(all[i as int] == (results@[i as int].0, results@[i as int].1@));
        let answer = &results[i].1;
        match answer.outcome {
            Outcome::Found => {
                any_found = true;
                source = answer.source;
                let start = match &answer.resolved_name {
                    Some(n) => n.clone(),
                    None => name.clone(),
                };
                let (end, mut more): (Name, Vec<(IpAddr, u32)>) = chase(&answer.records, &start, results[i].0);
                let ghost before = ttls_view(addresses@);
                let ghost new = ttls_view(more@);
                if more.len() > 0 {
                    canonical_name = end;
                }
                addresses.append(&mut more);
                assert(ttls_view(addresses@) =~= before + new);
            },
            Outcome::Unavailable => {
                any_unavailable = true;
            },
            Outcome::NotFound => {},
        }
        i += 1;
    }
    assert(all.take(i as int) =~= all);
    Addresses {
        outcome: if any_found {
            Outcome::Found
        } else if any_unavailable {
            Outcome::Unavailable
        } else {
            Outcome::NotFound
        },
        canonical: canonical_name,
        addresses,
        source,
    }
}

} // verus!

//! Answers and the state of the resolver as the native wire has them.
use crate::addr::{ip_text, IpAddr};
use crate::dns::name::{name_text, Labels};
use crate::dns::record::{rdata_bytes, rdata_text, records_view, RecordView};
use crate::dns::{Name, Record};
use crate::engine::answer::{ttls_view, AddressesView, AnswerView};
use crate::engine::demotion::is_demoted;
use crate::engine::model::State;
use crate::engine::scope::{prefixes_view, ScopeView};
use crate::engine::{self, Engine, Scope};
use crate::engine::answer::contains_address;
use crate::protocol::{
    self, texts, views, AddressOut, AddressOutView, Addresses, Answer, Counters, RecordOut, RecordOutView, ScopeStatus,
    ScopeStatusView, StatusReport, StatusReportView, Validation,
};
use crate::text::{self, chars, dec};
use crate::time::Instant;
use vstd::prelude::*;

verus! {

// Answers.

/// One record as it is reported.
pub open spec fn record_out(r: RecordView) -> RecordOutView {
    RecordOutView {
        name: chars(name_text(r.name)),
        rtype: r.rtype,
        ttl: r.ttl,
        data: rdata_bytes(r.rdata),
        text: rdata_text(r.rdata),
    }
}

pub fn to_record(r: &Record) -> (out: RecordOut)
    ensures
        out@ == record_out(r@),
{
    RecordOut {
        name: r.name.to_text(),
        rtype: r.rtype,
        ttl: r.ttl,
        data: r.rdata_bytes(),
        text: r.rdata_text(),
    }
}

pub open spec fn records_out(r: Seq<RecordView>) -> Seq<RecordOutView> {
    Seq::new(r.len(), |i: int| record_out(r[i]))
}

fn to_records(r: &Vec<Record>) -> (out: Vec<RecordOut>)
    ensures
        views(out@) == records_out(records_view(r@)),
{
    let mut out: Vec<RecordOut> = Vec::new();
    let mut i: usize = 0;
    while i < r.len()
        invariant
            i <= r@.len(),
            out@.len() == i,
            forall|j: int| 0 <= j < i ==> (#[trigger] out@[j])@ == record_out(r@[j]@),
        decreases r@.len() - i,
    {
        out.push(to_record(&r[i]));
        i += 1;
    }
    assert(views(out@) =~= records_out(records_view(r@)));
    out
}

/// An answer as it is reported. Nothing here validates.
pub open spec fn answer_out(a: AnswerView) -> protocol::AnswerView {
    protocol::AnswerView {
        outcome: a.outcome,
        records: records_out(a.records),
        source: a.source.text(),
        server: match a.server {
            Some(s) => Some(chars(ip_text(s))),
            None => None,
        },
        interface: a.interface,
        validation: Validation::Unvalidated,
        rcode: a.rcode,
    }
}

pub fn to_answer(a: &engine::Answer) -> (out: Answer)
    ensures
        out@ == answer_out(a@),
{
    Answer {
        outcome: a.outcome,
        records: to_records(&a.records),
        source: a.source.as_str().to_owned(),
        server: match &a.server {
            Some(s) => Some(s.to_text()),
            None => None,
        },
        interface: match &a.interface {
            Some(i) => Some(i.clone()),
            None => None,
        },
        validation: Validation::Unvalidated,
        rcode: a.rcode,
    }
}

pub open spec fn ttls_out(a: Seq<(Seq<u8>, u32)>) -> Seq<AddressOutView> {
    Seq::new(a.len(), |i: int| AddressOutView { address: a[i].0, ttl: a[i].1 })
}

/// The addresses of a name as they are reported.
pub open spec fn addresses_out(a: AddressesView) -> protocol::AddressesView {
    protocol::AddressesView {
        outcome: a.outcome,
        canonical: chars(name_text(a.canonical)),
        addresses: ttls_out(a.addresses),
        source: a.source.text(),
        validation: Validation::Unvalidated,
    }
}

pub fn to_addresses(a: &engine::Addresses) -> (out: Addresses)
    ensures
        out@ == addresses_out(a@),
{
    let mut addresses: Vec<AddressOut> = Vec::new();
    let mut i: usize = 0;
    while i < a.addresses.len()
        invariant
            i <= a.addresses@.len(),
            addresses@.len() == i,
            forall|j: int|
                0 <= j < i ==> (#[trigger] addresses@[j])@ == (AddressOutView {
                    address: a.addresses@[j].0@,
                    ttl: a.addresses@[j].1,
                }),
        decreases a.addresses@.len() - i,
    {
        let (address, ttl) = a.addresses[i];
        addresses.push(AddressOut { address, ttl });
        i += 1;
    }
    assert(views(addresses@) =~= ttls_out(ttls_view(a.addresses@)));
    Addresses {
        outcome: a.outcome,
        canonical: a.canonical.to_text(),
        addresses,
        source: a.source.as_str().to_owned(),
        validation: Validation::Unvalidated,
    }
}

// Status.

pub open spec fn ip_texts(a: Seq<Seq<u8>>) -> Seq<Seq<char>> {
    Seq::new(a.len(), |i: int| chars(ip_text(a[i])))
}

pub open spec fn name_texts(n: Seq<Labels>) -> Seq<Seq<char>> {
    Seq::new(n.len(), |i: int| chars(name_text(n[i])))
}

/// An address, a slash and a prefix length.
pub open spec fn prefix_text(p: (Seq<u8>, u8)) -> Seq<char> {
    chars(ip_text(p.0)) + "/"@ + chars(dec(p.1 as nat))
}

pub open spec fn prefix_texts(p: Seq<(Seq<u8>, u8)>) -> Seq<Seq<char>> {
    Seq::new(p.len(), |i: int| prefix_text(p[i]))
}

/// Those of the servers that are demoted.
pub open spec fn demoted_among(s: Seq<Seq<u8>>, m: Map<Seq<u8>, Instant>, now: Instant) -> Seq<Seq<char>>
    decreases s.len(),
{
    if s.len() == 0 {
        Seq::empty()
    } else {
        let before = demoted_among(s.drop_last(), m, now);
        if is_demoted(m, s.last(), now) {
            before.push(chars(ip_text(s.last())))
        } else {
            before
        }
    }
}

/// A scope as it is reported.
pub open spec fn scope_out(s: ScopeView, m: Map<Seq<u8>, Instant>, now: Instant) -> ScopeStatusView {
    ScopeStatusView {
        interface: s.interface,
        servers: ip_texts(s.servers),
        domains: name_texts(s.domains),
        default_route: s.default_route,
        exclusive: s.exclusive,
        metric: s.metric,
        subnets: prefix_texts(s.addresses),
        demoted: demoted_among(s.servers, m, now),
    }
}

pub open spec fn counters_out(c: engine::Counters) -> Counters {
    Counters {
        queries: c.queries,
        synthetic: c.synthetic,
        cache_hits: c.cache_hits,
        upstream_sent: c.upstream_sent,
        upstream_answered: c.upstream_answered,
        upstream_failed: c.upstream_failed,
        refused: c.refused,
    }
}

/// The state of the resolver as it is reported; `netd` is whether the network
/// daemon's channel is up.
pub open spec fn status_out(s: State, netd: bool, now: Instant) -> StatusReportView {
    StatusReportView {
        hostname: match s.hostname {
            Some(n) => chars(name_text(n)),
            None => Seq::empty(),
        },
        netd,
        scopes: Seq::new(s.scopes.len(), |i: int| scope_out(s.scopes[i], s.demoted, now)),
        fallback_servers: ip_texts(s.fallback_servers),
        cache_entries: s.cache.len() as u64,
        counters: counters_out(s.counters),
    }
}

fn ip_strings(a: &[IpAddr]) -> (r: Vec<String>)
    ensures
        texts(r@) == ip_texts(views(a@)),
{
    let mut out: Vec<String> = Vec::new();
    let mut i: usize = 0;
    while i < a.len()
        invariant
            i <= a@.len(),
            out@.len() == i,
            forall|j: int| 0 <= j < i ==> (#[trigger] out@[j])@ == chars(ip_text(a@[j]@)),
        decreases a@.len() - i,
    {
        out.push(a[i].to_text());
        i += 1;
    }
    assert(texts(out@) =~= ip_texts(views(a@)));
    out
}

fn name_strings(n: &Vec<Name>) -> (r: Vec<String>)
    ensures
        texts(r@) == name_texts(views(n@)),
{
    let mut out: Vec<String> = Vec::new();
    let mut i: usize = 0;
    while i < n.len()
        invariant
            i <= n@.len(),
            out@.len() == i,
            forall|j: int| 0 <= j < i ==> (#[trigger] out@[j])@ == chars(name_text(n@[j]@)),
        decreases n@.len() - i,
    {
        out.push(n[i].to_text());
        i += 1;
    }
    assert(texts(out@) =~= name_texts(views(n@)));
    out
}

fn prefix_strings(p: &Vec<(IpAddr, u8)>) -> (r: Vec<String>)
    ensures
        texts(r@) == prefix_texts(prefixes_view(p@)),
{
    let mut out: Vec<String> = Vec::new();
    let mut i: usize = 0;
    while i < p.len()
        invariant
            i <= p@.len(),
            out@.len() == i,
            forall|j: int| 0 <= j < i ==> (#[trigger] out@[j])@ == prefix_text((p@[j].0@, p@[j].1)),
        decreases p@.len() - i,
    {
        out.push(p[i].0.to_text().concat("/").concat(text::dec_string(p[i].1 as u64).as_str()));
        i += 1;
    }
    assert(texts(out@) =~= prefix_texts(prefixes_view(p@)));
    out
}

fn demoted_strings(s: &Vec<IpAddr>, demoted: &Vec<IpAddr>, Ghost(m): Ghost<Map<Seq<u8>, Instant>>, Ghost(now): Ghost<
    Instant,
>) -> (r: Vec<String>)
    requires
        forall|a: Seq<u8>| views(demoted@).contains(a) <==> is_demoted(m, a, now),
    ensures
        texts(r@) == demoted_among(views(s@), m, now),
{
    let ghost all = views(s@);
    let mut out: Vec<String> = Vec::new();
    let mut i: usize = 0;
    assert(texts(out@) =~= demoted_among(all.take(0), m, now));
    while i < s.len()
        invariant
            i <= s@.len(),
            all == views(s@),
            forall|a: Seq<u8>| views(demoted@).contains(a) <==> is_demoted(m, a, now),
            texts(out@) == demoted_among(all.take(i as int), m, now),
        decreases s@.len() - i,
    {
        assert(all.take(i + 1).drop_last() =~= all.take(i as int));
        assert(all[i as int] == s@[i as int]@);
        if contains_address(demoted, &s[i]) {
            let ghost before = texts(out@);
            let t = s[i].to_text();
            let ghost one = t@;
            out.push(t);
            assert(texts(out@) =~= before.push(one));
        }
        i += 1;
    }
    assert(all.take(i as int) =~= all);
    out
}

fn to_scope_status(s: &Scope, demoted: &Vec<IpAddr>, Ghost(m): Ghost<Map<Seq<u8>, Instant>>, Ghost(now): Ghost<
    Instant,
>) -> (r: ScopeStatus)
    requires
        forall|a: Seq<u8>| views(demoted@).contains(a) <==> is_demoted(m, a, now),
    ensures
        r@ == scope_out(s@, m, now),
{
    ScopeStatus {
        interface: s.interface.clone(),
        servers: ip_strings(s.servers.as_slice()),
        domains: name_strings(&s.domains),
        default_route: s.default_route,
        exclusive: s.exclusive,
        metric: s.metric,
        subnets: prefix_strings(&s.addresses),
        demoted: demoted_strings(&s.servers, demoted, Ghost(m), Ghost(now)),
    }
}

/// The state of the resolver, reported.
pub fn status(engine: &Engine, netd: bool, now: Instant) -> (r: StatusReport)
    ensures
        r@ == status_out(engine@, netd, now),
{
    let demoted = engine.demoted(now);
    let scopes = engine.scopes();
    let ghost s = engine@;
    let mut out: Vec<ScopeStatus> = Vec::new();
    let mut i: usize = 0;
    while i < scopes.len()
        invariant
            i <= scopes@.len(),
            views(scopes@) == s.scopes,
            forall|a: Seq<u8>| views(demoted@).contains(a) <==> is_demoted(s.demoted, a, now),
            out@.len() == i,
            forall|j: int| 0 <= j < i ==> (#[trigger] out@[j])@ == scope_out(s.scopes[j], s.demoted, now),
        decreases scopes@.len() - i,
    {
        assert(s.scopes[i as int] == scopes@[i as int]@);
        out.push(to_scope_status(&scopes[i], &demoted, Ghost(s.demoted), Ghost(now)));
        i += 1;
    }
    assert(views(out@) =~= Seq::new(s.scopes.len(), |i: int| scope_out(s.scopes[i], s.demoted, now)));
    let c = engine.counters();
    StatusReport {
        hostname: match engine.hostname() {
            Some(n) => n.to_text(),
            None => {
                let none = String::new();
                assert(none@ =~= Seq::empty());
                none
            },
        },
        netd,
        scopes: out,
        fallback_servers: ip_strings(engine.fallback_servers()),
        cache_entries: engine.cache_entries() as u64,
        counters: Counters {
            queries: c.queries,
            synthetic: c.synthetic,
            cache_hits: c.cache_hits,
            upstream_sent: c.upstream_sent,
            upstream_answered: c.upstream_answered,
            upstream_failed: c.upstream_failed,
            refused: c.refused,
        },
    }
}

} // verus!

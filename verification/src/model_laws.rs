//! What values are taken to be: the model of each has the value's own fields, and
//! every element of it in order.
use crate::dns::message::{Message, Question};
use crate::dns::record::{RData, RDataView, Record};
use crate::engine::answer::{Addresses, Answer};
use crate::engine::scope::Scope;
use crate::protocol::{self, AddressOut, Ask, RecordOut, Request, ScopeStatus, StatusReport};
use crate::snapshot::DnsScope;
use vstd::prelude::*;

verus! {

/// A record's data is what it says, part by part.
pub proof fn law_data_models(d: RData)
    ensures
        match d {
            RData::A(a) => d@ == RDataView::A(a@),
            RData::Aaaa(a) => d@ == RDataView::Aaaa(a@),
            RData::Cname(n) => d@ == RDataView::Cname(n@),
            RData::Ptr(n) => d@ == RDataView::Ptr(n@),
            RData::Ns(n) => d@ == RDataView::Ns(n@),
            RData::Soa { mname, rname, serial, refresh, retry, expire, minimum } => d@ == (RDataView::Soa {
                mname: mname@,
                rname: rname@,
                serial,
                refresh,
                retry,
                expire,
                minimum,
            }),
            RData::Mx { preference, exchange } => d@ == (RDataView::Mx { preference, exchange: exchange@ }),
            RData::Srv { priority, weight, port, target } => d@ == (RDataView::Srv {
                priority,
                weight,
                port,
                target: target@,
            }),
            RData::Txt(s) => d@ matches RDataView::Txt(t) && t.len() == s@.len() && forall|i: int|
                0 <= i < t.len() ==> #[trigger] t[i] == s@[i]@,
            RData::Opt(b) => d@ == RDataView::Opt(b@),
            RData::Unknown(b) => d@ == RDataView::Unknown(b@),
        },
{
}

/// A record, a question and a message, likewise.
pub proof fn law_message_models(r: Record, q: Question, m: Message)
    ensures
        r@.name == r.name@ && r@.rtype == r.rtype && r@.class == r.class && r@.ttl == r.ttl && r@.rdata == r.rdata@,
        q@.name == q.name@ && q@.rtype == q.rtype && q@.class == q.class,
        m@.header == m.header,
        m@.questions == m.questions@.map_values(|x: Question| x@),
        m@.answers == m.answers@.map_values(|x: Record| x@),
        m@.authority == m.authority@.map_values(|x: Record| x@),
        m@.additional == m.additional@.map_values(|x: Record| x@),
{
    assert(m@.questions =~= m.questions@.map_values(|x: Question| x@));
    assert(m@.answers =~= m.answers@.map_values(|x: Record| x@));
    assert(m@.authority =~= m.authority@.map_values(|x: Record| x@));
    assert(m@.additional =~= m.additional@.map_values(|x: Record| x@));
}

/// An answer and addresses, likewise.
pub proof fn law_answer_models(a: Answer, b: Addresses)
    ensures
        a@.outcome == a.outcome && a@.source == a.source && a@.rcode == a.rcode,
        a@.records == a.records@.map_values(|x: Record| x@),
        a.server is None ==> a@.server is None,
        a.server matches Some(s) ==> a@.server == Some(s@),
        a.interface is None ==> a@.interface is None,
        a.interface matches Some(i) ==> a@.interface == Some(i@),
        a.resolved_name is None ==> a@.resolved_name is None,
        a.resolved_name matches Some(n) ==> a@.resolved_name == Some(n@),
        b@.outcome == b.outcome && b@.source == b.source && b@.canonical == b.canonical@,
        b@.addresses.len() == b.addresses@.len(),
        forall|i: int|
            0 <= i < b.addresses@.len() ==> (#[trigger] b@.addresses[i]).0 == b.addresses@[i].0@ && b@.addresses[i].1
                == b.addresses@[i].1,
{
    assert(a@.records =~= a.records@.map_values(|x: Record| x@));
}

/// An interface, as it is and as it was said, likewise.
pub proof fn law_interface_models(s: Scope, d: DnsScope)
    ensures
        s@.id == s.id@ && s@.interface == s.interface@,
        s@.default_route == s.default_route && s@.exclusive == s.exclusive,
        s@.metric == s.metric && s@.level == s.level,
        s@.servers.len() == s.servers@.len(),
        forall|i: int| 0 <= i < s.servers@.len() ==> #[trigger] s@.servers[i] == s.servers@[i]@,
        s@.domains.len() == s.domains@.len(),
        forall|i: int| 0 <= i < s.domains@.len() ==> #[trigger] s@.domains[i] == s.domains@[i]@,
        s@.addresses.len() == s.addresses@.len(),
        forall|i: int|
            0 <= i < s.addresses@.len() ==> (#[trigger] s@.addresses[i]).0 == s.addresses@[i].0@ && s@.addresses[i].1
                == s.addresses@[i].1,
        d@.ifid == d.ifid@ && d@.name == d.name@,
        d@.default_route == d.default_route && d@.exclusive == d.exclusive,
        d@.metric == d.metric && d@.level == d.level,
        d@.servers.len() == d.servers@.len(),
        forall|i: int| 0 <= i < d.servers@.len() ==> #[trigger] d@.servers[i] == d.servers@[i]@,
        d@.domains.len() == d.domains@.len(),
        forall|i: int| 0 <= i < d.domains@.len() ==> #[trigger] d@.domains[i] == d.domains@[i]@,
        d@.addresses.len() == d.addresses@.len(),
        forall|i: int| 0 <= i < d.addresses@.len() ==> #[trigger] d@.addresses[i] == d.addresses@[i]@,
{
}

/// What goes over the native wire, likewise.
pub proof fn law_native_models(
    q: Request,
    r: RecordOut,
    a: protocol::Answer,
    x: AddressOut,
    b: protocol::Addresses,
    s: ScopeStatus,
    t: StatusReport,
)
    ensures
        match q {
            Request::Resolve { name, rtype, no_cache } => q@ == (Ask::Resolve { name: name@, rtype, no_cache }),
            Request::Lookup { name, family } => q@ == (Ask::Lookup { name: name@, family }),
            Request::Reverse { address } => q@ == (Ask::Reverse { address: address@ }),
            Request::Status => q@ == Ask::Status,
            Request::Flush => q@ == Ask::Flush,
        },
        r@.name == r.name@ && r@.rtype == r.rtype && r@.ttl == r.ttl && r@.data == r.data@ && r@.text == r.text@,
        a@.outcome == a.outcome && a@.source == a.source@ && a@.validation == a.validation && a@.rcode == a.rcode,
        a@.records == a.records@.map_values(|y: RecordOut| y@),
        a.server matches Some(y) ==> a@.server == Some(y@),
        a.server is None ==> a@.server is None,
        a.interface matches Some(y) ==> a@.interface == Some(y@),
        a.interface is None ==> a@.interface is None,
        x@.address == x.address@ && x@.ttl == x.ttl,
        b@.outcome == b.outcome && b@.canonical == b.canonical@ && b@.source == b.source@ && b@.validation
            == b.validation,
        b@.addresses == b.addresses@.map_values(|y: AddressOut| y@),
        s@.interface == s.interface@ && s@.metric == s.metric,
        s@.default_route == s.default_route && s@.exclusive == s.exclusive,
        s@.servers == s.servers@.map_values(|y: String| y@),
        s@.domains == s.domains@.map_values(|y: String| y@),
        s@.subnets == s.subnets@.map_values(|y: String| y@),
        s@.demoted == s.demoted@.map_values(|y: String| y@),
        t@.hostname == t.hostname@ && t@.netd == t.netd && t@.cache_entries == t.cache_entries && t@.counters
            == t.counters,
        t@.scopes == t.scopes@.map_values(|y: ScopeStatus| y@),
        t@.fallback_servers == t.fallback_servers@.map_values(|y: String| y@),
{
    assert(a@.records =~= a.records@.map_values(|y: RecordOut| y@));
    assert(b@.addresses =~= b.addresses@.map_values(|y: AddressOut| y@));
    assert(s@.servers =~= s.servers@.map_values(|y: String| y@));
    assert(s@.domains =~= s.domains@.map_values(|y: String| y@));
    assert(s@.subnets =~= s.subnets@.map_values(|y: String| y@));
    assert(s@.demoted =~= s.demoted@.map_values(|y: String| y@));
    assert(t@.scopes =~= t.scopes@.map_values(|y: ScopeStatus| y@));
    assert(t@.fallback_servers =~= t.fallback_servers@.map_values(|y: String| y@));
}

} // verus!

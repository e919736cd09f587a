//! What the network daemon says: the machine's name, and what each interface
//! contributes, as text.
use crate::addr::{ip_of_text, IpAddr};
use crate::config::{domains, domains_in, first_zero, law_search_domains_are_not_the_root, up_to_zero};
use crate::dns::name::Labels;
use crate::dns::record::{lossy, lossy_text};
use crate::engine::laws::{law_single_labels_are_never_bare, lemma_search_domains_rootless, rootless};
use crate::engine::scope::{candidates, prefixes_view, Level, Scope, ScopeView};
use crate::octets;
use crate::protocol::{texts, views};
use crate::text::{opt_text, parse_uint, str_eq, uint_of};
use vstd::prelude::*;
use vstd::utf8::*;

verus! {

/// What an interface contributes, as it was said.
#[derive(Debug)]
pub struct DnsScope {
    pub ifid: String,
    pub name: String,
    pub servers: Vec<String>,
    pub domains: Vec<String>,
    /// Addresses, each with its prefix length behind a slash.
    pub addresses: Vec<String>,
    pub default_route: bool,
    pub exclusive: bool,
    pub metric: u32,
    pub level: Level,
}

#[verifier::ext_equal]
pub struct DnsScopeView {
    pub ifid: Seq<char>,
    pub name: Seq<char>,
    pub servers: Seq<Seq<char>>,
    pub domains: Seq<Seq<char>>,
    pub addresses: Seq<Seq<char>>,
    pub default_route: bool,
    pub exclusive: bool,
    pub metric: u32,
    pub level: Level,
}

impl View for DnsScope {
    type V = DnsScopeView;

    open spec fn view(&self) -> DnsScopeView {
        DnsScopeView {
            ifid: self.ifid@,
            name: self.name@,
            servers: texts(self.servers@),
            domains: texts(self.domains@),
            addresses: texts(self.addresses@),
            default_route: self.default_route,
            exclusive: self.exclusive,
            metric: self.metric,
            level: self.level,
        }
    }
}

#[derive(Debug)]
pub struct Snapshot {
    pub hostname: String,
    pub scopes: Vec<DnsScope>,
}

pub struct SnapshotView {
    pub hostname: Seq<char>,
    pub scopes: Seq<DnsScopeView>,
}

impl View for Snapshot {
    type V = SnapshotView;

    open spec fn view(&self) -> SnapshotView {
        SnapshotView { hostname: self.hostname@, scopes: views(self.scopes@) }
    }
}

/// The addresses among strings.
pub open spec fn servers_in(s: Seq<Seq<char>>) -> Seq<Seq<u8>>
    decreases s.len(),
{
    if s.len() == 0 {
        Seq::empty()
    } else {
        let before = servers_in(s.drop_last());
        match ip_of_text(encode_utf8(s.last())) {
            Some(a) => before.push(a),
            None => before,
        }
    }
}

/// The place of the first slash from `i` on; the length where there is none.
pub open spec fn slash_from(b: Seq<u8>, i: int) -> int
    decreases b.len() - i,
{
    if i < 0 || i >= b.len() {
        b.len() as int
    } else if b[i] == 0x2f {
        i
    } else {
        slash_from(b, i + 1)
    }
}

/// An address and its prefix length, a slash between them.
pub open spec fn prefix_of(b: Seq<u8>) -> Option<(Seq<u8>, u8)> {
    let p = slash_from(b, 0);
    if p >= b.len() {
        None
    } else {
        match (ip_of_text(b.take(p)), uint_of(b.skip(p + 1), 255)) {
            (Some(a), Some(n)) => Some((a, n as u8)),
            _ => None,
        }
    }
}

/// The prefixes among strings.
pub open spec fn prefixes_in(s: Seq<Seq<char>>) -> Seq<(Seq<u8>, u8)>
    decreases s.len(),
{
    if s.len() == 0 {
        Seq::empty()
    } else {
        let before = prefixes_in(s.drop_last());
        match prefix_of(encode_utf8(s.last())) {
            Some(p) => before.push(p),
            None => before,
        }
    }
}

/// The scope that an interface's contribution is; what is malformed in it is
/// left out.
pub open spec fn scope_of(s: DnsScopeView) -> ScopeView {
    ScopeView {
        id: s.ifid,
        interface: s.name,
        servers: servers_in(s.servers),
        domains: domains_in(s.domains),
        addresses: prefixes_in(s.addresses),
        default_route: s.default_route,
        exclusive: s.exclusive,
        metric: s.metric,
        level: s.level,
    }
}

fn servers(strings: &Vec<String>) -> (r: Vec<IpAddr>)
    ensures
        views(r@) == servers_in(texts(strings@)),
{
    let ghost s = texts(strings@);
    let mut out: Vec<IpAddr> = Vec::new();
    let mut i: usize = 0;
    assert(views(out@) =~= servers_in(s.take(0)));
    while i < strings.len()
        invariant
            i <= strings@.len(),
            s == texts(strings@),
            views(out@) == servers_in(s.take(i as int)),
        decreases strings@.len() - i,
    {
        assert(s.take(i + 1).drop_last() =~= s.take(i as int));
        assert(s[i as int] == strings@[i as int]@);
        let ghost before = views(out@);
        if let Some(a) = IpAddr::parse(strings[i].as_str()) {
            out.push(a);
            assert(views(out@) =~= before.push(a@));
        }
        i += 1;
    }
    assert(s.take(i as int) =~= s);
    out
}

fn prefix(b: &[u8]) -> (r: Option<(IpAddr, u8)>)
    ensures
        prefix_of(b@) == (match r {
            Some((a, n)) => Some((a@, n)),
            None => None,
        }),
{
    let mut p: usize = 0;
    while p < b.len() && b[p] != 0x2f
        invariant
            p <= b@.len(),
            slash_from(b@, 0) == slash_from(b@, p as int),
        decreases b@.len() - p,
    {
        p += 1;
    }
    if p == b.len() {
        return None;
    }
    let address = octets::copy_range(b, 0, p);
    let length = octets::copy_range(b, p + 1, b.len());
    assert(address@ =~= b@.take(p as int));
    assert(length@ =~= b@.skip(p + 1));
    match (IpAddr::parse_bytes(address.as_slice()), parse_uint(length.as_slice(), 255)) {
        (Some(a), Some(n)) => Some((a, n as u8)),
        _ => None,
    }
}

fn prefixes(strings: &Vec<String>) -> (r: Vec<(IpAddr, u8)>)
    ensures
        prefixes_view(r@) == prefixes_in(texts(strings@)),
{
    let ghost s = texts(strings@);
    let mut out: Vec<(IpAddr, u8)> = Vec::new();
    let mut i: usize = 0;
    assert(prefixes_view(out@) =~= prefixes_in(s.take(0)));
    while i < strings.len()
        invariant
            i <= strings@.len(),
            s == texts(strings@),
            prefixes_view(out@) == prefixes_in(s.take(i as int)),
        decreases strings@.len() - i,
    {
        assert(s.take(i + 1).drop_last() =~= s.take(i as int));
        assert(s[i as int] == strings@[i as int]@);
        let ghost before = prefixes_view(out@);
        if let Some((a, n)) = prefix(strings[i].as_str().as_bytes()) {
            out.push((a, n));
            assert(prefixes_view(out@) =~= before.push((a@, n)));
        }
        i += 1;
    }
    assert(s.take(i as int) =~= s);
    out
}

pub fn to_scope(s: &DnsScope) -> (r: Scope)
    ensures
        r@ == scope_of(s@),
{
    Scope {
        id: s.ifid.clone(),
        interface: s.name.clone(),
        servers: servers(&s.servers),
        domains: domains(&s.domains),
        addresses: prefixes(&s.addresses),
        default_route: s.default_route,
        exclusive: s.exclusive,
        metric: s.metric,
        level: s.level,
    }
}

pub open spec fn scopes_of(s: Seq<DnsScopeView>) -> Seq<ScopeView> {
    Seq::new(s.len(), |i: int| scope_of(s[i]))
}

pub fn to_scopes(s: &Vec<DnsScope>) -> (r: Vec<Scope>)
    ensures
        views(r@) == scopes_of(views(s@)),
{
    let mut out: Vec<Scope> = Vec::new();
    let mut i: usize = 0;
    while i < s.len()
        invariant
            i <= s@.len(),
            out@.len() == i,
            forall|j: int| 0 <= j < i ==> (#[trigger] out@[j])@ == scope_of(s@[j]@),
        decreases s@.len() - i,
    {
        out.push(to_scope(&s[i]));
        i += 1;
    }
    assert(views(out@) =~= scopes_of(views(s@)));
    out
}

/// The name that the kernel has, out of the buffer that it was written to:
/// what stands before the first zero, unless that is nothing or stands for
/// it.
pub open spec fn kernel_name(buf: Seq<u8>) -> Option<Seq<char>> {
    let name = lossy(up_to_zero(buf));
    if name.len() == 0 || name == "(none)"@ {
        None
    } else {
        Some(name)
    }
}

pub fn kernel_hostname(buf: &[u8]) -> (r: Option<String>)
    ensures
        opt_text(r) == kernel_name(buf@),
{
    let end: usize = first_zero(buf);
    let bytes = octets::copy_range(buf, 0, end);
    assert(bytes@ =~= up_to_zero(buf@));
    let name = lossy_text(bytes.as_slice());
    let empty = String::new();
    assert(empty@ =~= Seq::empty());
    assert(name@.len() == 0 ==> name@ =~= Seq::empty());
    if str_eq(name.as_str(), empty.as_str()) || str_eq(name.as_str(), "(none)") {
        None
    } else {
        Some(name)
    }
}

/// The machine's name: the network daemon's where it set one, else whatever
/// the kernel has.
pub open spec fn machine_name(said: Seq<char>, kernel: Option<Seq<char>>) -> Option<Seq<char>> {
    if said.len() == 0 {
        kernel
    } else {
        Some(said)
    }
}

/// Whatever the interfaces and the settings say, a single label is never tried
/// bare.
pub proof fn law_single_labels_stay_under_domains(scopes: Seq<DnsScopeView>, extra: Seq<Seq<char>>, name: Labels)
    requires
        name.len() == 1,
    ensures
        forall|i: int|
            0 <= i < candidates(scopes_of(scopes), domains_in(extra), name).len() ==> (#[trigger] candidates(
                scopes_of(scopes),
                domains_in(extra),
                name,
            )[i]).len() > 1,
{
    let s = scopes_of(scopes);
    assert forall|i: int| 0 <= i < s.len() implies rootless((#[trigger] s[i]).domains) by {
        law_search_domains_are_not_the_root(scopes[i].domains);
    }
    law_search_domains_are_not_the_root(extra);
    lemma_search_domains_rootless(s, domains_in(extra));
    law_single_labels_are_never_bare(s, domains_in(extra), name);
}

} // verus!

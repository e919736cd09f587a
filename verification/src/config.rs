//! What the registry says of name resolution.
//!
//! Everything here is a fallback or an override; the live facts, which
//! interface has which servers, come from the network daemon and are never in
//! the registry.
use crate::addr::{ip_of_text, IpAddr};
use crate::dns::name::{name_of_text, same_name, Labels};
use crate::dns::Name;
use crate::engine::answer::{host_addresses, host_from, hosts_view, Hosts};
use crate::engine::same_addresses;
use crate::octets;
use crate::protocol::{texts, views};
use crate::stub::opt_bytes;
use crate::text::{opt_text, trim, trimmed, utf8_string, utf8_text};
use vstd::prelude::*;
use vstd::utf8::*;

verus! {

// Values.

/// How the data of a value is to be read.
#[derive(Debug, Clone, Copy, PartialEq, Eq, Structural)]
pub enum ValueType {
    Sz,
    ExpandSz,
    MultiSz,
    Binary,
    Other,
}

#[derive(Debug)]
pub struct RegValue {
    pub ty: ValueType,
    pub data: Vec<u8>,
}

pub struct RegValueView {
    pub ty: ValueType,
    pub data: Seq<u8>,
}

impl View for RegValue {
    type V = RegValueView;

    open spec fn view(&self) -> RegValueView {
        RegValueView { ty: self.ty, data: self.data@ }
    }
}

/// What stands before the first zero.
pub open spec fn up_to_zero(b: Seq<u8>) -> Seq<u8>
    decreases b.len(),
{
    if b.len() == 0 || b[0] == 0 {
        Seq::empty()
    } else {
        seq![b[0]] + up_to_zero(b.skip(1))
    }
}

/// Those of the strings that are texts and not empty.
pub open spec fn texts_of(p: Seq<Seq<u8>>) -> Seq<Seq<char>>
    decreases p.len(),
{
    if p.len() == 0 {
        Seq::empty()
    } else {
        let before = texts_of(p.drop_last());
        if p.last().len() == 0 {
            before
        } else {
            match utf8_text(p.last()) {
                Some(t) => before.push(t),
                None => before,
            }
        }
    }
}

/// The string that a value is.
pub open spec fn string_of(v: RegValueView) -> Option<Seq<char>> {
    if v.ty != ValueType::Sz && v.ty != ValueType::ExpandSz {
        None
    } else {
        utf8_text(up_to_zero(v.data))
    }
}

/// The strings that a value is, a single one counting as a list of one.
pub open spec fn strings_of(v: RegValueView) -> Seq<Seq<char>> {
    match v.ty {
        ValueType::MultiSz => texts_of(octets::split(v.data, 0)),
        _ => match string_of(v) {
            Some(s) => seq![s],
            None => Seq::empty(),
        },
    }
}

/// The strings of a value that may not be there.
pub open spec fn all_strings(v: Option<RegValueView>) -> Seq<Seq<char>> {
    match v {
        Some(v) => strings_of(v),
        None => Seq::empty(),
    }
}

pub fn first_zero(b: &[u8]) -> (n: usize)
    ensures
        n <= b@.len(),
        up_to_zero(b@) == b@.take(n as int),
{
    let mut n: usize = 0;
    assert(b@.skip(0) =~= b@);
    assert(b@.take(0) + up_to_zero(b@.skip(0)) =~= up_to_zero(b@));
    while n < b.len() && b[n] != 0
        invariant
            n <= b@.len(),
            up_to_zero(b@) == b@.take(n as int) + up_to_zero(b@.skip(n as int)),
        decreases b@.len() - n,
    {
        let ghost rest = b@.skip(n as int);
        assert(rest.skip(1) =~= b@.skip(n + 1));
        assert(b@.take(n as int) + (seq![rest[0]] + up_to_zero(rest.skip(1))) =~= b@.take(n + 1) + up_to_zero(
            b@.skip(n + 1),
        ));
        n += 1;
    }
    assert(up_to_zero(b@.skip(n as int)) =~= Seq::empty());
    assert(b@.take(n as int) + Seq::<u8>::empty() =~= b@.take(n as int));
    n
}

fn sz(v: &RegValue) -> (r: Option<String>)
    ensures
        opt_text(r) == string_of(v@),
{
    if v.ty != ValueType::Sz && v.ty != ValueType::ExpandSz {
        return None;
    }
    let end: usize = first_zero(v.data.as_slice());
    let text = octets::copy_range(v.data.as_slice(), 0, end);
    assert(text@ =~= up_to_zero(v.data@));
    utf8_string(text.as_slice())
}

fn pieces(b: &[u8]) -> (r: Vec<String>)
    ensures
        texts(r@) == texts_of(octets::split(b@, 0)),
{
    let parts = octets::split_by(b, 0);
    let ghost all = octets::strings(parts@);
    let mut out: Vec<String> = Vec::new();
    let mut i: usize = 0;
    assert(texts(out@) =~= texts_of(all.take(0)));
    while i < parts.len()
        invariant
            i <= parts@.len(),
            all == octets::strings(parts@),
            texts(out@) == texts_of(all.take(i as int)),
        decreases parts@.len() - i,
    {
        assert(all.take(i + 1).drop_last() =~= all.take(i as int));
        assert(all[i as int] == parts@[i as int]@);
        if parts[i].len() > 0 {
            if let Some(t) = utf8_string(parts[i].as_slice()) {
                let ghost before = texts(out@);
                let ghost one = t@;
                out.push(t);
                assert(texts(out@) =~= before.push(one));
            }
        }
        i += 1;
    }
    assert(all.take(i as int) =~= all);
    out
}

pub(crate) fn multi(v: &RegValue) -> (r: Vec<String>)
    ensures
        texts(r@) == strings_of(v@),
{
    match v.ty {
        ValueType::MultiSz => pieces(v.data.as_slice()),
        _ => {
            let mut out: Vec<String> = Vec::new();
            assert(texts(out@) =~= Seq::empty());
            if let Some(s) = sz(v) {
                let ghost one = s@;
                out.push(s);
                assert(texts(out@) =~= seq![one]);
            }
            out
        },
    }
}

pub open spec fn opt_value(v: Option<RegValue>) -> Option<RegValueView> {
    match v {
        Some(v) => Some(v@),
        None => None,
    }
}

pub(crate) fn read_multi(v: &Option<RegValue>) -> (r: Vec<String>)
    ensures
        texts(r@) == all_strings(opt_value(*v)),
{
    match v {
        Some(v) => multi(v),
        None => {
            let none: Vec<String> = Vec::new();
            assert(texts(none@) =~= Seq::empty());
            none
        },
    }
}

// What the values mean.

/// The addresses among strings, space around them aside.
pub open spec fn addresses_in(s: Seq<Seq<char>>) -> Seq<Seq<u8>>
    decreases s.len(),
{
    if s.len() == 0 {
        Seq::empty()
    } else {
        let before = addresses_in(s.drop_last());
        match ip_of_text(encode_utf8(trimmed(s.last()))) {
            Some(a) => before.push(a),
            None => before,
        }
    }
}

/// The names among strings, but for the root.
pub open spec fn domains_in(s: Seq<Seq<char>>) -> Seq<Labels>
    decreases s.len(),
{
    if s.len() == 0 {
        Seq::empty()
    } else {
        let before = domains_in(s.drop_last());
        match name_of_text(encode_utf8(s.last())) {
            Ok(n) => if n.len() > 0 {
                before.push(n)
            } else {
                before
            },
            Err(_) => before,
        }
    }
}

fn addresses(strings: &Vec<String>) -> (r: Vec<IpAddr>)
    ensures
        views(r@) == addresses_in(texts(strings@)),
{
    let ghost s = texts(strings@);
    let mut out: Vec<IpAddr> = Vec::new();
    let mut i: usize = 0;
    assert(views(out@) =~= addresses_in(s.take(0)));
    while i < strings.len()
        invariant
            i <= strings@.len(),
            s == texts(strings@),
            views(out@) == addresses_in(s.take(i as int)),
        decreases strings@.len() - i,
    {
        assert(s.take(i + 1).drop_last() =~= s.take(i as int));
        assert(s[i as int] == strings@[i as int]@);
        let ghost before = views(out@);
        if let Some(a) = IpAddr::parse(trim(strings[i].as_str())) {
            out.push(a);
            assert(views(out@) =~= before.push(a@));
        }
        i += 1;
    }
    assert(s.take(i as int) =~= s);
    out
}

/// Reads names, leaving out what is none, and the root.
pub fn domains(strings: &Vec<String>) -> (r: Vec<Name>)
    ensures
        views(r@) == domains_in(texts(strings@)),
{
    let ghost s = texts(strings@);
    let mut out: Vec<Name> = Vec::new();
    let mut i: usize = 0;
    assert(views(out@) =~= domains_in(s.take(0)));
    while i < strings.len()
        invariant
            i <= strings@.len(),
            s == texts(strings@),
            views(out@) == domains_in(s.take(i as int)),
        decreases strings@.len() - i,
    {
        assert(s.take(i + 1).drop_last() =~= s.take(i as int));
        assert(s[i as int] == strings@[i as int]@);
        let ghost before = views(out@);
        if let Ok(n) = Name::parse(strings[i].as_str()) {
            if !n.is_root() {
                let ghost one = n@;
                out.push(n);
                assert(views(out@) =~= before.push(one));
            }
        }
        i += 1;
    }
    assert(s.take(i as int) =~= s);
    out
}

#[derive(Debug)]
pub struct Config {
    /// Used only when no interface supplies any.
    pub servers: Vec<IpAddr>,
    /// Applied to single labels after every interface's own.
    pub search: Vec<Name>,
    /// Static names and their addresses: each name once, exact match, before
    /// any server is asked.
    pub hosts: Vec<(Name, Vec<IpAddr>)>,
    /// The control object's descriptor.
    pub control_security: Option<Vec<u8>>,
}

#[verifier::ext_equal]
pub struct ConfigView {
    pub servers: Seq<Seq<u8>>,
    pub search: Seq<Labels>,
    pub hosts: Hosts,
    pub control_security: Option<Seq<u8>>,
}

impl View for Config {
    type V = ConfigView;

    open spec fn view(&self) -> ConfigView {
        ConfigView {
            servers: views(self.servers@),
            search: views(self.search@),
            hosts: hosts_view(self.hosts@),
            control_security: opt_bytes(self.control_security),
        }
    }
}

/// Nothing configured.
pub open spec fn no_config() -> ConfigView {
    ConfigView { servers: Seq::empty(), search: Seq::empty(), hosts: Seq::empty(), control_security: None }
}

impl Default for Config {
    fn default() -> (r: Config)
        ensures
            r@ == no_config(),
    {
        let r = Config { servers: Vec::new(), search: Vec::new(), hosts: Vec::new(), control_security: None };
        assert(r@ =~= no_config());
        r
    }
}

/// The values that were read, where they were there.
#[derive(Debug)]
pub struct Values {
    /// `FallbackServers`
    pub fallback_servers: Option<RegValue>,
    /// `ExtraSearchDomains`
    pub extra_search_domains: Option<RegValue>,
    /// `ControlSecurity`
    pub control_security: Option<RegValue>,
    /// Under `Hosts`: a value's name is a host's, its data the addresses.
    pub hosts: Vec<(Vec<u8>, RegValue)>,
}

pub struct ValuesView {
    pub fallback_servers: Option<RegValueView>,
    pub extra_search_domains: Option<RegValueView>,
    pub control_security: Option<RegValueView>,
    pub hosts: Seq<(Seq<u8>, RegValueView)>,
}

pub open spec fn named_values(v: Seq<(Vec<u8>, RegValue)>) -> Seq<(Seq<u8>, RegValueView)> {
    Seq::new(v.len(), |i: int| (v[i].0@, v[i].1@))
}

impl View for Values {
    type V = ValuesView;

    open spec fn view(&self) -> ValuesView {
        ValuesView {
            fallback_servers: opt_value(self.fallback_servers),
            extra_search_domains: opt_value(self.extra_search_domains),
            control_security: opt_value(self.control_security),
            hosts: named_values(self.hosts@),
        }
    }
}

/// The descriptor that a value is.
pub open spec fn descriptor_in(v: Option<RegValueView>) -> Option<Seq<u8>> {
    match v {
        Some(v) => if v.ty == ValueType::Binary && v.data.len() > 0 {
            Some(v.data)
        } else {
            None
        },
        None => None,
    }
}

/// The place of a name among hosts, from `i` on; the length where it has none.
pub open spec fn host_place(h: Hosts, name: Labels, i: int) -> int
    decreases h.len() - i,
{
    if i < 0 || i >= h.len() {
        h.len() as int
    } else if same_name(h[i].0, name) {
        i
    } else {
        host_place(h, name, i + 1)
    }
}

/// A host under its name, in place of the one that was.
pub open spec fn with_host(h: Hosts, name: Labels, a: Seq<Seq<u8>>) -> Hosts {
    let p = host_place(h, name, 0);
    if p < h.len() {
        h.update(p, (h[p].0, a))
    } else {
        h.push((name, a))
    }
}

/// The name that a host's value has, where it is one and not the root.
pub open spec fn host_name(b: Seq<u8>) -> Option<Labels> {
    match utf8_text(b) {
        Some(t) => match name_of_text(encode_utf8(t)) {
            Ok(n) => if n.len() > 0 {
                Some(n)
            } else {
                None
            },
            Err(_) => None,
        },
        None => None,
    }
}

/// The hosts of values: those with a name and an address.
pub open spec fn hosts_in(v: Seq<(Seq<u8>, RegValueView)>) -> Hosts
    decreases v.len(),
{
    if v.len() == 0 {
        Seq::empty()
    } else {
        let before = hosts_in(v.drop_last());
        let a = addresses_in(strings_of(v.last().1));
        match host_name(v.last().0) {
            Some(n) => if a.len() > 0 {
                with_host(before, n, a)
            } else {
                before
            },
            None => before,
        }
    }
}

/// What the values come to.
pub open spec fn loaded(v: ValuesView) -> ConfigView {
    ConfigView {
        servers: addresses_in(all_strings(v.fallback_servers)),
        search: domains_in(all_strings(v.extra_search_domains)),
        hosts: hosts_in(v.hosts),
        control_security: descriptor_in(v.control_security),
    }
}

fn put_host(hosts: &mut Vec<(Name, Vec<IpAddr>)>, name: Name, addresses: Vec<IpAddr>)
    ensures
        hosts_view(final(hosts)@) == with_host(hosts_view(old(hosts)@), name@, views(addresses@)),
{
    let ghost h = hosts_view(hosts@);
    let mut i: usize = 0;
    while i < hosts.len()
        invariant
            i <= hosts@.len(),
            h == hosts_view(hosts@),
            hosts@ == old(hosts)@,
            host_place(h, name@, 0) == host_place(h, name@, i as int),
        decreases hosts@.len() - i,
    {
        assert(h[i as int] == (hosts@[i as int].0@, views(hosts@[i as int].1@)));
        if hosts[i].0 == name {
            let kept = hosts[i].0.clone();
            let ghost row = (kept@, views(addresses@));
            hosts.set(i, (kept, addresses));
            assert(hosts_view(hosts@) =~= h.update(i as int, row));
            return;
        }
        i += 1;
    }
    let ghost row = (name@, views(addresses@));
    hosts.push((name, addresses));
    assert(hosts_view(hosts@) =~= h.push(row));
}

fn name_of_value(b: &[u8]) -> (r: Option<Name>)
    ensures
        host_name(b@) == (match r {
            Some(n) => Some(n@),
            None => None,
        }),
{
    match utf8_string(b) {
        Some(t) => match Name::parse(t.as_str()) {
            Ok(n) => if n.is_root() {
                None
            } else {
                Some(n)
            },
            Err(_) => None,
        },
        None => None,
    }
}

fn descriptor(v: &Option<RegValue>) -> (r: Option<Vec<u8>>)
    ensures
        opt_bytes(r) == descriptor_in(opt_value(*v)),
{
    match v {
        Some(v) => if v.ty == ValueType::Binary && v.data.len() > 0 {
            Some(octets::copy(v.data.as_slice()))
        } else {
            None
        },
        None => None,
    }
}

/// Reads the configuration out of the values; what is malformed is left out.
pub fn load(values: &Values) -> (r: Config)
    ensures
        r@ == loaded(values@),
{
    let mut hosts: Vec<(Name, Vec<IpAddr>)> = Vec::new();
    let ghost all = named_values(values.hosts@);
    let mut i: usize = 0;
    assert(hosts_view(hosts@) =~= hosts_in(all.take(0)));
    while i < values.hosts.len()
        invariant
            i <= values.hosts@.len(),
            all == named_values(values.hosts@),
            hosts_view(hosts@) == hosts_in(all.take(i as int)),
        decreases values.hosts@.len() - i,
    {
        assert(all.take(i + 1).drop_last() =~= all.take(i as int));
        let (name, value) = &values.hosts[i];
        assert(all[i as int] == (name@, value@));
        if let Some(name) = name_of_value(name.as_slice()) {
            let addresses = addresses(&multi(value));
            assert(views(addresses@).len() == addresses@.len());
            if addresses.len() > 0 {
                put_host(&mut hosts, name, addresses);
            }
        }
        i += 1;
    }
    assert(all.take(i as int) =~= all);
    Config {
        servers: addresses(&read_multi(&values.fallback_servers)),
        search: domains(&read_multi(&values.extra_search_domains)),
        hosts,
        control_security: descriptor(&values.control_security),
    }
}

// Whether anything changed.

pub open spec fn same_domains(a: Seq<Labels>, b: Seq<Labels>) -> bool {
    a.len() == b.len() && forall|i: int| 0 <= i < a.len() ==> same_name(#[trigger] a[i], b[i])
}

/// Whether hosts have the same addresses, in whatever order they come.
pub open spec fn same_hosts(a: Hosts, b: Hosts) -> bool {
    a.len() == b.len() && forall|i: int| 0 <= i < a.len() ==> host_from(b, (#[trigger] a[i]).0, 0) == Some(a[i].1)
}

/// Whether two configurations say the same, names being the same in any case.
pub open spec fn same_config(a: ConfigView, b: ConfigView) -> bool {
    &&& a.servers == b.servers
    &&& same_domains(a.search, b.search)
    &&& same_hosts(a.hosts, b.hosts)
    &&& a.control_security == b.control_security
}

fn domains_agree(a: &Vec<Name>, b: &Vec<Name>) -> (r: bool)
    ensures
        r == same_domains(views(a@), views(b@)),
{
    if a.len() != b.len() {
        return false;
    }
    let mut i: usize = 0;
    while i < a.len()
        invariant
            i <= a@.len() == b@.len(),
            forall|j: int| 0 <= j < i ==> same_name(#[trigger] views(a@)[j], views(b@)[j]),
        decreases a@.len() - i,
    {
        if !(a[i] == b[i]) {
            assert(!same_name(views(a@)[i as int], views(b@)[i as int]));
            return false;
        }
        i += 1;
    }
    true
}

fn hosts_agree(a: &Vec<(Name, Vec<IpAddr>)>, b: &Vec<(Name, Vec<IpAddr>)>) -> (r: bool)
    ensures
        r == same_hosts(hosts_view(a@), hosts_view(b@)),
{
    if a.len() != b.len() {
        return false;
    }
    let ghost x = hosts_view(a@);
    let ghost y = hosts_view(b@);
    let mut i: usize = 0;
    while i < a.len()
        invariant
            i <= a@.len() == b@.len(),
            x == hosts_view(a@),
            y == hosts_view(b@),
            forall|j: int| 0 <= j < i ==> host_from(y, (#[trigger] x[j]).0, 0) == Some(x[j].1),
        decreases a@.len() - i,
    {
        assert(x[i as int] == (a@[i as int].0@, views(a@[i as int].1@)));
        match host_addresses(b, &a[i].0) {
            Some(k) => if !same_addresses(&b[k].1, &a[i].1) {
                return false;
            },
            None => return false,
        }
        i += 1;
    }
    true
}

impl Config {
    pub fn same(&self, other: &Config) -> (r: bool)
        ensures
            r == same_config(self@, other@),
    {
        same_addresses(&self.servers, &other.servers) && domains_agree(&self.search, &other.search) && hosts_agree(
            &self.hosts,
            &other.hosts,
        ) && match (&self.control_security, &other.control_security) {
            (Some(a), Some(b)) => octets::equal(a.as_slice(), b.as_slice()),
            (None, None) => true,
            _ => false,
        }
    }
}

// What holds of a configuration.

proof fn lemma_host_place(h: Hosts, name: Labels, i: int)
    requires
        0 <= i <= h.len(),
    ensures
        i <= host_place(h, name, i) <= h.len(),
        host_place(h, name, i) < h.len() ==> same_name(h[host_place(h, name, i)].0, name),
        forall|j: int| i <= j < host_place(h, name, i) ==> !same_name((#[trigger] h[j]).0, name),
    decreases h.len() - i,
{
    if i < h.len() {
        lemma_host_place(h, name, i + 1);
    }
}

/// Each static name is there once, is not the root, and has an address.
pub proof fn law_hosts_are_distinct(v: Seq<(Seq<u8>, RegValueView)>)
    ensures
        forall|i: int, j: int|
            0 <= i < j < hosts_in(v).len() ==> !same_name((#[trigger] hosts_in(v)[i]).0, (#[trigger] hosts_in(v)[j]).0),
        forall|i: int|
            0 <= i < hosts_in(v).len() ==> (#[trigger] hosts_in(v)[i]).0.len() > 0 && hosts_in(v)[i].1.len() > 0,
    decreases v.len(),
{
    if v.len() > 0 {
        law_hosts_are_distinct(v.drop_last());
        let before = hosts_in(v.drop_last());
        let a = addresses_in(strings_of(v.last().1));
        if let Some(n) = host_name(v.last().0) {
            if a.len() > 0 {
                lemma_host_place(before, n, 0);
                let after = with_host(before, n, a);
                let p = host_place(before, n, 0);
                assert forall|i: int, j: int| 0 <= i < j < after.len() implies !same_name(
                    (#[trigger] after[i]).0,
                    (#[trigger] after[j]).0,
                ) by {
                    assert(after[i].0 == before[i].0);
                    if j < before.len() {
                        assert(after[j].0 == before[j].0);
                    }
                }
                assert forall|i: int| 0 <= i < after.len() implies (#[trigger] after[i]).0.len() > 0 && after[i].1.len()
                    > 0 by {
                    if i < before.len() {
                        assert(after[i].0 == before[i].0);
                    }
                }
            }
        }
    }
}

/// No search domain is the root.
pub proof fn law_search_domains_are_not_the_root(s: Seq<Seq<char>>)
    ensures
        forall|i: int| 0 <= i < domains_in(s).len() ==> (#[trigger] domains_in(s)[i]).len() > 0,
    decreases s.len(),
{
    if s.len() > 0 {
        law_search_domains_are_not_the_root(s.drop_last());
        let before = domains_in(s.drop_last());
        let all = domains_in(s);
        assert forall|i: int| 0 <= i < all.len() implies (#[trigger] all[i]).len() > 0 by {
            if i < before.len() {
                assert(all[i] == before[i]);
            }
        }
    }
}

} // verus!

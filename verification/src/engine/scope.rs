//! What the interfaces contribute, and which of them a name goes to.
//!
//! Every interface contributes a *scope*: servers, search domains, its
//! addresses, whether it claims unmatched names, whether it is exclusive.
//! A name goes to exactly one scope, never to everyone (the classic VPN
//! leak):
//!
//! 1. an exclusive scope, if any is up: it takes everything;
//! 2. the scope with the longest search domain the name ends with;
//! 3. a reverse name, to the scope whose subnet holds the address;
//! 4. the default-route claimant with the lowest metric, or where none claims,
//!    the scope with the lowest metric;
//! 5. the fallback servers, only when no interface supplies any.
use crate::addr::{is_loopback, IpAddr};
use crate::dns::name::{ends_with, reverse_address, same_name, wire_len, Labels};
use crate::dns::{Name, MAX_NAME_LEN};
use crate::octets;
use crate::protocol::views;
use crate::text::{opt_text, str_eq};
use vstd::prelude::*;
use vstd::slice::slice_subrange;

verus! {

/// How far an interface has come up.
#[derive(Debug, Clone, Copy, PartialEq, Eq, Structural)]
pub enum Level {
    Down,
    Link,
    Addressed,
    Routed,
}

impl Level {
    pub open spec fn rank(self) -> nat {
        match self {
            Level::Down => 0,
            Level::Link => 1,
            Level::Addressed => 2,
            Level::Routed => 3,
        }
    }

    /// Whether this is as far up as `other` or further.
    pub fn reaches(self, other: Level) -> (r: bool)
        ensures
            r == (self.rank() >= other.rank()),
    {
        match (self, other) {
            (_, Level::Down) => true,
            (Level::Down, _) => false,
            (_, Level::Link) => true,
            (Level::Link, _) => false,
            (_, Level::Addressed) => true,
            (Level::Addressed, _) => false,
            (Level::Routed, Level::Routed) => true,
        }
    }
}

/// What an interface contributes.
#[derive(Debug, PartialEq, Eq)]
pub struct Scope {
    pub id: String,
    pub interface: String,
    pub servers: Vec<IpAddr>,
    pub domains: Vec<Name>,
    pub addresses: Vec<(IpAddr, u8)>,
    pub default_route: bool,
    pub exclusive: bool,
    pub metric: u32,
    pub level: Level,
}

#[verifier::ext_equal]
pub struct ScopeView {
    pub id: Seq<char>,
    pub interface: Seq<char>,
    pub servers: Seq<Seq<u8>>,
    pub domains: Seq<Labels>,
    pub addresses: Seq<(Seq<u8>, u8)>,
    pub default_route: bool,
    pub exclusive: bool,
    pub metric: u32,
    pub level: Level,
}

pub open spec fn prefixes_view(s: Seq<(IpAddr, u8)>) -> Seq<(Seq<u8>, u8)> {
    Seq::new(s.len(), |i: int| (s[i].0@, s[i].1))
}

impl View for Scope {
    type V = ScopeView;

    open spec fn view(&self) -> ScopeView {
        ScopeView {
            id: self.id@,
            interface: self.interface@,
            servers: views(self.servers@),
            domains: views(self.domains@),
            addresses: prefixes_view(self.addresses@),
            default_route: self.default_route,
            exclusive: self.exclusive,
            metric: self.metric,
            level: self.level,
        }
    }
}

pub fn copy_names(v: &Vec<Name>) -> (r: Vec<Name>)
    ensures
        views(r@) == views(v@),
{
    let mut out: Vec<Name> = Vec::new();
    let mut i: usize = 0;
    while i < v.len()
        invariant
            i <= v@.len(),
            out@.len() == i,
            forall|j: int| 0 <= j < i ==> #[trigger] out@[j]@ == v@[j]@,
        decreases v@.len() - i,
    {
        out.push(v[i].clone());
        i += 1;
    }
    assert(views(out@) =~= views(v@));
    out
}

pub fn copy_addresses(v: &Vec<IpAddr>) -> (r: Vec<IpAddr>)
    ensures
        views(r@) == views(v@),
{
    let mut out: Vec<IpAddr> = Vec::new();
    let mut i: usize = 0;
    while i < v.len()
        invariant
            i <= v@.len(),
            out@.len() == i,
            forall|j: int| 0 <= j < i ==> #[trigger] out@[j]@ == v@[j]@,
        decreases v@.len() - i,
    {
        out.push(v[i]);
        i += 1;
    }
    assert(views(out@) =~= views(v@));
    out
}

impl Clone for Scope {
    fn clone(&self) -> (r: Scope)
        ensures
            r@ == self@,
    {
        let mut addresses: Vec<(IpAddr, u8)> = Vec::new();
        let mut i: usize = 0;
        while i < self.addresses.len()
            invariant
                i <= self.addresses@.len(),
                addresses@.len() == i,
                forall|j: int|
                    0 <= j < i ==> (#[trigger] addresses@[j]).0@ == self.addresses@[j].0@ && addresses@[j].1
                        == self.addresses@[j].1,
            decreases self.addresses@.len() - i,
        {
            let (a, prefix): (IpAddr, u8) = self.addresses[i];
            addresses.push((a, prefix));
            i += 1;
        }
        assert(prefixes_view(addresses@) =~= prefixes_view(self.addresses@));
        Scope {
            id: self.id.clone(),
            interface: self.interface.clone(),
            servers: copy_addresses(&self.servers),
            domains: copy_names(&self.domains),
            addresses,
            default_route: self.default_route,
            exclusive: self.exclusive,
            metric: self.metric,
            level: self.level,
        }
    }
}

// Subnets.

/// What divides a byte so that its first `n` bits are left.
pub open spec fn bits_divisor(n: int) -> int {
    if n == 1 {
        128
    } else if n == 2 {
        64
    } else if n == 3 {
        32
    } else if n == 4 {
        16
    } else if n == 5 {
        8
    } else if n == 6 {
        4
    } else {
        2
    }
}

/// Whether two addresses are of one family and agree in their first `prefix`
/// bits; a prefix longer than an address is the whole address.
pub open spec fn same_subnet(a: Seq<u8>, prefix: u8, b: Seq<u8>) -> bool {
    let bits = if prefix < 8 * a.len() {
        prefix as int
    } else {
        8 * a.len() as int
    };
    let whole = bits / 8;
    let rest = bits % 8;
    &&& a.len() == b.len()
    &&& a.take(whole) == b.take(whole)
    &&& rest > 0 ==> a[whole] as int / bits_divisor(rest) == b[whole] as int / bits_divisor(rest)
}

fn subnet_agrees(a: &IpAddr, prefix: u8, b: &IpAddr) -> (r: bool)
    ensures
        r == same_subnet(a@, prefix, b@),
{
    let x = a.to_octets();
    let y = b.to_octets();
    if x.len() != y.len() {
        return false;
    }
    let limit: usize = 8 * x.len();
    let bits: usize = if (prefix as usize) < limit {
        prefix as usize
    } else {
        limit
    };
    let whole: usize = bits / 8;
    let rest: usize = bits % 8;
    assert(x@.subrange(0, whole as int) =~= x@.take(whole as int));
    assert(y@.subrange(0, whole as int) =~= y@.take(whole as int));
    if !octets::equal(slice_subrange(x.as_slice(), 0, whole), slice_subrange(y.as_slice(), 0, whole)) {
        return false;
    }
    if rest == 0 {
        return true;
    }
    let divisor: u8 = if rest == 1 {
        128
    } else if rest == 2 {
        64
    } else if rest == 3 {
        32
    } else if rest == 4 {
        16
    } else if rest == 5 {
        8
    } else if rest == 6 {
        4
    } else {
        2
    };
    x[whole] / divisor == y[whole] / divisor
}

impl ScopeView {
    /// Whether one of the interface's subnets holds an address.
    pub open spec fn contains(self, a: Seq<u8>) -> bool {
        exists|i: int|
            0 <= i < self.addresses.len() && same_subnet((#[trigger] self.addresses[i]).0, self.addresses[i].1, a)
    }

    /// Whether the interface can be asked at all.
    pub open spec fn is_up(self) -> bool {
        self.level.rank() >= Level::Link.rank() && self.servers.len() > 0
    }
}

impl Scope {
    fn contains(&self, addr: &IpAddr) -> (r: bool)
        ensures
            r == self@.contains(addr@),
    {
        let mut i: usize = 0;
        while i < self.addresses.len()
            invariant
                i <= self.addresses@.len(),
                forall|j: int|
                    0 <= j < i ==> !same_subnet((#[trigger] self@.addresses[j]).0, self@.addresses[j].1, addr@),
            decreases self.addresses@.len() - i,
        {
            assert(self@.addresses[i as int] == (self.addresses@[i as int].0@, self.addresses@[i as int].1));
            if subnet_agrees(&self.addresses[i].0, self.addresses[i].1, addr) {
                return true;
            }
            i += 1;
        }
        false
    }

    fn is_up(&self) -> (r: bool)
        ensures
            r == self@.is_up(),
    {
        self.level.reaches(Level::Link) && self.servers.len() > 0
    }
}

// Claims.

/// What a scope may claim a name by, its search domains apart.
pub enum Claim {
    Exclusive,
    Holds(IpAddr),
    DefaultRoute,
    Any,
}

pub enum ClaimView {
    Exclusive,
    Holds(Seq<u8>),
    DefaultRoute,
    Any,
}

impl View for Claim {
    type V = ClaimView;

    open spec fn view(&self) -> ClaimView {
        match self {
            Claim::Exclusive => ClaimView::Exclusive,
            Claim::Holds(a) => ClaimView::Holds(a@),
            Claim::DefaultRoute => ClaimView::DefaultRoute,
            Claim::Any => ClaimView::Any,
        }
    }
}

impl ScopeView {
    /// Whether the scope has a claim.
    pub open spec fn claims(self, c: ClaimView) -> bool {
        self.is_up() && match c {
            ClaimView::Exclusive => self.exclusive && self.level.rank() >= Level::Addressed.rank(),
            ClaimView::Holds(a) => self.contains(a),
            ClaimView::DefaultRoute => self.default_route,
            ClaimView::Any => true,
        }
    }
}

impl Scope {
    fn claims(&self, c: &Claim) -> (r: bool)
        ensures
            r == self@.claims(c@),
    {
        self.is_up() && match c {
            Claim::Exclusive => self.exclusive && self.level.reaches(Level::Addressed),
            Claim::Holds(a) => self.contains(a),
            Claim::DefaultRoute => self.default_route,
            Claim::Any => true,
        }
    }
}

/// The first scope with a claim that has the lowest metric of those with it,
/// from `i` on.
pub open spec fn lowest_from(s: Seq<ScopeView>, c: ClaimView, i: int) -> Option<int>
    decreases s.len() - i,
{
    if i < 0 || i >= s.len() {
        None
    } else {
        let later = lowest_from(s, c, i + 1);
        if !s[i].claims(c) {
            later
        } else {
            match later {
                Some(j) => if s[i].metric <= s[j].metric {
                    Some(i)
                } else {
                    later
                },
                None => Some(i),
            }
        }
    }
}

pub open spec fn lowest(s: Seq<ScopeView>, c: ClaimView) -> Option<int> {
    lowest_from(s, c, 0)
}

pub open spec fn index_view(r: Option<usize>) -> Option<int> {
    match r {
        Some(i) => Some(i as int),
        None => None,
    }
}

fn lowest_scope(scopes: &Vec<Scope>, c: &Claim) -> (r: Option<usize>)
    ensures
        index_view(r) == lowest(views(scopes@), c@),
        r matches Some(i) ==> i < scopes@.len(),
{
    let ghost s = views(scopes@);
    let mut best: Option<usize> = None;
    let mut i: usize = scopes.len();
    while i > 0
        invariant
            i <= scopes@.len(),
            s == views(scopes@),
            index_view(best) == lowest_from(s, c@, i as int),
            best matches Some(j) ==> j < scopes@.len(),
        decreases i,
    {
        i -= 1;
        assert(s[i as int] == scopes@[i as int]@);
        if scopes[i].claims(c) {
            let better = match best {
                Some(j) => {
                    assert(s[j as int] == scopes@[j as int]@);
                    scopes[i].metric <= scopes[j].metric
                },
                None => true,
            };
            if better {
                best = Some(i);
            }
        }
    }
    best
}

/// The labels of the longest of the domains, from `i` on, that a name ends
/// with.
pub open spec fn longest_from(d: Seq<Labels>, name: Labels, i: int) -> Option<nat>
    decreases d.len() - i,
{
    if i < 0 || i >= d.len() {
        None
    } else {
        let later = longest_from(d, name, i + 1);
        if !ends_with(name, d[i]) {
            later
        } else {
            match later {
                Some(n) => if d[i].len() >= n {
                    Some(d[i].len())
                } else {
                    later
                },
                None => Some(d[i].len()),
            }
        }
    }
}

pub open spec fn longest(d: Seq<Labels>, name: Labels) -> Option<nat> {
    longest_from(d, name, 0)
}

pub open spec fn count_view(r: Option<usize>) -> Option<nat> {
    match r {
        Some(i) => Some(i as nat),
        None => None,
    }
}

fn longest_domain(domains: &Vec<Name>, name: &Name) -> (r: Option<usize>)
    ensures
        count_view(r) == longest(views(domains@), name@),
{
    let ghost d = views(domains@);
    let mut best: Option<usize> = None;
    let mut i: usize = domains.len();
    while i > 0
        invariant
            i <= domains@.len(),
            d == views(domains@),
            count_view(best) == longest_from(d, name@, i as int),
        decreases i,
    {
        i -= 1;
        assert(d[i as int] == domains@[i as int]@);
        if name.ends_with(&domains[i]) {
            let n: usize = domains[i].label_count();
            let better = match best {
                Some(m) => n >= m,
                None => true,
            };
            if better {
                best = Some(n);
            }
        }
    }
    best
}

/// The first scope, from `i` on, with the longest search domain that a name
/// ends with, and of several the lowest metric.
pub open spec fn match_from(s: Seq<ScopeView>, name: Labels, i: int) -> Option<int>
    decreases s.len() - i,
{
    if i < 0 || i >= s.len() {
        None
    } else {
        let later = match_from(s, name, i + 1);
        match longest(s[i].domains, name) {
            Some(n) => if !s[i].is_up() {
                later
            } else {
                match later {
                    Some(j) => {
                        let m = longest(s[j].domains, name)->0;
                        if n > m || (n == m && s[i].metric <= s[j].metric) {
                            Some(i)
                        } else {
                            later
                        }
                    },
                    None => Some(i),
                }
            },
            None => later,
        }
    }
}

pub open spec fn best_match(s: Seq<ScopeView>, name: Labels) -> Option<int> {
    match_from(s, name, 0)
}

fn matching_scope(scopes: &Vec<Scope>, name: &Name) -> (r: Option<usize>)
    ensures
        index_view(r) == best_match(views(scopes@), name@),
        r matches Some(i) ==> i < scopes@.len(),
{
    let ghost s = views(scopes@);
    let mut best: Option<(usize, usize)> = None;
    let mut i: usize = scopes.len();
    while i > 0
        invariant
            i <= scopes@.len(),
            s == views(scopes@),
            match best {
                Some((j, m)) => match_from(s, name@, i as int) == Some(j as int) && j < scopes@.len() && longest(
                    s[j as int].domains,
                    name@,
                ) == Some(m as nat),
                None => match_from(s, name@, i as int) is None,
            },
        decreases i,
    {
        i -= 1;
        assert(s[i as int] == scopes@[i as int]@);
        let here = longest_domain(&scopes[i].domains, name);
        if let Some(n) = here {
            if scopes[i].is_up() {
                let better = match best {
                    Some((j, m)) => {
                        assert(s[j as int] == scopes@[j as int]@);
                        n > m || (n == m && scopes[i].metric <= scopes[j].metric)
                    },
                    None => true,
                };
                if better {
                    best = Some((i, n));
                }
            }
        }
    }
    match best {
        Some((j, _)) => Some(j),
        None => None,
    }
}

/// The name of the scope that is the fallback servers.
pub const FALLBACK_SCOPE: &'static str = "fallback";

/// The scope a name goes to, or nothing when nothing could answer.
pub open spec fn route(s: Seq<ScopeView>, fallback: Seq<Seq<u8>>, name: Labels) -> Option<Seq<char>> {
    if let Some(i) = lowest(s, ClaimView::Exclusive) {
        Some(s[i].id)
    } else if let Some(i) = best_match(s, name) {
        Some(s[i].id)
    } else if let Some(i) = holder(s, name) {
        Some(s[i].id)
    } else if let Some(i) = lowest(s, ClaimView::DefaultRoute) {
        Some(s[i].id)
    } else if let Some(i) = lowest(s, ClaimView::Any) {
        Some(s[i].id)
    } else if fallback.len() > 0 {
        Some(FALLBACK_SCOPE@)
    } else {
        None
    }
}

/// The scope whose subnet holds the address that a reverse name denotes.
pub open spec fn holder(s: Seq<ScopeView>, name: Labels) -> Option<int> {
    match reverse_address(name) {
        Some(a) => lowest(s, ClaimView::Holds(a)),
        None => None,
    }
}

pub fn route_name(scopes: &Vec<Scope>, fallback: &Vec<IpAddr>, name: &Name) -> (r: Option<String>)
    ensures
        opt_text(r) == route(views(scopes@), views(fallback@), name@),
{
    let ghost s = views(scopes@);
    if let Some(i) = lowest_scope(scopes, &Claim::Exclusive) {
        assert(s[i as int] == scopes@[i as int]@);
        return Some(scopes[i].id.clone());
    }
    if let Some(i) = matching_scope(scopes, name) {
        assert(s[i as int] == scopes@[i as int]@);
        return Some(scopes[i].id.clone());
    }
    if let Some(a) = name.reverse_address() {
        if let Some(i) = lowest_scope(scopes, &Claim::Holds(a)) {
            assert(s[i as int] == scopes@[i as int]@);
            return Some(scopes[i].id.clone());
        }
    }
    if let Some(i) = lowest_scope(scopes, &Claim::DefaultRoute) {
        assert(s[i as int] == scopes@[i as int]@);
        return Some(scopes[i].id.clone());
    }
    if let Some(i) = lowest_scope(scopes, &Claim::Any) {
        assert(s[i as int] == scopes@[i as int]@);
        return Some(scopes[i].id.clone());
    }
    if fallback.len() > 0 {
        return Some(FALLBACK_SCOPE.to_owned());
    }
    None
}

// Scopes by their ids.

/// The first scope with an id, from `i` on.
pub open spec fn named_from(s: Seq<ScopeView>, id: Seq<char>, i: int) -> Option<int>
    decreases s.len() - i,
{
    if i < 0 || i >= s.len() {
        None
    } else if s[i].id == id {
        Some(i)
    } else {
        named_from(s, id, i + 1)
    }
}

pub open spec fn named(s: Seq<ScopeView>, id: Seq<char>) -> Option<int> {
    named_from(s, id, 0)
}

pub fn named_scope(scopes: &Vec<Scope>, id: &str) -> (r: Option<usize>)
    ensures
        index_view(r) == named(views(scopes@), id@),
        r matches Some(i) ==> i < scopes@.len(),
{
    let ghost s = views(scopes@);
    let mut i: usize = 0;
    while i < scopes.len()
        invariant
            i <= scopes@.len(),
            s == views(scopes@),
            named(s, id@) == named_from(s, id@, i as int),
        decreases scopes@.len() - i,
    {
        assert(s[i as int] == scopes@[i as int]@);
        if str_eq(scopes[i].id.as_str(), id) {
            return Some(i);
        }
        i += 1;
    }
    None
}

/// The interface that a scope belongs to.
pub open spec fn interface_of(s: Seq<ScopeView>, id: Seq<char>) -> Option<Seq<char>> {
    match named(s, id) {
        Some(i) => Some(s[i].interface),
        None => None,
    }
}

pub fn interface_name(scopes: &Vec<Scope>, id: &str) -> (r: Option<String>)
    ensures
        opt_text(r) == interface_of(views(scopes@), id@),
{
    match named_scope(scopes, id) {
        Some(i) => {
            assert(views(scopes@)[i as int] == scopes@[i as int]@);
            Some(scopes[i].interface.clone())
        },
        None => None,
    }
}

/// The servers of a scope, the fallback servers being one of their own.
pub open spec fn servers_of(s: Seq<ScopeView>, fallback: Seq<Seq<u8>>, id: Seq<char>) -> Seq<Seq<u8>> {
    if id == FALLBACK_SCOPE@ {
        fallback
    } else {
        match named(s, id) {
            Some(i) => s[i].servers,
            None => Seq::empty(),
        }
    }
}

pub fn scope_servers(scopes: &Vec<Scope>, fallback: &Vec<IpAddr>, id: &str) -> (r: Vec<IpAddr>)
    ensures
        views(r@) == servers_of(views(scopes@), views(fallback@), id@),
{
    if str_eq(id, FALLBACK_SCOPE) {
        return copy_addresses(fallback);
    }
    match named_scope(scopes, id) {
        Some(i) => {
            assert(views(scopes@)[i as int] == scopes@[i as int]@);
            copy_addresses(&scopes[i].servers)
        },
        None => {
            let none: Vec<IpAddr> = Vec::new();
            assert(views(none@) =~= Seq::empty());
            none
        },
    }
}

// Search domains.

/// A scope put behind those whose metric is no higher.
pub open spec fn by_metric_with(s: Seq<ScopeView>, x: ScopeView) -> Seq<ScopeView>
    decreases s.len(),
{
    if s.len() == 0 {
        seq![x]
    } else if s.last().metric <= x.metric {
        s.push(x)
    } else {
        by_metric_with(s.drop_last(), x).push(s.last())
    }
}

/// The scopes that are up, lowest metric first and otherwise in their order.
pub open spec fn by_metric(s: Seq<ScopeView>) -> Seq<ScopeView>
    decreases s.len(),
{
    if s.len() == 0 {
        Seq::empty()
    } else if s.last().is_up() {
        by_metric_with(by_metric(s.drop_last()), s.last())
    } else {
        by_metric(s.drop_last())
    }
}

/// The search domains of scopes, one scope after the other.
pub open spec fn all_domains(s: Seq<ScopeView>) -> Seq<Labels>
    decreases s.len(),
{
    if s.len() == 0 {
        Seq::empty()
    } else {
        all_domains(s.drop_last()) + s.last().domains
    }
}

/// The search domains that apply: the exclusive scope's, or else those of all
/// that are up and then the fallback's.
pub open spec fn search_domains(s: Seq<ScopeView>, fallback: Seq<Labels>) -> Seq<Labels> {
    match lowest(s, ClaimView::Exclusive) {
        Some(i) => s[i].domains,
        None => all_domains(by_metric(s)) + fallback,
    }
}

pub open spec fn has_name(s: Seq<Labels>, n: Labels) -> bool {
    exists|i: int| 0 <= i < s.len() && same_name(#[trigger] s[i], n)
}

/// A name under each of the domains, where that is a name and not there yet.
pub open spec fn expanded(name: Labels, domains: Seq<Labels>) -> Seq<Labels>
    decreases domains.len(),
{
    if domains.len() == 0 {
        Seq::empty()
    } else {
        let before = expanded(name, domains.drop_last());
        let full = name + domains.last();
        if wire_len(full) > MAX_NAME_LEN || has_name(before, full) {
            before
        } else {
            before.push(full)
        }
    }
}

/// The names to try, in order. A single label is expanded with the search
/// domains and never tried bare; any other name is tried as it is.
pub open spec fn candidates(s: Seq<ScopeView>, fallback: Seq<Labels>, name: Labels) -> Seq<Labels> {
    if name.len() != 1 {
        seq![name]
    } else {
        expanded(name, search_domains(s, fallback))
    }
}

/// The scopes at places.
spec fn at_places(s: Seq<ScopeView>, places: Seq<usize>) -> Seq<ScopeView> {
    Seq::new(places.len(), |i: int| s[places[i] as int])
}

fn places_by_metric(scopes: &Vec<Scope>) -> (r: Vec<usize>)
    ensures
        at_places(views(scopes@), r@) == by_metric(views(scopes@)),
        forall|i: int| 0 <= i < r@.len() ==> #[trigger] r@[i] < scopes@.len(),
{
    let ghost s = views(scopes@);
    let mut places: Vec<usize> = Vec::new();
    let mut i: usize = 0;
    assert(at_places(s, places@) =~= by_metric(s.take(0)));
    while i < scopes.len()
        invariant
            i <= scopes@.len(),
            s == views(scopes@),
            at_places(s, places@) == by_metric(s.take(i as int)),
            forall|k: int| 0 <= k < places@.len() ==> #[trigger] places@[k] < scopes@.len(),
        decreases scopes@.len() - i,
    {
        assert(s.take(i + 1).drop_last() =~= s.take(i as int));
        assert(s[i as int] == scopes@[i as int]@);
        if scopes[i].is_up() {
            let ghost before = places@;
            let mut p: usize = places.len();
            proof {
                let whole = by_metric_with(at_places(s, before), s[i as int]);
                assert(before.take(p as int) =~= before);
                assert(before.skip(p as int) =~= Seq::empty());
                assert(whole + at_places(s, Seq::empty()) =~= whole);
            }
            while p > 0 && scopes[places[p - 1]].metric > scopes[i].metric
                invariant
                    p <= places@.len(),
                    i < scopes@.len(),
                    places@ == before,
                    s == views(scopes@),
                    forall|k: int| 0 <= k < places@.len() ==> #[trigger] places@[k] < scopes@.len(),
                    by_metric_with(at_places(s, before), s[i as int]) == by_metric_with(
                        at_places(s, before.take(p as int)),
                        s[i as int],
                    ) + at_places(s, before.skip(p as int)),
                decreases p,
            {
                proof {
                    let t = at_places(s, before.take(p as int));
                    assert(t.drop_last() =~= at_places(s, before.take(p - 1)));
                    assert(t.last() == s[before[p - 1] as int]);
                    assert(s[before[p - 1] as int] == scopes@[before[p - 1] as int]@);
                    assert(s[i as int] == scopes@[i as int]@);
                    assert(by_metric_with(at_places(s, before.take(p - 1)), s[i as int]).push(t.last()) + at_places(
                        s,
                        before.skip(p as int),
                    ) =~= by_metric_with(at_places(s, before.take(p - 1)), s[i as int]) + at_places(
                        s,
                        before.skip(p - 1),
                    ));
                }
                p -= 1;
            }
            proof {
                let t = at_places(s, before.take(p as int));
                if p > 0 {
                    assert(t.last() == s[before[p - 1] as int]);
                    assert(s[before[p - 1] as int] == scopes@[before[p - 1] as int]@);
                } else {
                    assert(t =~= Seq::empty());
                }
                assert(by_metric_with(t, s[i as int]) =~= t.push(s[i as int]));
            }
            places.insert(p, i);
            assert(at_places(s, places@) =~= at_places(s, before.take(p as int)).push(s[i as int]) + at_places(
                s,
                before.skip(p as int),
            ));
        }
        i += 1;
    }
    assert(s.take(i as int) =~= s);
    places
}

fn push_names(out: &mut Vec<Name>, names: &Vec<Name>)
    ensures
        views(final(out)@) == views(old(out)@) + views(names@),
{
    let mut more = copy_names(names);
    let ghost before = views(out@);
    let ghost b = more@;
    out.append(&mut more);
    assert(views(out@) =~= before + views(b));
}

fn domains_to_search(scopes: &Vec<Scope>, fallback: &Vec<Name>) -> (r: Vec<Name>)
    ensures
        views(r@) == search_domains(views(scopes@), views(fallback@)),
{
    let ghost s = views(scopes@);
    if let Some(i) = lowest_scope(scopes, &Claim::Exclusive) {
        assert(s[i as int] == scopes@[i as int]@);
        return copy_names(&scopes[i].domains);
    }
    let places = places_by_metric(scopes);
    let ghost order = by_metric(s);
    let mut out: Vec<Name> = Vec::new();
    let mut i: usize = 0;
    assert(views(out@) =~= all_domains(order.take(0)));
    while i < places.len()
        invariant
            i <= places@.len(),
            s == views(scopes@),
            order == at_places(s, places@),
            forall|k: int| 0 <= k < places@.len() ==> #[trigger] places@[k] < scopes@.len(),
            views(out@) == all_domains(order.take(i as int)),
        decreases places@.len() - i,
    {
        assert(order.take(i + 1).drop_last() =~= order.take(i as int));
        let p: usize = places[i];
        assert(s[p as int] == scopes@[p as int]@);
        push_names(&mut out, &scopes[p].domains);
        i += 1;
    }
    assert(order.take(i as int) =~= order);
    push_names(&mut out, fallback);
    out
}

fn contains_name(names: &Vec<Name>, n: &Name) -> (r: bool)
    ensures
        r == has_name(views(names@), n@),
{
    let mut i: usize = 0;
    while i < names.len()
        invariant
            i <= names@.len(),
            forall|j: int| 0 <= j < i ==> !same_name(#[trigger] views(names@)[j], n@),
        decreases names@.len() - i,
    {
        assert(views(names@)[i as int] == names@[i as int]@);
        if names[i] == *n {
            return true;
        }
        i += 1;
    }
    false
}

pub fn candidate_names(scopes: &Vec<Scope>, fallback: &Vec<Name>, name: &Name) -> (r: Vec<Name>)
    ensures
        views(r@) == candidates(views(scopes@), views(fallback@), name@),
{
    let mut out: Vec<Name> = Vec::new();
    if name.label_count() != 1 {
        out.push(name.clone());
        assert(views(out@) =~= seq![name@]);
        return out;
    }
    let domains = domains_to_search(scopes, fallback);
    let ghost d = views(domains@);
    let mut i: usize = 0;
    assert(views(out@) =~= expanded(name@, d.take(0)));
    while i < domains.len()
        invariant
            i <= domains@.len(),
            d == views(domains@),
            views(out@) == expanded(name@, d.take(i as int)),
        decreases domains@.len() - i,
    {
        assert(d.take(i + 1).drop_last() =~= d.take(i as int));
        assert(d[i as int] == domains@[i as int]@);
        match name.join(&domains[i]) {
            Ok(full) => {
                full.checked();
                if !contains_name(&out, &full) {
                    let ghost before = views(out@);
                    out.push(full);
                    assert(views(out@) =~= before.push(full@));
                }
            },
            Err(_) => {},
        }
        i += 1;
    }
    assert(d.take(i as int) =~= d);
    out
}

// The machine's own addresses.

/// The addresses of one interface that are not loopback.
pub open spec fn outer_addresses(a: Seq<(Seq<u8>, u8)>) -> Seq<Seq<u8>>
    decreases a.len(),
{
    if a.len() == 0 {
        Seq::empty()
    } else if is_loopback(a.last().0) {
        outer_addresses(a.drop_last())
    } else {
        outer_addresses(a.drop_last()).push(a.last().0)
    }
}

/// The addresses of all interfaces that have come up as far as addresses.
pub open spec fn all_addresses(s: Seq<ScopeView>) -> Seq<Seq<u8>>
    decreases s.len(),
{
    if s.len() == 0 {
        Seq::empty()
    } else if s.last().level.rank() >= Level::Addressed.rank() {
        all_addresses(s.drop_last()) + outer_addresses(s.last().addresses)
    } else {
        all_addresses(s.drop_last())
    }
}

/// A sequence without what repeats the item before it.
pub open spec fn unrepeated(a: Seq<Seq<u8>>) -> Seq<Seq<u8>>
    decreases a.len(),
{
    if a.len() == 0 {
        Seq::empty()
    } else if a.len() > 1 && a.last() == a[a.len() - 2] {
        unrepeated(a.drop_last())
    } else {
        unrepeated(a.drop_last()).push(a.last())
    }
}

pub open spec fn own_addresses(s: Seq<ScopeView>) -> Seq<Seq<u8>> {
    unrepeated(all_addresses(s))
}

fn push_outer(out: &mut Vec<IpAddr>, addresses: &Vec<(IpAddr, u8)>)
    ensures
        views(final(out)@) == views(old(out)@) + outer_addresses(prefixes_view(addresses@)),
{
    let ghost a = prefixes_view(addresses@);
    let ghost start = views(out@);
    let mut i: usize = 0;
    assert(views(out@) =~= start + outer_addresses(a.take(0)));
    while i < addresses.len()
        invariant
            i <= addresses@.len(),
            a == prefixes_view(addresses@),
            views(out@) == start + outer_addresses(a.take(i as int)),
        decreases addresses@.len() - i,
    {
        assert(a.take(i + 1).drop_last() =~= a.take(i as int));
        let address = addresses[i].0;
        let ghost before = views(out@);
        if !address.is_loopback() {
            out.push(address);
            assert(views(out@) =~= before.push(address@));
        }
        assert(views(out@) =~= start + outer_addresses(a.take(i + 1)));
        i += 1;
    }
    assert(a.take(i as int) =~= a);
}

pub fn machine_addresses(scopes: &Vec<Scope>) -> (r: Vec<IpAddr>)
    ensures
        views(r@) == own_addresses(views(scopes@)),
{
    let ghost s = views(scopes@);
    let mut all: Vec<IpAddr> = Vec::new();
    let mut i: usize = 0;
    assert(views(all@) =~= all_addresses(s.take(0)));
    while i < scopes.len()
        invariant
            i <= scopes@.len(),
            s == views(scopes@),
            views(all@) == all_addresses(s.take(i as int)),
        decreases scopes@.len() - i,
    {
        assert(s.take(i + 1).drop_last() =~= s.take(i as int));
        assert(s[i as int] == scopes@[i as int]@);
        if scopes[i].level.reaches(Level::Addressed) {
            push_outer(&mut all, &scopes[i].addresses);
        }
        i += 1;
    }
    assert(s.take(i as int) =~= s);
    let ghost a = views(all@);
    let mut out: Vec<IpAddr> = Vec::new();
    let mut k: usize = 0;
    assert(views(out@) =~= unrepeated(a.take(0)));
    while k < all.len()
        invariant
            k <= all@.len(),
            a == views(all@),
            views(out@) == unrepeated(a.take(k as int)),
        decreases all@.len() - k,
    {
        assert(a.take(k + 1).drop_last() =~= a.take(k as int));
        assert(a[k as int] == all@[k as int]@);
        let ghost before = views(out@);
        if k == 0 || !all[k].same(&all[k - 1]) {
            assert(k > 0 ==> a[k - 1] == all@[k - 1]@);
            out.push(all[k]);
            assert(views(out@) =~= before.push(a[k as int]));
        } else {
            assert(a[k - 1] == all@[k - 1]@);
        }
        k += 1;
    }
    assert(a.take(k as int) =~= a);
    out
}

} // verus!

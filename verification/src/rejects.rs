//! What is malformed in the registry, so that it can be told to whoever wrote
//! it. Nothing of it is used: see [`config::load`](crate::config::load).
use crate::addr::{ip_of_text, IpAddr};
use crate::config::{
    addresses_in, all_strings, domains_in, multi, named_values, read_multi, strings_of, RegValueView, Values,
    ValuesView,
};
use crate::dns::name::name_of_text;
use crate::dns::Name;
use crate::protocol::texts;
use crate::text::{trim, trimmed, utf8_string, utf8_text};
use vstd::prelude::*;
use vstd::utf8::*;

verus! {

/// Where a string was that is not used, and what it should have been.
#[derive(Debug, Clone, Copy, PartialEq, Eq, Structural)]
pub enum Place {
    /// An address in `FallbackServers`.
    Server,
    /// A domain other than the root in `ExtraSearchDomains`.
    Domain,
    /// The name of a value under `Hosts`.
    HostName,
    /// An address of a host.
    HostAddress,
}

pub type Rejects = Seq<(Place, Seq<char>)>;

pub open spec fn rejects_view(v: Seq<(Place, String)>) -> Rejects {
    Seq::new(v.len(), |i: int| (v[i].0, v[i].1@))
}

/// The strings that are no addresses.
pub open spec fn bad_addresses(s: Seq<Seq<char>>, place: Place) -> Rejects
    decreases s.len(),
{
    if s.len() == 0 {
        Seq::empty()
    } else {
        let before = bad_addresses(s.drop_last(), place);
        if ip_of_text(encode_utf8(trimmed(s.last()))) is None {
            before.push((place, s.last()))
        } else {
            before
        }
    }
}

/// The strings that are no domains, or the root.
pub open spec fn bad_domains(s: Seq<Seq<char>>) -> Rejects
    decreases s.len(),
{
    if s.len() == 0 {
        Seq::empty()
    } else {
        let before = bad_domains(s.drop_last());
        if name_of_text(encode_utf8(s.last())) matches Ok(n) && n.len() > 0 {
            before
        } else {
            before.push((Place::Domain, s.last()))
        }
    }
}

/// What is malformed in a host's value: its name, or else its addresses. A name
/// that is no text and the root are passed over.
pub open spec fn bad_host(name: Seq<u8>, value: RegValueView) -> Rejects {
    match utf8_text(name) {
        None => Seq::empty(),
        Some(t) => match name_of_text(encode_utf8(t)) {
            Err(_) => seq![(Place::HostName, t)],
            Ok(n) => if n.len() > 0 {
                bad_addresses(strings_of(value), Place::HostAddress)
            } else {
                Seq::empty()
            },
        },
    }
}

pub open spec fn bad_hosts(v: Seq<(Seq<u8>, RegValueView)>) -> Rejects
    decreases v.len(),
{
    if v.len() == 0 {
        Seq::empty()
    } else {
        bad_hosts(v.drop_last()) + bad_host(v.last().0, v.last().1)
    }
}

/// Everything that is malformed, in the order in which it is read.
pub open spec fn rejects_in(v: ValuesView) -> Rejects {
    bad_addresses(all_strings(v.fallback_servers), Place::Server) + bad_domains(all_strings(v.extra_search_domains))
        + bad_hosts(v.hosts)
}

fn put(out: &mut Vec<(Place, String)>, place: Place, s: &String)
    ensures
        rejects_view(final(out)@) == rejects_view(old(out)@).push((place, s@)),
{
    let ghost before = rejects_view(out@);
    out.push((place, s.clone()));
    assert(rejects_view(out@) =~= before.push((place, s@)));
}

fn put_addresses(out: &mut Vec<(Place, String)>, strings: &Vec<String>, place: Place)
    ensures
        rejects_view(final(out)@) == rejects_view(old(out)@) + bad_addresses(texts(strings@), place),
{
    let ghost s = texts(strings@);
    let ghost start = rejects_view(out@);
    let mut i: usize = 0;
    assert(start =~= start + bad_addresses(s.take(0), place));
    while i < strings.len()
        invariant
            i <= strings@.len(),
            s == texts(strings@),
            rejects_view(out@) == start + bad_addresses(s.take(i as int), place),
        decreases strings@.len() - i,
    {
        assert(s.take(i + 1).drop_last() =~= s.take(i as int));
        assert(s[i as int] == strings@[i as int]@);
        let ghost before = bad_addresses(s.take(i as int), place);
        if IpAddr::parse(trim(strings[i].as_str())).is_none() {
            put(out, place, &strings[i]);
            assert((start + before).push((place, s[i as int])) =~= start + before.push((place, s[i as int])));
        }
        i += 1;
    }
    assert(s.take(i as int) =~= s);
}

fn put_domains(out: &mut Vec<(Place, String)>, strings: &Vec<String>)
    ensures
        rejects_view(final(out)@) == rejects_view(old(out)@) + bad_domains(texts(strings@)),
{
    let ghost s = texts(strings@);
    let ghost start = rejects_view(out@);
    let mut i: usize = 0;
    assert(start =~= start + bad_domains(s.take(0)));
    while i < strings.len()
        invariant
            i <= strings@.len(),
            s == texts(strings@),
            rejects_view(out@) == start + bad_domains(s.take(i as int)),
        decreases strings@.len() - i,
    {
        assert(s.take(i + 1).drop_last() =~= s.take(i as int));
        assert(s[i as int] == strings@[i as int]@);
        let ghost before = bad_domains(s.take(i as int));
        let good: bool = match Name::parse(strings[i].as_str()) {
            Ok(n) => !n.is_root(),
            Err(_) => false,
        };
        if !good {
            put(out, Place::Domain, &strings[i]);
            assert((start + before).push((Place::Domain, s[i as int])) =~= start + before.push(
                (Place::Domain, s[i as int]),
            ));
        }
        i += 1;
    }
    assert(s.take(i as int) =~= s);
}

/// The strings that [`load`](crate::config::load) does not use for what they
/// are.
pub fn rejects(values: &Values) -> (r: Vec<(Place, String)>)
    ensures
        rejects_view(r@) == rejects_in(values@),
{
    let mut out: Vec<(Place, String)> = Vec::new();
    assert(rejects_view(out@) =~= Seq::empty());
    put_addresses(&mut out, &read_multi(&values.fallback_servers), Place::Server);
    put_domains(&mut out, &read_multi(&values.extra_search_domains));
    let ghost start = rejects_view(out@);
    assert(start =~= bad_addresses(all_strings(values@.fallback_servers), Place::Server) + bad_domains(
        all_strings(values@.extra_search_domains),
    ));
    let ghost all = named_values(values.hosts@);
    let mut i: usize = 0;
    assert(start =~= start + bad_hosts(all.take(0)));
    while i < values.hosts.len()
        invariant
            i <= values.hosts@.len(),
            all == named_values(values.hosts@),
            rejects_view(out@) == start + bad_hosts(all.take(i as int)),
        decreases values.hosts@.len() - i,
    {
        assert(all.take(i + 1).drop_last() =~= all.take(i as int));
        let (name, value) = &values.hosts[i];
        assert(all[i as int] == (name@, value@));
        let ghost before = rejects_view(out@);
        if let Some(text) = utf8_string(name.as_slice()) {
            match Name::parse(text.as_str()) {
                Err(_) => put(&mut out, Place::HostName, &text),
                Ok(n) => {
                    if !n.is_root() {
                        put_addresses(&mut out, &multi(value), Place::HostAddress);
                    }
                },
            }
        }
        assert(rejects_view(out@) =~= before + bad_host(name@, value@));
        assert(before + bad_host(name@, value@) =~= start + bad_hosts(all.take(i + 1)));
        i += 1;
    }
    assert(all.take(i as int) =~= all);
    out
}

/// Every string is used or rejected.
pub proof fn law_nothing_is_dropped_in_silence(s: Seq<Seq<char>>, place: Place)
    ensures
        addresses_in(s).len() + bad_addresses(s, place).len() == s.len(),
        domains_in(s).len() + bad_domains(s).len() == s.len(),
    decreases s.len(),
{
    if s.len() > 0 {
        law_nothing_is_dropped_in_silence(s.drop_last(), place);
    }
}

} // verus!

//! What people are told: what commands ask and print, what the settings got wrong,
//! and what a probe sends.
use crate::addr::{ip_of_text, ip_text};
use crate::cli::{
    address_lines, command_of, counters_text, finished, flags_text, joined, labelled, lookup_text, name_lines,
    outcome_exit, query_text, record_lines, reverse_text, scope_text, scopes_text, server_lines, started, status_text,
    unflagged, CommandView, StartView,
};
use crate::config::RegValueView;
use crate::dns::layout::{label_bytes, two};
use crate::dns::name::name_of_text;
use crate::dns::rcode::rcode_text;
use crate::dns::rtype::{law_rtype_text, rtype_of_upper, rtype_text};
use crate::native_layout::{outcome_word, validation_word};
use crate::nss::undotted;
use crate::octets::split;
use crate::probe::{labels_bytes, raw_query};
use crate::protocol::{
    AddressOutView, AddressesView, AnswerView, Ask, Counters, Family, Outcome, RecordOutView, ReplyView,
    ScopeStatusView, StatusReportView,
};
use crate::rejects::{bad_addresses, bad_domains, bad_host, bad_hosts, Place};
use crate::text::{chars, dec, trimmed, upper};
use vstd::prelude::*;
use vstd::utf8::*;

verus! {

// Commands.

/// The flag may stand anywhere, and the other words are taken in order.
pub proof fn law_flags_stand_anywhere(args: Seq<Seq<char>>)
    ensures
        unflagged(args) == args.filter(|a: Seq<char>| a != "--no-cache"@),
    decreases args.len(),
{
    reveal(Seq::filter);
    if args.len() > 0 {
        law_flags_stand_anywhere(args.drop_last());
        assert(args =~= args.drop_last().push(args.last()));
    }
}

/// What each command asks the resolver: what its words say, for records of type A
/// where they name no type, and for both families of addresses.
pub proof fn law_commands_ask(args: Seq<Seq<char>>)
    ensures
        ({
            let a = args.filter(|x: Seq<char>| x != "--no-cache"@);
            let asked = started(command_of(args));
            let fresh = args.contains("--no-cache"@);
            &&& a.len() == 1 && a[0] == "status"@ ==> asked == StartView::Ask(Ask::Status)
            &&& a.len() == 1 && a[0] == "flush"@ ==> asked == StartView::Ask(Ask::Flush)
            &&& a.len() == 2 && a[0] == "query"@ ==> asked == StartView::Ask(
                Ask::Resolve { name: a[1], rtype: 1, no_cache: fresh },
            )
            &&& a.len() == 3 && a[0] == "query"@ ==> match rtype_of_upper(upper(encode_utf8(a[2]))) {
                Some(t) => asked == StartView::Ask(Ask::Resolve { name: a[1], rtype: t, no_cache: fresh }),
                None => asked matches StartView::End(r) && r.code == 1 && r.out.len() == 0,
            }
            &&& a.len() == 2 && a[0] == "lookup"@ ==> asked == StartView::Ask(
                Ask::Lookup { name: a[1], family: Family::Any },
            )
            &&& a.len() == 2 && a[0] == "reverse"@ ==> match ip_of_text(
                encode_utf8(a[1]),
            ) {
                Some(x) => asked == StartView::Ask(Ask::Reverse { address: x }),
                None => asked matches StartView::End(r) && r.code == 1 && r.out.len() == 0,
            }
            &&& a.len() == 0 || a.len() > 3 ==> (asked matches StartView::End(r) && r.code == 64 && r.out.len() == 0)
        }),
{
    law_flags_stand_anywhere(args);
    law_rtype_text(1);
    reveal_strlit("status");
    reveal_strlit("flush");
    reveal_strlit("query");
    reveal_strlit("lookup");
    reveal_strlit("reverse");
    assert("status"@.len() == 6 && "flush"@.len() == 5 && "query"@.len() == 5);
    assert("lookup"@.len() == 6 && "reverse"@.len() == 7);
}

/// A command ends with 0 where something was found or done, with 2 where there is
/// no such name, with 3 where nothing could answer, and with 1 where it failed.
pub proof fn law_exit_codes(c: CommandView, a: AnswerView, b: AddressesView, s: StatusReportView, e: Seq<char>)
    ensures
        outcome_exit(Outcome::Found) == 0,
        outcome_exit(Outcome::NotFound) == 2,
        outcome_exit(Outcome::Unavailable) == 3,
        c is Query ==> finished(c, Ok(ReplyView::Answer(a))).code == outcome_exit(a.outcome) && finished(
            c,
            Ok(ReplyView::Answer(a)),
        ).out == query_text(a),
        c is Reverse ==> finished(c, Ok(ReplyView::Answer(a))).code == outcome_exit(a.outcome) && finished(
            c,
            Ok(ReplyView::Answer(a)),
        ).out == reverse_text(a),
        c is Lookup ==> finished(c, Ok(ReplyView::Addresses(b))).code == outcome_exit(b.outcome) && finished(
            c,
            Ok(ReplyView::Addresses(b)),
        ).out == lookup_text(b),
        c is Status ==> finished(c, Ok(ReplyView::Status(s))).code == 0 && finished(c, Ok(ReplyView::Status(s))).out
            == status_text(s),
        c is Flush ==> finished(c, Ok(ReplyView::Okay)).code == 0,
        finished(c, Err(e)).code == 1 && finished(c, Err(e)).err == "resolv: "@ + e + "\n"@,
        finished(c, Ok(ReplyView::Error(e))).code == 1 && finished(c, Ok(ReplyView::Error(e))).err == "resolv: "@ + e
            + "\n"@,
{
}

// Lines.

/// A record is a line: its name, time, type and text, with tabs between them.
pub open spec fn record_as_line(r: RecordOutView) -> Seq<char> {
    r.name + "\t"@ + chars(dec(r.ttl as nat)) + "\t"@ + rtype_text(r.rtype) + "\t"@ + r.text + "\n"@
}

/// An address is a line with its time.
pub open spec fn address_as_line(a: AddressOutView) -> Seq<char> {
    chars(ip_text(a.address)) + "\t"@ + chars(dec(a.ttl as nat)) + "\n"@
}

/// A server is a line that says whether it is demoted.
pub open spec fn server_as_line(t: Seq<char>, demoted: Seq<Seq<char>>) -> Seq<char> {
    if demoted.contains(t) {
        "  server   "@ + t + "  (demoted)"@ + "\n"@
    } else {
        "  server   "@ + t + "\n"@
    }
}

/// Every record, address, name, server and label is a line of its own, in order.
pub proof fn law_everything_is_a_line(
    r: Seq<RecordOutView>,
    a: Seq<AddressOutView>,
    t: Seq<Seq<char>>,
    label: Seq<char>,
    demoted: Seq<Seq<char>>,
    s: Seq<ScopeStatusView>,
)
    ensures
        record_lines(r) == r.flat_map(|x: RecordOutView| record_as_line(x)),
        name_lines(r) == r.flat_map(|x: RecordOutView| x.text + "\n"@),
        address_lines(a) == a.flat_map(|x: AddressOutView| address_as_line(x)),
        labelled(label, t) == t.flat_map(|x: Seq<char>| label + x + "\n"@),
        server_lines(t, demoted) == t.flat_map(|x: Seq<char>| server_as_line(x, demoted)),
        scopes_text(s) == s.flat_map(|x: ScopeStatusView| scope_text(x)),
{
    lemma_record_lines(r);
    lemma_name_lines(r);
    lemma_address_lines(a);
    lemma_labelled(label, t);
    lemma_server_lines(t, demoted);
    lemma_scopes(s);
}

/// One more line behind the others.
proof fn lemma_more<A>(s: Seq<A>, f: spec_fn(A) -> Seq<char>)
    ensures
        s.len() == 0 ==> s.flat_map(f) == Seq::<char>::empty(),
        s.len() > 0 ==> s.flat_map(f) == s.drop_last().flat_map(f) + f(s.last()),
{
    if s.len() == 0 {
        assert(s.map_values(f) =~= Seq::empty());
        assert(s.flat_map(f) =~= Seq::<char>::empty());
    } else {
        let m = s.drop_last();
        assert(s.map_values(f) =~= m.map_values(f).push(f(s.last())));
        m.map_values(f).lemma_flatten_push(f(s.last()));
        assert(s.flat_map(f) =~= m.flat_map(f) + f(s.last()));
    }
}

proof fn lemma_record_lines(r: Seq<RecordOutView>)
    ensures
        record_lines(r) == r.flat_map(|x: RecordOutView| record_as_line(x)),
    decreases r.len(),
{
    lemma_more(r, |x: RecordOutView| record_as_line(x));
    if r.len() > 0 {
        lemma_record_lines(r.drop_last());
    }
}

proof fn lemma_name_lines(r: Seq<RecordOutView>)
    ensures
        name_lines(r) == r.flat_map(|x: RecordOutView| x.text + "\n"@),
    decreases r.len(),
{
    lemma_more(r, |x: RecordOutView| x.text + "\n"@);
    if r.len() > 0 {
        lemma_name_lines(r.drop_last());
    }
}

proof fn lemma_address_lines(a: Seq<AddressOutView>)
    ensures
        address_lines(a) == a.flat_map(|x: AddressOutView| address_as_line(x)),
    decreases a.len(),
{
    lemma_more(a, |x: AddressOutView| address_as_line(x));
    if a.len() > 0 {
        lemma_address_lines(a.drop_last());
    }
}

proof fn lemma_labelled(label: Seq<char>, t: Seq<Seq<char>>)
    ensures
        labelled(label, t) == t.flat_map(|x: Seq<char>| label + x + "\n"@),
    decreases t.len(),
{
    lemma_more(t, |x: Seq<char>| label + x + "\n"@);
    if t.len() > 0 {
        lemma_labelled(label, t.drop_last());
    }
}

proof fn lemma_server_lines(t: Seq<Seq<char>>, demoted: Seq<Seq<char>>)
    ensures
        server_lines(t, demoted) == t.flat_map(|x: Seq<char>| server_as_line(x, demoted)),
    decreases t.len(),
{
    lemma_more(t, |x: Seq<char>| server_as_line(x, demoted));
    if t.len() > 0 {
        lemma_server_lines(t.drop_last(), demoted);
        let x = t.last();
        assert("  server   "@ + x + Seq::<char>::empty() + "\n"@ =~= "  server   "@ + x + "\n"@);
    }
}

proof fn lemma_scopes(s: Seq<ScopeStatusView>)
    ensures
        scopes_text(s) == s.flat_map(|x: ScopeStatusView| scope_text(x)),
    decreases s.len(),
{
    lemma_more(s, |x: ScopeStatusView| scope_text(x));
    if s.len() > 0 {
        lemma_scopes(s.drop_last());
    }
}

/// What is printed for an answer: how it came out, where it came from, and all of
/// its records. A code other than 0 is told where something was found.
pub proof fn law_what_is_printed(a: AnswerView, b: AddressesView)
    ensures
        ({
            let via = match a.server {
                Some(s) => " via "@ + s,
                None => Seq::empty(),
            };
            let on = match a.interface {
                Some(i) => " on "@ + i,
                None => Seq::empty(),
            };
            let code = if a.outcome == Outcome::Found && a.rcode != 0 {
                "rcode "@ + rcode_text((a.rcode % 256) as u8) + "\n"@
            } else {
                Seq::empty()
            };
            query_text(a) == outcome_word(a.outcome) + "  "@ + a.source + via + on + "  validation "@ + validation_word(
                a.validation,
            ) + "\n"@ + code + a.records.flat_map(|x: RecordOutView| record_as_line(x))
        }),
        reverse_text(a) == outcome_word(a.outcome) + "  "@ + a.source + "\n"@ + a.records.flat_map(
            |x: RecordOutView| x.text + "\n"@,
        ),
        lookup_text(b) == outcome_word(b.outcome) + "  "@ + b.source + "  canonical "@ + b.canonical + "\n"@
            + b.addresses.flat_map(|x: AddressOutView| address_as_line(x)),
{
    lemma_record_lines(a.records);
    lemma_name_lines(a.records);
    lemma_address_lines(b.addresses);
}

/// What is printed of an interface and of the counts.
pub proof fn law_what_is_printed_of_the_state(s: ScopeStatusView, c: Counters)
    ensures
        scope_text(s) == "\n"@ + s.interface + "  metric "@ + chars(dec(s.metric as nat)) + flags_text(
            s.default_route,
            s.exclusive,
        ) + "\n"@ + s.servers.flat_map(|x: Seq<char>| server_as_line(x, s.demoted)) + s.domains.flat_map(
            |x: Seq<char>| "  domain   "@ + x + "\n"@,
        ) + s.subnets.flat_map(|x: Seq<char>| "  subnet   "@ + x + "\n"@),
        flags_text(true, true) == "  [default-route, exclusive]"@,
        flags_text(true, false) == "  [default-route]"@,
        flags_text(false, true) == "  [exclusive]"@,
        flags_text(false, false).len() == 0,
        counters_text(c) == "\nqueries "@ + chars(dec(c.queries as nat)) + "  synthetic "@ + chars(
            dec(c.synthetic as nat),
        ) + "  cache-hits "@ + chars(dec(c.cache_hits as nat)) + "  upstream sent "@ + chars(
            dec(c.upstream_sent as nat),
        ) + " answered "@ + chars(dec(c.upstream_answered as nat)) + " failed "@ + chars(dec(c.upstream_failed as nat))
            + "  refused "@ + chars(dec(c.refused as nat)) + "\n"@,
{
    lemma_server_lines(s.servers, s.demoted);
    lemma_labelled("  domain   "@, s.domains);
    lemma_labelled("  subnet   "@, s.subnets);
}

/// Texts with another between them: each text once, in order.
pub proof fn law_joined(t: Seq<Seq<char>>, between: Seq<char>, x: Seq<char>)
    ensures
        joined(Seq::empty(), between).len() == 0,
        joined(seq![x], between) == x,
        t.len() > 0 ==> joined(t.push(x), between) == joined(t, between) + between + x,
{
    assert(t.push(x).drop_last() =~= t);
}

// Codes.

/// Each code has its name, and one without a name is told by its number.
pub proof fn law_code_names(r: u8)
    ensures
        rcode_text(0) == "NOERROR"@,
        rcode_text(1) == "FORMERR"@,
        rcode_text(2) == "SERVFAIL"@,
        rcode_text(3) == "NXDOMAIN"@,
        rcode_text(4) == "NOTIMP"@,
        rcode_text(5) == "REFUSED"@,
        r > 5 ==> rcode_text(r) == "RCODE"@ + chars(dec(r as nat)),
{
}

// What the settings got wrong.

/// Every string that is no address is told as it stands, in order.
pub proof fn law_bad_addresses_are_told(s: Seq<Seq<char>>, place: Place)
    ensures
        bad_addresses(s, place) == s.filter_map(
            |x: Seq<char>|
                if ip_of_text(encode_utf8(trimmed(x))) is None {
                    Some((place, x))
                } else {
                    None
                },
        ),
    decreases s.len(),
{
    let f = |x: Seq<char>|
        if ip_of_text(encode_utf8(trimmed(x))) is None {
            Some((place, x))
        } else {
            None
        };
    if s.len() > 0 {
        law_bad_addresses_are_told(s.drop_last(), place);
        assert(bad_addresses(s, place) =~= s.filter_map(f));
    }
}

/// Every string that is no domain, or the root, likewise.
pub proof fn law_bad_domains_are_told(s: Seq<Seq<char>>)
    ensures
        bad_domains(s) == s.filter_map(
            |x: Seq<char>|
                if name_of_text(encode_utf8(x)) matches Ok(n) && n.len() > 0 {
                    None
                } else {
                    Some((Place::Domain, x))
                },
        ),
    decreases s.len(),
{
    let f = |x: Seq<char>|
        if name_of_text(encode_utf8(x)) matches Ok(n) && n.len() > 0 {
            None
        } else {
            Some((Place::Domain, x))
        };
    if s.len() > 0 {
        law_bad_domains_are_told(s.drop_last());
        assert(bad_domains(s) =~= s.filter_map(f));
    }
}

/// What is wrong with hosts is what is wrong with each, in order.
pub proof fn law_bad_hosts_are_told(v: Seq<(Seq<u8>, RegValueView)>)
    ensures
        bad_hosts(v) == v.flat_map(|x: (Seq<u8>, RegValueView)| bad_host(x.0, x.1)),
    decreases v.len(),
{
    let f = |x: (Seq<u8>, RegValueView)| bad_host(x.0, x.1);
    if v.len() == 0 {
        assert(v.map_values(f) =~= Seq::empty());
        assert(bad_hosts(v) =~= v.flat_map(f));
    } else {
        let w = v.drop_last();
        law_bad_hosts_are_told(w);
        assert(v.map_values(f) =~= w.map_values(f).push(f(v.last())));
        w.map_values(f).lemma_flatten_push(f(v.last()));
        assert(bad_hosts(v) =~= v.flat_map(f));
    }
}

// A probe.

/// A probe asks one question, with recursion desired: for records of type 1 and
/// class 1 at the labels between the dots of a name.
pub proof fn law_probes_ask(name: Seq<u8>)
    ensures
        ({
            let m = raw_query(name);
            let n = m.len() as int;
            &&& n >= 17
            &&& two(m, 0) == 0x1234
            &&& two(m, 2) == 0x0100
            &&& two(m, 4) == 1 && two(m, 6) == 0 && two(m, 8) == 0 && two(m, 10) == 0
            &&& m.subrange(12, n - 5) == labels_bytes(split(undotted(name), 0x2e))
            &&& m[n - 5] == 0 && two(m, n - 4) == 1 && two(m, n - 2) == 1
        }),
{
    let m = raw_query(name);
    let n = m.len() as int;
    assert(m.subrange(12, n - 5) =~= labels_bytes(split(undotted(name), 0x2e)));
}

/// The labels of a probe stand one after the other, each behind its length.
pub proof fn law_probe_labels(l: Seq<Seq<u8>>)
    requires
        forall|i: int| 0 <= i < l.len() ==> (#[trigger] l[i]).len() < 256,
    ensures
        labels_bytes(l) == l.flat_map(|x: Seq<u8>| label_bytes(x)),
    decreases l.len(),
{
    let f = |x: Seq<u8>| label_bytes(x);
    if l.len() == 0 {
        assert(l.map_values(f) =~= Seq::empty());
        assert(labels_bytes(l) =~= l.flat_map(f));
    } else {
        let m = l.drop_last();
        assert forall|i: int| 0 <= i < m.len() implies (#[trigger] m[i]).len() < 256 by {
            assert(m[i] == l[i]);
        }
        law_probe_labels(m);
        assert(l.last() == l[l.len() - 1]);
        assert(l.map_values(f) =~= m.map_values(f).push(f(l.last())));
        m.map_values(f).lemma_flatten_push(f(l.last()));
        assert(labels_bytes(l) =~= l.flat_map(f));
    }
}

} // verus!

//! The operator's command: what is asked for, and what is printed.
//!
//! Owns nothing: every verb is one request to the resolver.
use crate::addr::{ip_of_text, ip_text, IpAddr};
use crate::dns::rcode::{self, rcode_text};
use crate::dns::rtype::{self, rtype_of_upper, rtype_text};
use crate::protocol::{
    debug_text, quoted, texts, views, AddressOut, AddressOutView, Addresses, AddressesView, Answer, AnswerView, Ask,
    Counters, Family, Outcome, RecordOut, RecordOutView, Reply, ReplyView, Request, ScopeStatus, ScopeStatusView,
    StatusReport, StatusReportView,
};
use crate::text::{self, chars, dec, str_eq, upper};
use vstd::prelude::*;
use vstd::string::*;
use vstd::utf8::*;

verus! {

// Arguments.

/// What is to be done.
#[derive(Debug)]
pub enum Command {
    Status,
    Query { name: String, rtype: String, no_cache: bool },
    Lookup { name: String },
    Reverse { address: String },
    Flush,
    Usage,
}

pub enum CommandView {
    Status,
    Query { name: Seq<char>, rtype: Seq<char>, no_cache: bool },
    Lookup { name: Seq<char> },
    Reverse { address: Seq<char> },
    Flush,
    Usage,
}

impl View for Command {
    type V = CommandView;

    open spec fn view(&self) -> CommandView {
        match self {
            Command::Status => CommandView::Status,
            Command::Query { name, rtype, no_cache } => CommandView::Query {
                name: name@,
                rtype: rtype@,
                no_cache: *no_cache,
            },
            Command::Lookup { name } => CommandView::Lookup { name: name@ },
            Command::Reverse { address } => CommandView::Reverse { address: address@ },
            Command::Flush => CommandView::Flush,
            Command::Usage => CommandView::Usage,
        }
    }
}

/// The arguments but for the flag.
pub open spec fn unflagged(args: Seq<Seq<char>>) -> Seq<Seq<char>>
    decreases args.len(),
{
    if args.len() == 0 {
        Seq::empty()
    } else if args.last() == "--no-cache"@ {
        unflagged(args.drop_last())
    } else {
        unflagged(args.drop_last()).push(args.last())
    }
}

/// What arguments ask for; the flag may stand anywhere.
pub open spec fn command_of(args: Seq<Seq<char>>) -> CommandView {
    let no_cache = args.contains("--no-cache"@);
    let a = unflagged(args);
    if a.len() == 1 && a[0] == "status"@ {
        CommandView::Status
    } else if a.len() == 2 && a[0] == "query"@ {
        CommandView::Query { name: a[1], rtype: "A"@, no_cache }
    } else if a.len() == 3 && a[0] == "query"@ {
        CommandView::Query { name: a[1], rtype: a[2], no_cache }
    } else if a.len() == 2 && a[0] == "lookup"@ {
        CommandView::Lookup { name: a[1] }
    } else if a.len() == 2 && a[0] == "reverse"@ {
        CommandView::Reverse { address: a[1] }
    } else if a.len() == 1 && a[0] == "flush"@ {
        CommandView::Flush
    } else {
        CommandView::Usage
    }
}

pub fn parse(args: &Vec<String>) -> (r: Command)
    ensures
        r@ == command_of(texts(args@)),
{
    let ghost all = texts(args@);
    let mut a: Vec<String> = Vec::new();
    let mut no_cache: bool = false;
    let mut i: usize = 0;
    assert(texts(a@) =~= unflagged(all.take(0)));
    while i < args.len()
        invariant
            i <= args@.len(),
            all == texts(args@),
            texts(a@) == unflagged(all.take(i as int)),
            no_cache == all.take(i as int).contains("--no-cache"@),
        decreases args@.len() - i,
    {
        let ghost before = all.take(i as int);
        assert(all.take(i + 1).drop_last() =~= before);
        assert(all.take(i + 1) =~= before.push(all[i as int]));
        assert(all[i as int] == args@[i as int]@);
        proof {
            lemma_contains_push(before, all[i as int], "--no-cache"@);
        }
        if str_eq(args[i].as_str(), "--no-cache") {
            no_cache = true;
        } else {
            let ghost kept = texts(a@);
            a.push(args[i].clone());
            assert(texts(a@) =~= kept.push(all[i as int]));
        }
        i += 1;
    }
    assert(all.take(i as int) =~= all);
    let ghost u = unflagged(all);
    assert(a@.len() == u.len());
    assert(forall|j: int| 0 <= j < u.len() ==> #[trigger] u[j] == a@[j]@);
    if a.len() == 1 && str_eq(a[0].as_str(), "status") {
        Command::Status
    } else if a.len() == 2 && str_eq(a[0].as_str(), "query") {
        Command::Query { name: a[1].clone(), rtype: "A".to_owned(), no_cache }
    } else if a.len() == 3 && str_eq(a[0].as_str(), "query") {
        Command::Query { name: a[1].clone(), rtype: a[2].clone(), no_cache }
    } else if a.len() == 2 && str_eq(a[0].as_str(), "lookup") {
        Command::Lookup { name: a[1].clone() }
    } else if a.len() == 2 && str_eq(a[0].as_str(), "reverse") {
        Command::Reverse { address: a[1].clone() }
    } else if a.len() == 1 && str_eq(a[0].as_str(), "flush") {
        Command::Flush
    } else {
        Command::Usage
    }
}

proof fn lemma_contains_push(s: Seq<Seq<char>>, x: Seq<char>, y: Seq<char>)
    ensures
        s.push(x).contains(y) <==> s.contains(y) || x == y,
{
    let w = s.push(x);
    if s.contains(y) {
        let k = choose|k: int| 0 <= k < s.len() && s[k] == y;
        assert(w[k] == y);
    }
    if w.contains(y) {
        let k = choose|k: int| 0 <= k < w.len() && w[k] == y;
        if k < s.len() {
            assert(s[k] == y);
        }
    }
    assert(w[s.len() as int] == x);
}

// Reports.

/// What is printed, where, and the code that the command ends with.
#[derive(Debug)]
pub struct Report {
    pub out: String,
    pub err: String,
    pub code: u8,
}

#[verifier::ext_equal]
pub struct ReportView {
    pub out: Seq<char>,
    pub err: Seq<char>,
    pub code: u8,
}

impl View for Report {
    type V = ReportView;

    open spec fn view(&self) -> ReportView {
        ReportView { out: self.out@, err: self.err@, code: self.code }
    }
}

pub const SUCCESS: u8 = 0;

pub const FAILURE: u8 = 1;

pub const USAGE: u8 = 64;

pub open spec fn complaint(message: Seq<char>) -> ReportView {
    ReportView { out: Seq::empty(), err: "resolv: "@ + message + "\n"@, code: FAILURE }
}

/// A reply that answers another question.
pub open spec fn nonsense() -> ReportView {
    ReportView { out: Seq::empty(), err: Seq::empty(), code: FAILURE }
}

fn nothing() -> (r: String)
    ensures
        r@ == Seq::<char>::empty(),
{
    let r = String::new();
    assert(r@ =~= Seq::empty());
    r
}

fn complain(message: &str) -> (r: Report)
    ensures
        r@ == complaint(message@),
{
    Report { out: nothing(), err: "resolv: ".to_owned().concat(message).concat("\n"), code: FAILURE }
}

fn fail_quietly() -> (r: Report)
    ensures
        r@ == nonsense(),
{
    Report { out: nothing(), err: nothing(), code: FAILURE }
}

/// The code that says an outcome.
pub open spec fn outcome_exit(o: Outcome) -> u8 {
    match o {
        Outcome::Found => 0,
        Outcome::NotFound => 2,
        Outcome::Unavailable => 3,
    }
}

pub fn outcome_code(o: Outcome) -> (r: u8)
    ensures
        r == outcome_exit(o),
{
    match o {
        Outcome::Found => 0,
        Outcome::NotFound => 2,
        Outcome::Unavailable => 3,
    }
}

/// What a command does first: ask, or end.
#[derive(Debug)]
pub enum Start {
    Ask(Request),
    End(Report),
}

pub enum StartView {
    Ask(Ask),
    End(ReportView),
}

impl View for Start {
    type V = StartView;

    open spec fn view(&self) -> StartView {
        match self {
            Start::Ask(r) => StartView::Ask(r@),
            Start::End(r) => StartView::End(r@),
        }
    }
}

pub open spec fn usage_text() -> Seq<char> {
    "usage: resolv status | query <name> [type] [--no-cache] | lookup <name> | reverse <address> | flush\n"@
}

pub open spec fn started(c: CommandView) -> StartView {
    match c {
        CommandView::Status => StartView::Ask(Ask::Status),
        CommandView::Query { name, rtype, no_cache } => match rtype_of_upper(upper(encode_utf8(rtype))) {
            Some(t) => StartView::Ask(Ask::Resolve { name, rtype: t, no_cache }),
            None => StartView::End(complaint("unknown record type "@ + quoted(rtype))),
        },
        CommandView::Lookup { name } => StartView::Ask(Ask::Lookup { name, family: Family::Any }),
        CommandView::Reverse { address } => match ip_of_text(encode_utf8(address)) {
            Some(a) => StartView::Ask(Ask::Reverse { address: a }),
            None => StartView::End(complaint(quoted(address) + " is not an address"@)),
        },
        CommandView::Flush => StartView::Ask(Ask::Flush),
        CommandView::Usage => StartView::End(
            ReportView { out: Seq::empty(), err: usage_text(), code: USAGE },
        ),
    }
}

pub fn start(c: &Command) -> (r: Start)
    ensures
        r@ == started(c@),
{
    match c {
        Command::Status => Start::Ask(Request::Status),
        Command::Query { name, rtype, no_cache } => match rtype::parse(rtype.as_str()) {
            Some(t) => Start::Ask(Request::Resolve { name: name.clone(), rtype: t, no_cache: *no_cache }),
            None => Start::End(
                complain("unknown record type ".to_owned().concat(debug_text(rtype.as_str()).as_str()).as_str()),
            ),
        },
        Command::Lookup { name } => Start::Ask(Request::Lookup { name: name.clone(), family: Family::Any }),
        Command::Reverse { address } => match IpAddr::parse(address.as_str()) {
            Some(a) => Start::Ask(Request::Reverse { address: a }),
            None => Start::End(
                complain(debug_text(address.as_str()).concat(" is not an address").as_str()),
            ),
        },
        Command::Flush => Start::Ask(Request::Flush),
        Command::Usage => Start::End(
            Report {
                out: nothing(),
                err: "usage: resolv status | query <name> [type] [--no-cache] | lookup <name> | reverse <address> | flush\n".to_owned(),
                code: USAGE,
            },
        ),
    }
}

// Status.

/// Texts with another between them.
pub open spec fn joined(t: Seq<Seq<char>>, between: Seq<char>) -> Seq<char>
    decreases t.len(),
{
    if t.len() == 0 {
        Seq::empty()
    } else if t.len() == 1 {
        t[0]
    } else {
        joined(t.drop_last(), between) + between + t.last()
    }
}

/// Each text on a line behind a label.
pub open spec fn labelled(label: Seq<char>, t: Seq<Seq<char>>) -> Seq<char>
    decreases t.len(),
{
    if t.len() == 0 {
        Seq::empty()
    } else {
        labelled(label, t.drop_last()) + (label + t.last() + "\n"@)
    }
}

/// Each server on a line, saying which are demoted.
pub open spec fn server_lines(t: Seq<Seq<char>>, demoted: Seq<Seq<char>>) -> Seq<char>
    decreases t.len(),
{
    if t.len() == 0 {
        Seq::empty()
    } else {
        server_lines(t.drop_last(), demoted) + ("  server   "@ + t.last() + (if demoted.contains(t.last()) {
            "  (demoted)"@
        } else {
            Seq::empty()
        }) + "\n"@)
    }
}

pub open spec fn flags_text(default_route: bool, exclusive: bool) -> Seq<char> {
    if default_route && exclusive {
        "  [default-route, exclusive]"@
    } else if default_route {
        "  [default-route]"@
    } else if exclusive {
        "  [exclusive]"@
    } else {
        Seq::empty()
    }
}

pub open spec fn scope_text(s: ScopeStatusView) -> Seq<char> {
    "\n"@ + s.interface + "  metric "@ + chars(dec(s.metric as nat)) + flags_text(s.default_route, s.exclusive) + "\n"@
        + server_lines(s.servers, s.demoted) + labelled("  domain   "@, s.domains) + labelled("  subnet   "@, s.subnets)
}

pub open spec fn scopes_text(s: Seq<ScopeStatusView>) -> Seq<char>
    decreases s.len(),
{
    if s.len() == 0 {
        Seq::empty()
    } else {
        scopes_text(s.drop_last()) + scope_text(s.last())
    }
}

pub open spec fn number_text(n: u64) -> Seq<char> {
    chars(dec(n as nat))
}

pub open spec fn counters_text(c: Counters) -> Seq<char> {
    "\nqueries "@ + number_text(c.queries) + "  synthetic "@ + number_text(c.synthetic) + "  cache-hits "@ + number_text(
        c.cache_hits,
    ) + "  upstream sent "@ + number_text(c.upstream_sent) + " answered "@ + number_text(c.upstream_answered)
        + " failed "@ + number_text(c.upstream_failed) + "  refused "@ + number_text(c.refused) + "\n"@
}

pub open spec fn status_text(s: StatusReportView) -> Seq<char> {
    "hostname   "@ + (if s.hostname.len() == 0 {
        "(unset)"@
    } else {
        s.hostname
    }) + "\nnetd       "@ + (if s.netd {
        "connected"@
    } else {
        "not connected"@
    }) + "\ncache      "@ + number_text(s.cache_entries) + " entries\n"@ + (if s.scopes.len() == 0 {
        "scopes     (none)\n"@
    } else {
        Seq::empty()
    }) + scopes_text(s.scopes) + (if s.fallback_servers.len() > 0 {
        "\nfallback   "@ + joined(s.fallback_servers, " "@) + "\n"@
    } else {
        Seq::empty()
    }) + counters_text(s.counters)
}

fn put_labelled(out: &mut String, label: &str, t: &Vec<String>)
    ensures
        final(out)@ == old(out)@ + labelled(label@, texts(t@)),
{
    let ghost all = texts(t@);
    let mut i: usize = 0;
    assert(out@ + labelled(label@, all.take(0)) =~= out@);
    while i < t.len()
        invariant
            i <= t@.len(),
            all == texts(t@),
            out@ == old(out)@ + labelled(label@, all.take(i as int)),
        decreases t@.len() - i,
    {
        assert(all.take(i + 1).drop_last() =~= all.take(i as int));
        assert(all[i as int] == t@[i as int]@);
        let ghost before = labelled(label@, all.take(i as int));
        out.append(label);
        out.append(t[i].as_str());
        out.append("\n");
        assert(out@ =~= old(out)@ + (before + (label@ + all[i as int] + "\n"@)));
        i += 1;
    }
    assert(all.take(i as int) =~= all);
}

fn contains_text(t: &Vec<String>, s: &str) -> (r: bool)
    ensures
        r == texts(t@).contains(s@),
{
    let mut i: usize = 0;
    while i < t.len()
        invariant
            i <= t@.len(),
            forall|j: int| 0 <= j < i ==> #[trigger] texts(t@)[j] != s@,
        decreases t@.len() - i,
    {
        if str_eq(t[i].as_str(), s) {
            assert(texts(t@)[i as int] == s@);
            return true;
        }
        i += 1;
    }
    false
}

fn put_servers(out: &mut String, t: &Vec<String>, demoted: &Vec<String>)
    ensures
        final(out)@ == old(out)@ + server_lines(texts(t@), texts(demoted@)),
{
    let ghost all = texts(t@);
    let ghost ill = texts(demoted@);
    let mut i: usize = 0;
    assert(out@ + server_lines(all.take(0), ill) =~= out@);
    while i < t.len()
        invariant
            i <= t@.len(),
            all == texts(t@),
            ill == texts(demoted@),
            out@ == old(out)@ + server_lines(all.take(i as int), ill),
        decreases t@.len() - i,
    {
        assert(all.take(i + 1).drop_last() =~= all.take(i as int));
        assert(all[i as int] == t@[i as int]@);
        let ghost before = server_lines(all.take(i as int), ill);
        out.append("  server   ");
        out.append(t[i].as_str());
        if contains_text(demoted, t[i].as_str()) {
            out.append("  (demoted)");
            out.append("\n");
            assert(out@ =~= old(out)@ + (before + ("  server   "@ + all[i as int] + "  (demoted)"@ + "\n"@)));
        } else {
            out.append("\n");
            assert(out@ =~= old(out)@ + (before + ("  server   "@ + all[i as int] + Seq::<char>::empty() + "\n"@)));
        }
        i += 1;
    }
    assert(all.take(i as int) =~= all);
}

fn put_scope(out: &mut String, s: &ScopeStatus)
    ensures
        final(out)@ == old(out)@ + scope_text(s@),
{
    out.append("\n");
    out.append(s.interface.as_str());
    out.append("  metric ");
    out.append(text::dec_string(s.metric as u64).as_str());
    if s.default_route && s.exclusive {
        out.append("  [default-route, exclusive]");
    } else if s.default_route {
        out.append("  [default-route]");
    } else if s.exclusive {
        out.append("  [exclusive]");
    }
    assert(out@ =~= old(out)@ + ("\n"@ + s.interface@ + "  metric "@ + chars(dec(s.metric as nat)) + flags_text(
        s.default_route,
        s.exclusive,
    )));
    out.append("\n");
    put_servers(out, &s.servers, &s.demoted);
    put_labelled(out, "  domain   ", &s.domains);
    put_labelled(out, "  subnet   ", &s.subnets);
    assert(out@ =~= old(out)@ + scope_text(s@));
}

fn put_joined(out: &mut String, t: &Vec<String>, between: &str)
    ensures
        final(out)@ == old(out)@ + joined(texts(t@), between@),
{
    let ghost all = texts(t@);
    let mut i: usize = 0;
    assert(out@ + joined(all.take(0), between@) =~= out@);
    while i < t.len()
        invariant
            i <= t@.len(),
            all == texts(t@),
            out@ == old(out)@ + joined(all.take(i as int), between@),
        decreases t@.len() - i,
    {
        assert(all.take(i + 1).drop_last() =~= all.take(i as int));
        assert(all[i as int] == t@[i as int]@);
        let ghost before = joined(all.take(i as int), between@);
        if i > 0 {
            out.append(between);
            out.append(t[i].as_str());
            assert(out@ =~= old(out)@ + (before + between@ + all[i as int]));
        } else {
            out.append(t[i].as_str());
            assert(out@ =~= old(out)@ + all[i as int]);
        }
        i += 1;
    }
    assert(all.take(i as int) =~= all);
}

fn put_number(out: &mut String, label: &str, n: u64)
    ensures
        final(out)@ == old(out)@ + (label@ + number_text(n)),
{
    out.append(label);
    out.append(text::dec_string(n).as_str());
    assert(out@ =~= old(out)@ + (label@ + number_text(n)));
}

fn put_counters(out: &mut String, c: &Counters)
    ensures
        final(out)@ == old(out)@ + counters_text(*c),
{
    put_number(out, "\nqueries ", c.queries);
    put_number(out, "  synthetic ", c.synthetic);
    put_number(out, "  cache-hits ", c.cache_hits);
    put_number(out, "  upstream sent ", c.upstream_sent);
    put_number(out, " answered ", c.upstream_answered);
    put_number(out, " failed ", c.upstream_failed);
    put_number(out, "  refused ", c.refused);
    out.append("\n");
    assert(out@ =~= old(out)@ + counters_text(*c));
}

fn status_string(s: &StatusReport) -> (out: String)
    ensures
        out@ == status_text(s@),
{
    let mut out = "hostname   ".to_owned();
    assert(s.hostname@.len() == 0 ==> s.hostname@ =~= Seq::empty());
    if str_eq(s.hostname.as_str(), nothing().as_str()) {
        out.append("(unset)");
    } else {
        out.append(s.hostname.as_str());
    }
    out.append("\nnetd       ");
    out.append(
        if s.netd {
            "connected"
        } else {
            "not connected"
        },
    );
    out.append("\ncache      ");
    out.append(text::dec_string(s.cache_entries).as_str());
    out.append(" entries\n");
    let ghost so_far = out@;
    assert(views(s.scopes@).len() == s.scopes@.len());
    if s.scopes.len() == 0 {
        out.append("scopes     (none)\n");
    } else {
        assert(so_far + Seq::<char>::empty() =~= so_far);
    }
    let ghost all = views(s.scopes@);
    let ghost head = out@;
    let mut i: usize = 0;
    assert(head + scopes_text(all.take(0)) =~= head);
    while i < s.scopes.len()
        invariant
            i <= s.scopes@.len(),
            all == views(s.scopes@),
            out@ == head + scopes_text(all.take(i as int)),
        decreases s.scopes@.len() - i,
    {
        assert(all.take(i + 1).drop_last() =~= all.take(i as int));
        assert(all[i as int] == s.scopes@[i as int]@);
        let ghost before = scopes_text(all.take(i as int));
        put_scope(&mut out, &s.scopes[i]);
        assert(out@ =~= head + (before + scope_text(all[i as int])));
        i += 1;
    }
    assert(all.take(i as int) =~= all);
    assert(texts(s.fallback_servers@).len() == s.fallback_servers@.len());
    let ghost middle = out@;
    if s.fallback_servers.len() > 0 {
        out.append("\nfallback   ");
        put_joined(&mut out, &s.fallback_servers, " ");
        out.append("\n");
        assert(out@ =~= middle + ("\nfallback   "@ + joined(texts(s.fallback_servers@), " "@) + "\n"@));
    } else {
        assert(middle + Seq::<char>::empty() =~= middle);
    }
    put_counters(&mut out, &s.counters);
    out
}

// Answers.

pub open spec fn record_line(r: RecordOutView) -> Seq<char> {
    r.name + "\t"@ + chars(dec(r.ttl as nat)) + "\t"@ + rtype_text(r.rtype) + "\t"@ + r.text + "\n"@
}

pub open spec fn record_lines(r: Seq<RecordOutView>) -> Seq<char>
    decreases r.len(),
{
    if r.len() == 0 {
        Seq::empty()
    } else {
        record_lines(r.drop_last()) + record_line(r.last())
    }
}

/// A text behind a label, where it is there.
pub open spec fn opt_label(label: Seq<char>, t: Option<Seq<char>>) -> Seq<char> {
    match t {
        Some(t) => label + t,
        None => Seq::empty(),
    }
}

pub open spec fn query_text(a: AnswerView) -> Seq<char> {
    a.outcome.text() + "  "@ + a.source + opt_label(" via "@, a.server) + opt_label(" on "@, a.interface)
        + "  validation "@ + a.validation.text() + "\n"@ + (if a.outcome == Outcome::Found && a.rcode != 0 {
        "rcode "@ + rcode_text((a.rcode % 0x100) as u8) + "\n"@
    } else {
        Seq::empty()
    }) + record_lines(a.records)
}

pub open spec fn address_lines(a: Seq<AddressOutView>) -> Seq<char>
    decreases a.len(),
{
    if a.len() == 0 {
        Seq::empty()
    } else {
        address_lines(a.drop_last()) + (chars(ip_text(a.last().address)) + "\t"@ + chars(dec(a.last().ttl as nat))
            + "\n"@)
    }
}

pub open spec fn lookup_text(a: AddressesView) -> Seq<char> {
    a.outcome.text() + "  "@ + a.source + "  canonical "@ + a.canonical + "\n"@ + address_lines(a.addresses)
}

pub open spec fn name_lines(r: Seq<RecordOutView>) -> Seq<char>
    decreases r.len(),
{
    if r.len() == 0 {
        Seq::empty()
    } else {
        name_lines(r.drop_last()) + (r.last().text + "\n"@)
    }
}

pub open spec fn reverse_text(a: AnswerView) -> Seq<char> {
    a.outcome.text() + "  "@ + a.source + "\n"@ + name_lines(a.records)
}

pub open spec fn printed(out: Seq<char>, code: u8) -> ReportView {
    ReportView { out, err: Seq::empty(), code }
}

/// What a reply, or the want of one, comes to.
pub open spec fn finished(c: CommandView, reply: Result<ReplyView, Seq<char>>) -> ReportView {
    match reply {
        Err(e) => complaint(e),
        Ok(ReplyView::Error(e)) => complaint(e),
        Ok(r) => match (c, r) {
            (CommandView::Status, ReplyView::Status(s)) => printed(status_text(s), SUCCESS),
            (CommandView::Query { name: _, rtype: _, no_cache: _ }, ReplyView::Answer(a)) => printed(
                query_text(a),
                outcome_exit(a.outcome),
            ),
            (CommandView::Lookup { name: _ }, ReplyView::Addresses(a)) => printed(
                lookup_text(a),
                outcome_exit(a.outcome),
            ),
            (CommandView::Reverse { address: _ }, ReplyView::Answer(a)) => printed(
                reverse_text(a),
                outcome_exit(a.outcome),
            ),
            (CommandView::Flush, ReplyView::Okay) => printed(Seq::empty(), SUCCESS),
            _ => nonsense(),
        },
    }
}

fn put_records(out: &mut String, r: &Vec<RecordOut>)
    ensures
        final(out)@ == old(out)@ + record_lines(views(r@)),
{
    let ghost all = views(r@);
    let mut i: usize = 0;
    assert(out@ + record_lines(all.take(0)) =~= out@);
    while i < r.len()
        invariant
            i <= r@.len(),
            all == views(r@),
            out@ == old(out)@ + record_lines(all.take(i as int)),
        decreases r@.len() - i,
    {
        assert(all.take(i + 1).drop_last() =~= all.take(i as int));
        assert(all[i as int] == r@[i as int]@);
        let ghost before = record_lines(all.take(i as int));
        out.append(r[i].name.as_str());
        out.append("\t");
        out.append(text::dec_string(r[i].ttl as u64).as_str());
        out.append("\t");
        out.append(rtype::name(r[i].rtype).as_str());
        out.append("\t");
        out.append(r[i].text.as_str());
        out.append("\n");
        assert(out@ =~= old(out)@ + (before + record_line(all[i as int])));
        i += 1;
    }
    assert(all.take(i as int) =~= all);
}

fn put_names(out: &mut String, r: &Vec<RecordOut>)
    ensures
        final(out)@ == old(out)@ + name_lines(views(r@)),
{
    let ghost all = views(r@);
    let mut i: usize = 0;
    assert(out@ + name_lines(all.take(0)) =~= out@);
    while i < r.len()
        invariant
            i <= r@.len(),
            all == views(r@),
            out@ == old(out)@ + name_lines(all.take(i as int)),
        decreases r@.len() - i,
    {
        assert(all.take(i + 1).drop_last() =~= all.take(i as int));
        assert(all[i as int] == r@[i as int]@);
        let ghost before = name_lines(all.take(i as int));
        out.append(r[i].text.as_str());
        out.append("\n");
        assert(out@ =~= old(out)@ + (before + (all[i as int].text + "\n"@)));
        i += 1;
    }
    assert(all.take(i as int) =~= all);
}

fn put_addresses(out: &mut String, a: &Vec<AddressOut>)
    ensures
        final(out)@ == old(out)@ + address_lines(views(a@)),
{
    let ghost all = views(a@);
    let mut i: usize = 0;
    assert(out@ + address_lines(all.take(0)) =~= out@);
    while i < a.len()
        invariant
            i <= a@.len(),
            all == views(a@),
            out@ == old(out)@ + address_lines(all.take(i as int)),
        decreases a@.len() - i,
    {
        assert(all.take(i + 1).drop_last() =~= all.take(i as int));
        assert(all[i as int] == a@[i as int]@);
        let ghost before = address_lines(all.take(i as int));
        let ghost one = all[i as int];
        out.append(a[i].address.to_text().as_str());
        out.append("\t");
        out.append(text::dec_string(a[i].ttl as u64).as_str());
        out.append("\n");
        assert(out@ =~= old(out)@ + (before + (chars(ip_text(one.address)) + "\t"@ + chars(dec(one.ttl as nat)) + "\n"@)));
        i += 1;
    }
    assert(all.take(i as int) =~= all);
}

fn put_opt(out: &mut String, label: &str, t: &Option<String>)
    ensures
        final(out)@ == old(out)@ + opt_label(label@, text::opt_text(*t)),
{
    match t {
        Some(t) => {
            out.append(label);
            out.append(t.as_str());
            assert(out@ =~= old(out)@ + (label@ + t@));
        },
        None => {
            assert(out@ + Seq::<char>::empty() =~= out@);
        },
    }
}

fn query_string(a: &Answer) -> (out: String)
    ensures
        out@ == query_text(a@),
{
    let mut out = a.outcome.as_str().to_owned();
    out.append("  ");
    out.append(a.source.as_str());
    put_opt(&mut out, " via ", &a.server);
    put_opt(&mut out, " on ", &a.interface);
    out.append("  validation ");
    out.append(a.validation.as_str());
    out.append("\n");
    let ghost head = out@;
    let found: bool = match a.outcome {
        Outcome::Found => true,
        _ => false,
    };
    if found && a.rcode != 0 {
        out.append("rcode ");
        out.append(rcode::name((a.rcode % 0x100) as u8).as_str());
        out.append("\n");
        assert(out@ =~= head + ("rcode "@ + rcode_text((a.rcode % 0x100) as u8) + "\n"@));
    } else {
        assert(head + Seq::<char>::empty() =~= head);
    }
    put_records(&mut out, &a.records);
    out
}

fn lookup_string(a: &Addresses) -> (out: String)
    ensures
        out@ == lookup_text(a@),
{
    let mut out = a.outcome.as_str().to_owned();
    out.append("  ");
    out.append(a.source.as_str());
    out.append("  canonical ");
    out.append(a.canonical.as_str());
    out.append("\n");
    put_addresses(&mut out, &a.addresses);
    out
}

fn reverse_string(a: &Answer) -> (out: String)
    ensures
        out@ == reverse_text(a@),
{
    let mut out = a.outcome.as_str().to_owned();
    out.append("  ");
    out.append(a.source.as_str());
    out.append("\n");
    put_names(&mut out, &a.records);
    out
}

fn print(out: String, code: u8) -> (r: Report)
    ensures
        r@ == printed(out@, code),
{
    Report { out, err: nothing(), code }
}

pub open spec fn reply_view(r: Result<Reply, String>) -> Result<ReplyView, Seq<char>> {
    match r {
        Ok(r) => Ok(r@),
        Err(e) => Err(e@),
    }
}

/// What a command ends with, given the reply or why there is none.
pub fn finish(c: &Command, reply: Result<Reply, String>) -> (r: Report)
    ensures
        r@ == finished(c@, reply_view(reply)),
{
    match reply {
        Err(e) => complain(e.as_str()),
        Ok(Reply::Error(e)) => complain(e.as_str()),
        Ok(r) => match (c, r) {
            (Command::Status, Reply::Status(s)) => print(status_string(&s), SUCCESS),
            (Command::Query { name: _, rtype: _, no_cache: _ }, Reply::Answer(a)) => print(
                query_string(&a),
                outcome_code(a.outcome),
            ),
            (Command::Lookup { name: _ }, Reply::Addresses(a)) => print(lookup_string(&a), outcome_code(a.outcome)),
            (Command::Reverse { address: _ }, Reply::Answer(a)) => print(
                reverse_string(&a),
                outcome_code(a.outcome),
            ),
            (Command::Flush, Reply::Okay) => print(nothing(), SUCCESS),
            _ => fail_quietly(),
        },
    }
}

} // verus!

//! The local wire: length-prefixed MessagePack maps, one request and one reply
//! per connection.
//!
//! ```text
//! +---------------------+------------------------+
//! | length u32 LE       | payload (MessagePack)  |
//! +---------------------+------------------------+
//! ```
//!
//! A request is a map with a required `query` string; unknown keys are
//! ignored, duplicates rejected. A reply is a map with `ok` (bool) and either
//! the result fields or `error` (string).
//!
//! The protocol works on resource records: a lookup names a question (name,
//! type) and the answer is records with TTLs, where they came from, and a
//! validation state. The one convenience is `lookup`, which asks for the
//! addresses of a name in both families at once.
use crate::addr::{ip_of_text, ip_text, lemma_ip_text_ascii, IpAddr};
use crate::msgpack;
use crate::msgpack::{
    enc_array, enc_bin, enc_bool, enc_map, enc_nil, enc_str, enc_uint, input, Input, Reader, Type, Writer,
};
use crate::octets;
use crate::text;
use crate::text::{opt_text, str_eq};
use vstd::prelude::*;
use vstd::slice::slice_subrange;
use vstd::utf8::*;

verus! {

/// The runtime directory, created before the service starts.
pub const RESOLVD_RUN_DIR: &'static str = "/run/resolvd";

/// The native socket, inside the runtime directory, which the service owns.
pub const SOCKET_PATH: &'static str = "/run/resolvd/resolv.sock";

/// The stub listener: DNS over UDP and TCP, loopback only.
pub const STUB_ADDRESS: &'static str = "127.0.0.53";

pub const STUB_PORT: u16 = 53;

/// The registry key the service reads.
pub const RESOLVER_KEY: &'static str = "Machine\\System\\Network\\Dns";

/// Rights on the control object: Everyone may query, SYSTEM and
/// Administrators may control, unless the registry says otherwise.
pub const RESOLVER_QUERY: u32 = 0x0000_0001;

pub const RESOLVER_CONTROL: u32 = 0x0000_0002;

pub const RESOLVER_ALL_ACCESS: u32 = 0x000f_0003;

/// Ceiling on one message, payload only.
pub const MAX_MESSAGE_BYTES: usize = 65_536;

#[derive(Debug, Clone, Copy, PartialEq, Eq, Structural)]
pub enum Family {
    Any,
    V4,
    V6,
}

impl Family {
    pub open spec fn text(self) -> Seq<char> {
        match self {
            Family::Any => "any"@,
            Family::V4 => "inet"@,
            Family::V6 => "inet6"@,
        }
    }

    pub open spec fn of_text(s: Seq<char>) -> Option<Family> {
        if s == "any"@ {
            Some(Family::Any)
        } else if s == "inet"@ {
            Some(Family::V4)
        } else if s == "inet6"@ {
            Some(Family::V6)
        } else {
            None
        }
    }

    pub fn as_str(self) -> (r: &'static str)
        ensures
            r@ == self.text(),
    {
        match self {
            Family::Any => "any",
            Family::V4 => "inet",
            Family::V6 => "inet6",
        }
    }

    fn parse(s: &str) -> (r: Option<Family>)
        ensures
            r == Family::of_text(s@),
    {
        if str_eq(s, "any") {
            Some(Family::Any)
        } else if str_eq(s, "inet") {
            Some(Family::V4)
        } else if str_eq(s, "inet6") {
            Some(Family::V6)
        } else {
            None
        }
    }

    /// A family's name reads back as the family.
    pub proof fn law_text(self)
        ensures
            Family::of_text(self.text()) == Some(self),
    {
        reveal_strlit("any");
        assert("any"@.len() == 3);
        reveal_strlit("inet");
        assert("inet"@.len() == 4);
        reveal_strlit("inet6");
        assert("inet6"@.len() == 5);
    }
}

/// How a question ended.
#[derive(Debug, Clone, Copy, PartialEq, Eq, Structural)]
pub enum Outcome {
    /// Records follow. (A name that exists with no records of the type is
    /// `Found` with none, which is not `NotFound`.)
    Found,
    /// The name does not exist, authoritatively. Cacheable.
    NotFound,
    /// Nothing that could answer did. Never cached, never an absence.
    Unavailable,
}

impl Default for Outcome {
    fn default() -> (r: Outcome)
        ensures
            r == Outcome::Unavailable,
    {
        Outcome::Unavailable
    }
}

impl Outcome {
    pub open spec fn text(self) -> Seq<char> {
        match self {
            Outcome::Found => "found"@,
            Outcome::NotFound => "notfound"@,
            Outcome::Unavailable => "unavailable"@,
        }
    }

    pub open spec fn of_text(s: Seq<char>) -> Option<Outcome> {
        if s == "found"@ {
            Some(Outcome::Found)
        } else if s == "notfound"@ {
            Some(Outcome::NotFound)
        } else if s == "unavailable"@ {
            Some(Outcome::Unavailable)
        } else {
            None
        }
    }

    pub fn as_str(self) -> (r: &'static str)
        ensures
            r@ == self.text(),
    {
        match self {
            Outcome::Found => "found",
            Outcome::NotFound => "notfound",
            Outcome::Unavailable => "unavailable",
        }
    }

    fn parse(s: &str) -> (r: Option<Outcome>)
        ensures
            r == Outcome::of_text(s@),
    {
        if str_eq(s, "found") {
            Some(Outcome::Found)
        } else if str_eq(s, "notfound") {
            Some(Outcome::NotFound)
        } else if str_eq(s, "unavailable") {
            Some(Outcome::Unavailable)
        } else {
            None
        }
    }

    /// An outcome's name reads back as the outcome.
    pub proof fn law_text(self)
        ensures
            Outcome::of_text(self.text()) == Some(self),
    {
        reveal_strlit("found");
        assert("found"@.len() == 5);
        reveal_strlit("notfound");
        assert("notfound"@.len() == 8);
        reveal_strlit("unavailable");
        assert("unavailable"@.len() == 11);
    }
}

/// DNSSEC state of an answer. Nothing is validated yet, so every answer from
/// the network is `Unvalidated`; the field exists so that callers are written
/// against it from the start.
#[derive(Debug, Clone, Copy, PartialEq, Eq, Structural)]
pub enum Validation {
    Unvalidated,
    Secure,
    Insecure,
    Bogus,
}

impl Default for Validation {
    fn default() -> (r: Validation)
        ensures
            r == Validation::Unvalidated,
    {
        Validation::Unvalidated
    }
}

impl Validation {
    pub open spec fn text(self) -> Seq<char> {
        match self {
            Validation::Unvalidated => "unvalidated"@,
            Validation::Secure => "secure"@,
            Validation::Insecure => "insecure"@,
            Validation::Bogus => "bogus"@,
        }
    }

    pub open spec fn of_text(s: Seq<char>) -> Option<Validation> {
        if s == "unvalidated"@ {
            Some(Validation::Unvalidated)
        } else if s == "secure"@ {
            Some(Validation::Secure)
        } else if s == "insecure"@ {
            Some(Validation::Insecure)
        } else if s == "bogus"@ {
            Some(Validation::Bogus)
        } else {
            None
        }
    }

    pub fn as_str(self) -> (r: &'static str)
        ensures
            r@ == self.text(),
    {
        match self {
            Validation::Unvalidated => "unvalidated",
            Validation::Secure => "secure",
            Validation::Insecure => "insecure",
            Validation::Bogus => "bogus",
        }
    }

    fn parse(s: &str) -> (r: Option<Validation>)
        ensures
            r == Validation::of_text(s@),
    {
        if str_eq(s, "unvalidated") {
            Some(Validation::Unvalidated)
        } else if str_eq(s, "secure") {
            Some(Validation::Secure)
        } else if str_eq(s, "insecure") {
            Some(Validation::Insecure)
        } else if str_eq(s, "bogus") {
            Some(Validation::Bogus)
        } else {
            None
        }
    }

    /// A validation state's name reads back as the state.
    pub proof fn law_text(self)
        ensures
            Validation::of_text(self.text()) == Some(self),
    {
        reveal_strlit("unvalidated");
        assert("unvalidated"@.len() == 11);
        reveal_strlit("secure");
        assert("secure"@.len() == 6);
        reveal_strlit("insecure");
        assert("insecure"@.len() == 8);
        reveal_strlit("bogus");
        assert("bogus"@.len() == 5);
    }
}

// Errors.

/// What kind of input or output failure a stream met.
#[derive(Debug, Clone, Copy, PartialEq, Eq, Structural)]
pub enum IoKind {
    WouldBlock,
    TimedOut,
    UnexpectedEof,
    Other,
}

#[derive(Debug, Clone, PartialEq, Eq)]
pub struct IoError {
    pub kind: IoKind,
    pub message: String,
}

#[derive(Debug, Clone, PartialEq, Eq)]
pub enum WireError {
    Encoding(msgpack::Error),
    Missing(&'static str),
    Duplicate(String),
    UnknownQuery(String),
    TooLarge(usize),
    Io(IoError),
}

/// A `WireError` as a value.
pub enum Fault {
    Encoding(msgpack::Error),
    Missing(Seq<char>),
    Duplicate(Seq<char>),
    UnknownQuery(Seq<char>),
    TooLarge(nat),
    Io(IoKind, Seq<char>),
}

impl View for WireError {
    type V = Fault;

    open spec fn view(&self) -> Fault {
        match self {
            WireError::Encoding(e) => Fault::Encoding(*e),
            WireError::Missing(k) => Fault::Missing(k@),
            WireError::Duplicate(k) => Fault::Duplicate(k@),
            WireError::UnknownQuery(q) => Fault::UnknownQuery(q@),
            WireError::TooLarge(n) => Fault::TooLarge(*n as nat),
            WireError::Io(e) => Fault::Io(e.kind, e.message@),
        }
    }
}

/// What `{:?}` writes for a string.
pub uninterp spec fn quoted(s: Seq<char>) -> Seq<char>;

/// `format!("{:?}")` of a string: the text that the standard library's `Debug`
/// writes for it, which depends on the string alone.
#[verifier::external_body]
pub(crate) fn debug_text(s: &str) -> (r: String)
    ensures
        r@ == quoted(s@),
{
    format!("{s:?}")
}

impl Fault {
    pub open spec fn text(self) -> Seq<char> {
        match self {
            Fault::Encoding(e) => "malformed message: "@ + e.text(),
            Fault::Missing(k) => "missing or malformed field "@ + k,
            Fault::Duplicate(k) => "duplicate field "@ + k,
            Fault::UnknownQuery(q) => "unknown query "@ + quoted(q),
            Fault::TooLarge(n) => "message of "@ + text::chars(text::dec(n)) + " bytes exceeds the ceiling"@,
            Fault::Io(_, message) => message,
        }
    }
}

impl WireError {
    /// What went wrong, for people.
    pub fn to_text(&self) -> (r: String)
        ensures
            r@ == self@.text(),
    {
        match self {
            WireError::Encoding(e) => "malformed message: ".to_owned().concat(e.as_str()),
            WireError::Missing(k) => "missing or malformed field ".to_owned().concat(k),
            WireError::Duplicate(k) => "duplicate field ".to_owned().concat(k.as_str()),
            WireError::UnknownQuery(q) => "unknown query ".to_owned().concat(
                debug_text(q.as_str()).as_str(),
            ),
            WireError::TooLarge(n) => {
                "message of ".to_owned().concat(text::dec_string(*n as u64).as_str()).concat(
                    " bytes exceeds the ceiling",
                )
            },
            WireError::Io(e) => e.message.clone(),
        }
    }
}

impl From<msgpack::Error> for WireError {
    fn from(e: msgpack::Error) -> (r: WireError) {
        WireError::Encoding(e)
    }
}

impl vstd::std_specs::convert::FromSpecImpl<msgpack::Error> for WireError {
    open spec fn obeys_from_spec() -> bool {
        true
    }

    open spec fn from_spec(e: msgpack::Error) -> WireError {
        WireError::Encoding(e)
    }
}

// Maps.

/// What takes the fields of a map as they come.
pub trait FieldVisitor: View + Sized {
    /// The state before the first field.
    spec fn start() -> Self::V;

    /// What one field does, its value being the next thing in the input: the
    /// new state and the input after the value.
    spec fn step(v: Self::V, key: Seq<char>, i: Input) -> Result<(Self::V, Input), Fault>;

    fn fresh() -> (r: Self)
        ensures
            r@ == Self::start(),
    ;

    fn visit(&mut self, key: &str, r: &mut Reader<'_>) -> (res: Result<(), WireError>)
        ensures
            match Self::step(old(self)@, key@, old(r)@) {
                Ok((v, i)) => res is Ok && final(self)@ == v && final(r)@ == i,
                Err(e) => res matches Err(err) && err@ == e,
            },
    ;
}

/// `n` fields, none of them named as in `seen`.
pub open spec fn fields<V: FieldVisitor>(n: nat, seen: Seq<Seq<char>>, v: V::V, i: Input) -> Result<
    (V::V, Seq<Seq<char>>, Input),
    Fault,
>
    decreases n,
{
    if n == 0 {
        Ok((v, seen, i))
    } else {
        match msgpack::read_str(i) {
            (Err(e), _) => Err(Fault::Encoding(e)),
            (Ok(key), j) => if seen.contains(key) {
                Err(Fault::Duplicate(key))
            } else {
                match V::step(v, key, j) {
                    Err(e) => Err(e),
                    Ok((v, j)) => fields::<V>((n - 1) as nat, seen.push(key), v, j),
                }
            },
        }
    }
}

/// A map.
pub open spec fn map_of<V: FieldVisitor>(seen: Seq<Seq<char>>, v: V::V, i: Input) -> Result<
    (V::V, Seq<Seq<char>>, Input),
    Fault,
> {
    match msgpack::read_map(i) {
        (Err(e), _) => Err(Fault::Encoding(e)),
        (Ok(n), j) => fields::<V>(n, seen, v, j),
    }
}

/// The texts of strings.
pub open spec fn texts(s: Seq<String>) -> Seq<Seq<char>> {
    Seq::new(s.len(), |i: int| s[i]@)
}

fn contains(seen: &Vec<String>, key: &str) -> (r: bool)
    ensures
        r == texts(seen@).contains(key@),
{
    let mut i: usize = 0;
    while i < seen.len()
        invariant
            i <= seen@.len(),
            forall|j: int| 0 <= j < i ==> #[trigger] seen@[j]@ != key@,
        decreases seen@.len() - i,
    {
        if str_eq(seen[i].as_str(), key) {
            assert(texts(seen@)[i as int] == key@);
            return true;
        }
        i += 1;
    }
    false
}

/// Walk a map's fields. Duplicate keys are a protocol error, unknown keys
/// are the visitor's to skip.
pub fn for_each_field<V: FieldVisitor>(r: &mut Reader<'_>, seen: &mut Vec<String>, f: &mut V) -> (res: Result<
    (),
    WireError,
>)
    ensures
        match map_of::<V>(texts(old(seen)@), old(f)@, old(r)@) {
            Ok((v, names, i)) => res is Ok && final(f)@ == v && texts(final(seen)@) == names && final(r)@ == i,
            Err(e) => res matches Err(err) && err@ == e,
        },
{
    let n: usize = match r.read_map() {
        Ok(n) => n,
        Err(e) => return Err(WireError::Encoding(e)),
    };
    let mut k: usize = 0;
    let ghost whole = map_of::<V>(texts(old(seen)@), old(f)@, old(r)@);
    while k < n
        invariant
            k <= n,
            whole == fields::<V>((n - k) as nat, texts(seen@), f@, r@),
            whole == map_of::<V>(texts(old(seen)@), old(f)@, old(r)@),
        decreases n - k,
    {
        let key = match r.read_str() {
            Ok(key) => key,
            Err(e) => return Err(WireError::Encoding(e)),
        };
        if contains(seen, key) {
            return Err(WireError::Duplicate(key.to_owned()));
        }
        let ghost before = texts(seen@);
        seen.push(key.to_owned());
        assert(texts(seen@) =~= before.push(key@));
        match f.visit(key, r) {
            Ok(()) => {},
            Err(e) => return Err(e),
        }
        k += 1;
    }
    Ok(())
}

/// `n` maps.
pub open spec fn maps<V: FieldVisitor>(n: nat, i: Input) -> Result<(Seq<V::V>, Input), Fault>
    decreases n,
{
    if n == 0 {
        Ok((Seq::empty(), i))
    } else {
        match map_of::<V>(Seq::empty(), V::start(), i) {
            Err(e) => Err(e),
            Ok((v, _, j)) => match maps::<V>((n - 1) as nat, j) {
                Err(e) => Err(e),
                Ok((more, k)) => Ok((seq![v] + more, k)),
            },
        }
    }
}

/// An array of maps.
pub open spec fn array_of<V: FieldVisitor>(i: Input) -> Result<(Seq<V::V>, Input), Fault> {
    match msgpack::read_array(i) {
        (Err(e), _) => Err(Fault::Encoding(e)),
        (Ok(n), j) => maps::<V>(n, j),
    }
}

pub open spec fn views<V: View>(s: Seq<V>) -> Seq<V::V> {
    Seq::new(s.len(), |i: int| s[i]@)
}

fn read_maps<V: FieldVisitor>(r: &mut Reader<'_>) -> (res: Result<Vec<V>, WireError>)
    ensures
        match array_of::<V>(old(r)@) {
            Ok((vs, i)) => res matches Ok(out) && views(out@) == vs && final(r)@ == i,
            Err(e) => res matches Err(err) && err@ == e,
        },
{
    let n: usize = match r.read_array() {
        Ok(n) => n,
        Err(e) => return Err(WireError::Encoding(e)),
    };
    let mut out: Vec<V> = Vec::new();
    let mut k: usize = 0;
    let ghost whole = array_of::<V>(old(r)@);
    while k < n
        invariant
            k <= n,
            whole == array_of::<V>(old(r)@),
            match maps::<V>((n - k) as nat, r@) {
                Ok((more, i)) => whole == Ok::<(Seq<V::V>, Input), Fault>((views(out@) + more, i)),
                Err(e) => whole == Err::<(Seq<V::V>, Input), Fault>(e),
            },
        decreases n - k,
    {
        let mut one = V::fresh();
        let mut seen: Vec<String> = Vec::new();
        assert(texts(seen@) =~= Seq::empty());
        match for_each_field(r, &mut seen, &mut one) {
            Ok(()) => {},
            Err(e) => return Err(e),
        }
        let ghost before = views(out@);
        out.push(one);
        assert(views(out@) =~= before.push(one@));
        proof {
            if let Ok((more, _)) = maps::<V>((n - k - 1) as nat, r@) {
                assert(before + (seq![one@] + more) =~= views(out@) + more);
            }
        }
        k += 1;
    }
    assert(views(out@) + Seq::empty() =~= views(out@));
    Ok(out)
}

// Requests.

#[derive(Debug, Clone, PartialEq, Eq)]
pub enum Request {
    /// One question: records of `rtype` at `name`.
    Resolve { name: String, rtype: u16, no_cache: bool },
    /// The addresses of a name, A and/or AAAA, search expansion applied,
    /// canonical name chased.
    Lookup { name: String, family: Family },
    /// The names of an address.
    Reverse { address: IpAddr },
    /// Scopes, counters, cache size.
    Status,
    /// Drop every cached answer.
    Flush,
}

/// A `Request` as a value.
#[verifier::ext_equal]
pub enum Ask {
    Resolve { name: Seq<char>, rtype: u16, no_cache: bool },
    Lookup { name: Seq<char>, family: Family },
    Reverse { address: Seq<u8> },
    Status,
    Flush,
}

impl View for Request {
    type V = Ask;

    open spec fn view(&self) -> Ask {
        match self {
            Request::Resolve { name, rtype, no_cache } => Ask::Resolve {
                name: name@,
                rtype: *rtype,
                no_cache: *no_cache,
            },
            Request::Lookup { name, family } => Ask::Lookup { name: name@, family: *family },
            Request::Reverse { address } => Ask::Reverse { address: address@ },
            Request::Status => Ask::Status,
            Request::Flush => Ask::Flush,
        }
    }
}

/// A key and what stands under it.
pub open spec fn field(key: Seq<char>, value: Seq<u8>) -> Seq<u8> {
    enc_str(key) + value
}

/// The text of an address as a string value.
pub open spec fn enc_ip(a: Seq<u8>) -> Seq<u8> {
    enc_str(text::chars(ip_text(a)))
}

pub open spec fn enc_ask(a: Ask) -> Seq<u8> {
    match a {
        Ask::Resolve { name, rtype, no_cache } => enc_map(4) + field("query"@, enc_str("resolve"@)) + field(
            "name"@,
            enc_str(name),
        ) + field("type"@, enc_uint(rtype as nat)) + field("no_cache"@, enc_bool(no_cache)),
        Ask::Lookup { name, family } => enc_map(3) + field("query"@, enc_str("lookup"@)) + field(
            "name"@,
            enc_str(name),
        ) + field("family"@, enc_str(family.text())),
        Ask::Reverse { address } => enc_map(2) + field("query"@, enc_str("reverse"@)) + field(
            "address"@,
            enc_ip(address),
        ),
        Ask::Status => enc_map(1) + field("query"@, enc_str("status"@)),
        Ask::Flush => enc_map(1) + field("query"@, enc_str("flush"@)),
    }
}

fn put_str(w: &mut Writer, key: &str, v: &str)
    ensures
        final(w)@ == old(w)@ + field(key@, enc_str(v@)),
{
    w.write_str(key).write_str(v);
    assert(w@ =~= old(w)@ + field(key@, enc_str(v@)));
}

fn put_uint(w: &mut Writer, key: &str, v: u64)
    ensures
        final(w)@ == old(w)@ + field(key@, enc_uint(v as nat)),
{
    w.write_str(key).write_uint(v);
    assert(w@ =~= old(w)@ + field(key@, enc_uint(v as nat)));
}

fn put_bool(w: &mut Writer, key: &str, v: bool)
    ensures
        final(w)@ == old(w)@ + field(key@, enc_bool(v)),
{
    w.write_str(key).write_bool(v);
    assert(w@ =~= old(w)@ + field(key@, enc_bool(v)));
}

fn put_ip(w: &mut Writer, key: &str, v: &IpAddr)
    ensures
        final(w)@ == old(w)@ + field(key@, enc_ip(v@)),
{
    let s = v.to_text();
    proof {
        lemma_ip_text_ascii(v@);
        text::lemma_ascii(ip_text(v@));
        text::lemma_bytes_determine_text(s@, text::chars(ip_text(v@)));
    }
    put_str(w, key, s.as_str());
}

/// The fields of a request, as far as they have come.
pub struct RequestFields {
    query: Option<String>,
    name: Option<String>,
    rtype: Option<u16>,
    no_cache: bool,
    family: Option<Family>,
    address: Option<String>,
}

pub struct AskFields {
    pub query: Option<Seq<char>>,
    pub name: Option<Seq<char>>,
    pub rtype: Option<u16>,
    pub no_cache: bool,
    pub family: Option<Family>,
    pub address: Option<Seq<char>>,
}

impl View for RequestFields {
    type V = AskFields;

    closed spec fn view(&self) -> AskFields {
        AskFields {
            query: opt_text(self.query),
            name: opt_text(self.name),
            rtype: self.rtype,
            no_cache: self.no_cache,
            family: self.family,
            address: opt_text(self.address),
        }
    }
}

/// One field of a request.
#[verifier::opaque]
pub open spec fn ask_step(v: AskFields, key: Seq<char>, i: Input) -> Result<(AskFields, Input), Fault> {
    if key == "query"@ {
        match msgpack::read_str(i) {
            (Ok(s), j) => Ok((AskFields { query: Some(s), ..v }, j)),
            (Err(e), _) => Err(Fault::Encoding(e)),
        }
    } else if key == "name"@ {
        match msgpack::read_str(i) {
            (Ok(s), j) => Ok((AskFields { name: Some(s), ..v }, j)),
            (Err(e), _) => Err(Fault::Encoding(e)),
        }
    } else if key == "type"@ {
        match msgpack::read_uint(i) {
            (Ok(n), j) => if n <= u16::MAX {
                Ok((AskFields { rtype: Some(n as u16), ..v }, j))
            } else {
                Err(Fault::Missing("type"@))
            },
            (Err(e), _) => Err(Fault::Encoding(e)),
        }
    } else if key == "no_cache"@ {
        match msgpack::read_bool(i) {
            (Ok(b), j) => Ok((AskFields { no_cache: b, ..v }, j)),
            (Err(e), _) => Err(Fault::Encoding(e)),
        }
    } else if key == "family"@ {
        match msgpack::read_str(i) {
            (Ok(s), j) => Ok((AskFields { family: Family::of_text(s), ..v }, j)),
            (Err(e), _) => Err(Fault::Encoding(e)),
        }
    } else if key == "address"@ {
        match msgpack::read_str(i) {
            (Ok(s), j) => Ok((AskFields { address: Some(s), ..v }, j)),
            (Err(e), _) => Err(Fault::Encoding(e)),
        }
    } else {
        match msgpack::skip(i) {
            (Ok(_), j) => Ok((v, j)),
            (Err(e), _) => Err(Fault::Encoding(e)),
        }
    }
}

pub open spec fn ask_start() -> AskFields {
    AskFields { query: None, name: None, rtype: None, no_cache: false, family: None, address: None }
}

fn read_string(r: &mut Reader<'_>) -> (res: Result<String, WireError>)
    ensures
        match msgpack::read_str(old(r)@) {
            (Ok(s), j) => res matches Ok(t) && t@ == s && final(r)@ == j,
            (Err(e), _) => res matches Err(err) && err@ == Fault::Encoding(e),
        },
{
    match r.read_str() {
        Ok(s) => Ok(s.to_owned()),
        Err(e) => Err(WireError::Encoding(e)),
    }
}

fn read_number(r: &mut Reader<'_>) -> (res: Result<u64, WireError>)
    ensures
        match msgpack::read_uint(old(r)@) {
            (Ok(n), j) => res matches Ok(m) && m == n && final(r)@ == j,
            (Err(e), _) => res matches Err(err) && err@ == Fault::Encoding(e),
        },
{
    match r.read_uint() {
        Ok(n) => Ok(n),
        Err(e) => Err(WireError::Encoding(e)),
    }
}

fn read_flag(r: &mut Reader<'_>) -> (res: Result<bool, WireError>)
    ensures
        match msgpack::read_bool(old(r)@) {
            (Ok(n), j) => res matches Ok(m) && m == n && final(r)@ == j,
            (Err(e), _) => res matches Err(err) && err@ == Fault::Encoding(e),
        },
{
    match r.read_bool() {
        Ok(n) => Ok(n),
        Err(e) => Err(WireError::Encoding(e)),
    }
}

fn ignore(r: &mut Reader<'_>) -> (res: Result<(), WireError>)
    ensures
        match msgpack::skip(old(r)@) {
            (Ok(_), j) => res is Ok && final(r)@ == j,
            (Err(e), _) => res matches Err(err) && err@ == Fault::Encoding(e),
        },
{
    match r.skip() {
        Ok(n) => Ok(()),
        Err(e) => Err(WireError::Encoding(e)),
    }
}

impl FieldVisitor for RequestFields {
    open spec fn start() -> AskFields {
        ask_start()
    }

    open spec fn step(v: AskFields, key: Seq<char>, i: Input) -> Result<(AskFields, Input), Fault> {
        ask_step(v, key, i)
    }

    fn fresh() -> (r: RequestFields) {
        RequestFields { query: None, name: None, rtype: None, no_cache: false, family: None, address: None }
    }

    fn visit(&mut self, key: &str, r: &mut Reader<'_>) -> (res: Result<(), WireError>) {
        reveal(ask_step);
        if str_eq(key, "query") {
            self.query = Some(read_string(r)?);
        } else if str_eq(key, "name") {
            self.name = Some(read_string(r)?);
        } else if str_eq(key, "type") {
            let n: u64 = read_number(r)?;
            if n > u16::MAX as u64 {
                return Err(WireError::Missing("type"));
            }
            self.rtype = Some(n as u16);
        } else if str_eq(key, "no_cache") {
            self.no_cache = read_flag(r)?;
        } else if str_eq(key, "family") {
            let s = read_string(r)?;
            self.family = Family::parse(s.as_str());
        } else if str_eq(key, "address") {
            self.address = Some(read_string(r)?);
        } else {
            ignore(r)?;
        }
        Ok(())
    }
}

/// The request that its fields make.
pub open spec fn ask_of(f: AskFields) -> Result<Ask, Fault> {
    match f.query {
        None => Err(Fault::Missing("query"@)),
        Some(q) => if q == "resolve"@ {
            match (f.name, f.rtype) {
                (None, _) => Err(Fault::Missing("name"@)),
                (Some(_), None) => Err(Fault::Missing("type"@)),
                (Some(name), Some(rtype)) => Ok(Ask::Resolve { name, rtype, no_cache: f.no_cache }),
            }
        } else if q == "lookup"@ {
            match f.name {
                None => Err(Fault::Missing("name"@)),
                Some(name) => Ok(Ask::Lookup { name, family: f.family.unwrap_or(Family::Any) }),
            }
        } else if q == "reverse"@ {
            match f.address {
                None => Err(Fault::Missing("address"@)),
                Some(s) => match ip_of_text(encode_utf8(s)) {
                    None => Err(Fault::Missing("address"@)),
                    Some(address) => Ok(Ask::Reverse { address }),
                },
            }
        } else if q == "status"@ {
            Ok(Ask::Status)
        } else if q == "flush"@ {
            Ok(Ask::Flush)
        } else {
            Err(Fault::UnknownQuery(q))
        },
    }
}

/// The request that a message is.
pub open spec fn dec_ask(b: Seq<u8>) -> Result<Ask, Fault> {
    match map_of::<RequestFields>(Seq::empty(), ask_start(), input(b, 0)) {
        Err(e) => Err(e),
        Ok((f, _, _)) => ask_of(f),
    }
}

impl Request {
    pub fn encode(&self) -> (r: Vec<u8>)
        ensures
            r@ == enc_ask(self@),
    {
        let mut w = Writer::new();
        match self {
            Request::Resolve { name, rtype, no_cache } => {
                w.write_map(4);
                put_str(&mut w, "query", "resolve");
                put_str(&mut w, "name", name.as_str());
                put_uint(&mut w, "type", *rtype as u64);
                put_bool(&mut w, "no_cache", *no_cache);
            },
            Request::Lookup { name, family } => {
                w.write_map(3);
                put_str(&mut w, "query", "lookup");
                put_str(&mut w, "name", name.as_str());
                put_str(&mut w, "family", family.as_str());
            },
            Request::Reverse { address } => {
                w.write_map(2);
                put_str(&mut w, "query", "reverse");
                put_ip(&mut w, "address", address);
            },
            Request::Status => {
                w.write_map(1);
                put_str(&mut w, "query", "status");
            },
            Request::Flush => {
                w.write_map(1);
                put_str(&mut w, "query", "flush");
            },
        }
        assert(w@ =~= enc_ask(self@));
        w.into_bytes()
    }

    pub fn decode(bytes: &[u8]) -> (r: Result<Request, WireError>)
        ensures
            match dec_ask(bytes@) {
                Ok(a) => r matches Ok(q) && q@ == a,
                Err(e) => r matches Err(err) && err@ == e,
            },
    {
        let mut r = Reader::new(bytes);
        let mut f = RequestFields::fresh();
        let mut seen: Vec<String> = Vec::new();
        assert(texts(seen@) =~= Seq::empty());
        for_each_field(&mut r, &mut seen, &mut f)?;
        let query = match f.query {
            Some(query) => query,
            None => return Err(WireError::Missing("query")),
        };
        if str_eq(query.as_str(), "resolve") {
            match (f.name, f.rtype) {
                (None, _) => Err(WireError::Missing("name")),
                (Some(_), None) => Err(WireError::Missing("type")),
                (Some(name), Some(rtype)) => Ok(Request::Resolve { name, rtype, no_cache: f.no_cache }),
            }
        } else if str_eq(query.as_str(), "lookup") {
            match f.name {
                None => Err(WireError::Missing("name")),
                Some(name) => Ok(
                    Request::Lookup {
                        name,
                        family: match f.family {
                            Some(family) => family,
                            None => Family::Any,
                        },
                    },
                ),
            }
        } else if str_eq(query.as_str(), "reverse") {
            match f.address {
                None => Err(WireError::Missing("address")),
                Some(s) => match IpAddr::parse(s.as_str()) {
                    None => Err(WireError::Missing("address")),
                    Some(address) => Ok(Request::Reverse { address }),
                },
            }
        } else if str_eq(query.as_str(), "status") {
            Ok(Request::Status)
        } else if str_eq(query.as_str(), "flush") {
            Ok(Request::Flush)
        } else {
            Err(WireError::UnknownQuery(query))
        }
    }

    /// The right on the control object that a caller needs.
    pub fn required_right(&self) -> (r: u32)
        ensures
            r == if self@ is Flush { RESOLVER_CONTROL } else { RESOLVER_QUERY },
    {
        match self {
            Request::Flush => RESOLVER_CONTROL,
            _ => RESOLVER_QUERY,
        }
    }
}

// Replies.

/// One resource record as reported.
#[derive(Debug, Clone, PartialEq, Eq)]
pub struct RecordOut {
    pub name: String,
    pub rtype: u16,
    pub ttl: u32,
    /// The rdata in wire form, uncompressed.
    pub data: Vec<u8>,
    /// The rdata in presentation form.
    pub text: String,
}

/// The reply to `resolve` and `reverse`.
#[derive(Debug, Clone, PartialEq, Eq)]
pub struct Answer {
    pub outcome: Outcome,
    pub records: Vec<RecordOut>,
    /// `synthetic`, `hosts`, `cache`, `dns`.
    pub source: String,
    /// The upstream that answered, for `dns`.
    pub server: Option<String>,
    /// The interface whose scope answered.
    pub interface: Option<String>,
    pub validation: Validation,
    /// The DNS response code, for `dns`.
    pub rcode: u16,
}

/// One address from `lookup`.
#[derive(Debug, Clone, PartialEq, Eq)]
pub struct AddressOut {
    pub address: IpAddr,
    pub ttl: u32,
}

/// The reply to `lookup`.
#[derive(Debug, Clone, PartialEq, Eq)]
pub struct Addresses {
    pub outcome: Outcome,
    /// The name the addresses belong to after CNAME chasing and search
    /// expansion; the name asked for when neither applied.
    pub canonical: String,
    pub addresses: Vec<AddressOut>,
    pub source: String,
    pub validation: Validation,
}

/// One scope in `status`: an interface's contribution.
#[derive(Debug, Clone, PartialEq, Eq)]
pub struct ScopeStatus {
    pub interface: String,
    pub servers: Vec<String>,
    pub domains: Vec<String>,
    pub default_route: bool,
    pub exclusive: bool,
    pub metric: u32,
    pub subnets: Vec<String>,
    /// Servers currently demoted after failures.
    pub demoted: Vec<String>,
}

#[derive(Debug, Clone, Copy, PartialEq, Eq, Structural)]
pub struct Counters {
    pub queries: u64,
    pub synthetic: u64,
    pub cache_hits: u64,
    pub upstream_sent: u64,
    pub upstream_answered: u64,
    pub upstream_failed: u64,
    pub refused: u64,
}

#[derive(Debug, Clone, PartialEq, Eq)]
pub struct StatusReport {
    pub hostname: String,
    /// Whether the network daemon's channel is up.
    pub netd: bool,
    pub scopes: Vec<ScopeStatus>,
    pub fallback_servers: Vec<String>,
    pub cache_entries: u64,
    pub counters: Counters,
}

#[derive(Debug, Clone, PartialEq, Eq)]
pub enum Reply {
    Okay,
    Error(String),
    Answer(Answer),
    Addresses(Addresses),
    Status(StatusReport),
}

#[verifier::ext_equal]
pub struct RecordOutView {
    pub name: Seq<char>,
    pub rtype: u16,
    pub ttl: u32,
    pub data: Seq<u8>,
    pub text: Seq<char>,
}

#[verifier::ext_equal]
pub struct AnswerView {
    pub outcome: Outcome,
    pub records: Seq<RecordOutView>,
    pub source: Seq<char>,
    pub server: Option<Seq<char>>,
    pub interface: Option<Seq<char>>,
    pub validation: Validation,
    pub rcode: u16,
}

#[verifier::ext_equal]
pub struct AddressOutView {
    pub address: Seq<u8>,
    pub ttl: u32,
}

#[verifier::ext_equal]
pub struct AddressesView {
    pub outcome: Outcome,
    pub canonical: Seq<char>,
    pub addresses: Seq<AddressOutView>,
    pub source: Seq<char>,
    pub validation: Validation,
}

#[verifier::ext_equal]
pub struct ScopeStatusView {
    pub interface: Seq<char>,
    pub servers: Seq<Seq<char>>,
    pub domains: Seq<Seq<char>>,
    pub default_route: bool,
    pub exclusive: bool,
    pub metric: u32,
    pub subnets: Seq<Seq<char>>,
    pub demoted: Seq<Seq<char>>,
}

#[verifier::ext_equal]
pub struct StatusReportView {
    pub hostname: Seq<char>,
    pub netd: bool,
    pub scopes: Seq<ScopeStatusView>,
    pub fallback_servers: Seq<Seq<char>>,
    pub cache_entries: u64,
    pub counters: Counters,
}

#[verifier::ext_equal]
pub enum ReplyView {
    Okay,
    Error(Seq<char>),
    Answer(AnswerView),
    Addresses(AddressesView),
    Status(StatusReportView),
}

impl View for RecordOut {
    type V = RecordOutView;

    open spec fn view(&self) -> RecordOutView {
        RecordOutView {
            name: self.name@,
            rtype: self.rtype,
            ttl: self.ttl,
            data: self.data@,
            text: self.text@,
        }
    }
}

impl View for Answer {
    type V = AnswerView;

    open spec fn view(&self) -> AnswerView {
        AnswerView {
            outcome: self.outcome,
            records: views(self.records@),
            source: self.source@,
            server: opt_text(self.server),
            interface: opt_text(self.interface),
            validation: self.validation,
            rcode: self.rcode,
        }
    }
}

impl View for AddressOut {
    type V = AddressOutView;

    open spec fn view(&self) -> AddressOutView {
        AddressOutView { address: self.address@, ttl: self.ttl }
    }
}

impl View for Addresses {
    type V = AddressesView;

    open spec fn view(&self) -> AddressesView {
        AddressesView {
            outcome: self.outcome,
            canonical: self.canonical@,
            addresses: views(self.addresses@),
            source: self.source@,
            validation: self.validation,
        }
    }
}

impl View for ScopeStatus {
    type V = ScopeStatusView;

    open spec fn view(&self) -> ScopeStatusView {
        ScopeStatusView {
            interface: self.interface@,
            servers: texts(self.servers@),
            domains: texts(self.domains@),
            default_route: self.default_route,
            exclusive: self.exclusive,
            metric: self.metric,
            subnets: texts(self.subnets@),
            demoted: texts(self.demoted@),
        }
    }
}

impl View for Counters {
    type V = Counters;

    open spec fn view(&self) -> Counters {
        *self
    }
}

impl View for StatusReport {
    type V = StatusReportView;

    open spec fn view(&self) -> StatusReportView {
        StatusReportView {
            hostname: self.hostname@,
            netd: self.netd,
            scopes: views(self.scopes@),
            fallback_servers: texts(self.fallback_servers@),
            cache_entries: self.cache_entries,
            counters: self.counters,
        }
    }
}

impl View for Reply {
    type V = ReplyView;

    open spec fn view(&self) -> ReplyView {
        match self {
            Reply::Okay => ReplyView::Okay,
            Reply::Error(m) => ReplyView::Error(m@),
            Reply::Answer(a) => ReplyView::Answer(a@),
            Reply::Addresses(a) => ReplyView::Addresses(a@),
            Reply::Status(s) => ReplyView::Status(s@),
        }
    }
}

pub open spec fn no_record() -> RecordOutView {
    RecordOutView {
        name: Seq::empty(),
        rtype: 0,
        ttl: 0,
        data: Seq::empty(),
        text: Seq::empty(),
    }
}

pub open spec fn no_answer() -> AnswerView {
    AnswerView {
        outcome: Outcome::Unavailable,
        records: Seq::empty(),
        source: Seq::empty(),
        server: None,
        interface: None,
        validation: Validation::Unvalidated,
        rcode: 0,
    }
}

pub open spec fn no_addresses() -> AddressesView {
    AddressesView {
        outcome: Outcome::Unavailable,
        canonical: Seq::empty(),
        addresses: Seq::empty(),
        source: Seq::empty(),
        validation: Validation::Unvalidated,
    }
}

pub open spec fn no_scope() -> ScopeStatusView {
    ScopeStatusView {
        interface: Seq::empty(),
        servers: Seq::empty(),
        domains: Seq::empty(),
        default_route: false,
        exclusive: false,
        metric: 0,
        subnets: Seq::empty(),
        demoted: Seq::empty(),
    }
}

pub open spec fn no_counts() -> Counters {
    Counters {
        queries: 0,
        synthetic: 0,
        cache_hits: 0,
        upstream_sent: 0,
        upstream_answered: 0,
        upstream_failed: 0,
        refused: 0,
    }
}

pub open spec fn no_status() -> StatusReportView {
    StatusReportView {
        hostname: Seq::empty(),
        netd: false,
        scopes: Seq::empty(),
        fallback_servers: Seq::empty(),
        cache_entries: 0,
        counters: no_counts(),
    }
}

impl Default for RecordOut {
    fn default() -> (r: RecordOut)
        ensures
            r@ == no_record(),
    {
        let r = RecordOut { name: String::new(), rtype: 0, ttl: 0, data: Vec::new(), text: String::new() };
        assert(r@ =~= no_record());
        r
    }
}

impl Default for Answer {
    fn default() -> (r: Answer)
        ensures
            r@ == no_answer(),
    {
        let r = Answer {
            outcome: Outcome::Unavailable,
            records: Vec::new(),
            source: String::new(),
            server: None,
            interface: None,
            validation: Validation::Unvalidated,
            rcode: 0,
        };
        assert(r@ =~= no_answer());
        r
    }
}

impl Default for Addresses {
    fn default() -> (r: Addresses)
        ensures
            r@ == no_addresses(),
    {
        let r = Addresses {
            outcome: Outcome::Unavailable,
            canonical: String::new(),
            addresses: Vec::new(),
            source: String::new(),
            validation: Validation::Unvalidated,
        };
        assert(r@ =~= no_addresses());
        r
    }
}

impl Default for ScopeStatus {
    fn default() -> (r: ScopeStatus)
        ensures
            r@ == no_scope(),
    {
        let r = ScopeStatus {
            interface: String::new(),
            servers: Vec::new(),
            domains: Vec::new(),
            default_route: false,
            exclusive: false,
            metric: 0,
            subnets: Vec::new(),
            demoted: Vec::new(),
        };
        assert(r@ =~= no_scope());
        r
    }
}

impl Default for Counters {
    fn default() -> (r: Counters)
        ensures
            r == no_counts(),
    {
        Counters {
            queries: 0,
            synthetic: 0,
            cache_hits: 0,
            upstream_sent: 0,
            upstream_answered: 0,
            upstream_failed: 0,
            refused: 0,
        }
    }
}

impl Default for StatusReport {
    fn default() -> (r: StatusReport)
        ensures
            r@ == no_status(),
    {
        let r = StatusReport {
            hostname: String::new(),
            netd: false,
            scopes: Vec::new(),
            fallback_servers: Vec::new(),
            cache_entries: 0,
            counters: Counters::default(),
        };
        assert(r@ =~= no_status());
        r
    }
}

// Replies on the wire.

/// A count cut to the four bytes it is written in.
pub open spec fn count32(n: nat) -> nat {
    n % 0x1_0000_0000
}

fn to_count(n: usize) -> (r: u32)
    ensures
        r == count32(n as nat),
{
    (n as u64 % 0x1_0000_0000) as u32
}

pub open spec fn enc_strs(s: Seq<Seq<char>>) -> Seq<u8>
    decreases s.len(),
{
    if s.len() == 0 {
        Seq::empty()
    } else {
        enc_strs(s.drop_last()) + enc_str(s.last())
    }
}

pub open spec fn enc_str_list(s: Seq<Seq<char>>) -> Seq<u8> {
    enc_array(count32(s.len())) + enc_strs(s)
}

pub open spec fn enc_opt_str(s: Option<Seq<char>>) -> Seq<u8> {
    match s {
        Some(s) => enc_str(s),
        None => enc_nil(),
    }
}

pub open spec fn enc_record(r: RecordOutView) -> Seq<u8> {
    enc_map(5) + field("name"@, enc_str(r.name)) + field("type"@, enc_uint(r.rtype as nat)) + field(
        "ttl"@,
        enc_uint(r.ttl as nat),
    ) + field("data"@, enc_bin(r.data)) + field("text"@, enc_str(r.text))
}

pub open spec fn enc_records(s: Seq<RecordOutView>) -> Seq<u8>
    decreases s.len(),
{
    if s.len() == 0 {
        Seq::empty()
    } else {
        enc_records(s.drop_last()) + enc_record(s.last())
    }
}

pub open spec fn enc_address(a: AddressOutView) -> Seq<u8> {
    enc_map(2) + field("address"@, enc_ip(a.address)) + field("ttl"@, enc_uint(a.ttl as nat))
}

pub open spec fn enc_address_list(s: Seq<AddressOutView>) -> Seq<u8>
    decreases s.len(),
{
    if s.len() == 0 {
        Seq::empty()
    } else {
        enc_address_list(s.drop_last()) + enc_address(s.last())
    }
}

pub open spec fn enc_scope(s: ScopeStatusView) -> Seq<u8> {
    enc_map(8) + field("interface"@, enc_str(s.interface)) + field("servers"@, enc_str_list(s.servers)) + field(
        "domains"@,
        enc_str_list(s.domains),
    ) + field("default_route"@, enc_bool(s.default_route)) + field("exclusive"@, enc_bool(s.exclusive)) + field(
        "metric"@,
        enc_uint(s.metric as nat),
    ) + field("subnets"@, enc_str_list(s.subnets)) + field("demoted"@, enc_str_list(s.demoted))
}

pub open spec fn enc_scopes(s: Seq<ScopeStatusView>) -> Seq<u8>
    decreases s.len(),
{
    if s.len() == 0 {
        Seq::empty()
    } else {
        enc_scopes(s.drop_last()) + enc_scope(s.last())
    }
}

pub open spec fn enc_counters(c: Counters) -> Seq<u8> {
    enc_map(7) + field("queries"@, enc_uint(c.queries as nat)) + field(
        "synthetic"@,
        enc_uint(c.synthetic as nat),
    ) + field("cache_hits"@, enc_uint(c.cache_hits as nat)) + field(
        "upstream_sent"@,
        enc_uint(c.upstream_sent as nat),
    ) + field("upstream_answered"@, enc_uint(c.upstream_answered as nat)) + field(
        "upstream_failed"@,
        enc_uint(c.upstream_failed as nat),
    ) + field("refused"@, enc_uint(c.refused as nat))
}

pub open spec fn enc_answer(a: AnswerView) -> Seq<u8> {
    enc_map(9) + field("ok"@, enc_bool(true)) + field("kind"@, enc_str("answer"@)) + field(
        "outcome"@,
        enc_str(a.outcome.text()),
    ) + field("records"@, enc_array(count32(a.records.len())) + enc_records(a.records)) + field(
        "source"@,
        enc_str(a.source),
    ) + field("server"@, enc_opt_str(a.server)) + field("interface"@, enc_opt_str(a.interface)) + field(
        "validation"@,
        enc_str(a.validation.text()),
    ) + field("rcode"@, enc_uint(a.rcode as nat))
}

pub open spec fn enc_addresses(a: AddressesView) -> Seq<u8> {
    enc_map(7) + field("ok"@, enc_bool(true)) + field("kind"@, enc_str("addresses"@)) + field(
        "outcome"@,
        enc_str(a.outcome.text()),
    ) + field("canonical"@, enc_str(a.canonical)) + field(
        "addresses"@,
        enc_array(count32(a.addresses.len())) + enc_address_list(a.addresses),
    ) + field("source"@, enc_str(a.source)) + field("validation"@, enc_str(a.validation.text()))
}

pub open spec fn enc_status(s: StatusReportView) -> Seq<u8> {
    enc_map(8) + field("ok"@, enc_bool(true)) + field("kind"@, enc_str("status"@)) + field(
        "hostname"@,
        enc_str(s.hostname),
    ) + field("netd"@, enc_bool(s.netd)) + field(
        "scopes"@,
        enc_array(count32(s.scopes.len())) + enc_scopes(s.scopes),
    ) + field("fallback_servers"@, enc_str_list(s.fallback_servers)) + field(
        "cache_entries"@,
        enc_uint(s.cache_entries as nat),
    ) + field("counters"@, enc_counters(s.counters))
}

pub open spec fn enc_reply(r: ReplyView) -> Seq<u8> {
    match r {
        ReplyView::Okay => enc_map(1) + field("ok"@, enc_bool(true)),
        ReplyView::Error(m) => enc_map(2) + field("ok"@, enc_bool(false)) + field("error"@, enc_str(m)),
        ReplyView::Answer(a) => enc_answer(a),
        ReplyView::Addresses(a) => enc_addresses(a),
        ReplyView::Status(s) => enc_status(s),
    }
}

fn write_str_list(w: &mut Writer, key: &str, items: &Vec<String>)
    ensures
        final(w)@ == old(w)@ + field(key@, enc_str_list(texts(items@))),
{
    let ghost all = texts(items@);
    w.write_str(key).write_array(to_count(items.len()));
    let ghost start = w@;
    let mut i: usize = 0;
    while i < items.len()
        invariant
            i <= items@.len(),
            all == texts(items@),
            w@ =~= start + enc_strs(all.take(i as int)),
        decreases items@.len() - i,
    {
        assert(all.take(i + 1).drop_last() =~= all.take(i as int));
        w.write_str(items[i].as_str());
        i += 1;
    }
    assert(all.take(i as int) =~= all);
    assert(w@ =~= old(w)@ + field(key@, enc_str_list(all)));
}

fn write_opt_str(w: &mut Writer, key: &str, v: &Option<String>)
    ensures
        final(w)@ == old(w)@ + field(key@, enc_opt_str(opt_text(*v))),
{
    w.write_str(key);
    match v {
        Some(s) => {
            w.write_str(s.as_str());
        },
        None => {
            w.write_nil();
        },
    }
    assert(w@ =~= old(w)@ + field(key@, enc_opt_str(opt_text(*v))));
}

impl RecordOut {
    fn put(&self, w: &mut Writer)
        ensures
            final(w)@ == old(w)@ + enc_record(self@),
    {
        w.write_map(5);
        put_str(w, "name", self.name.as_str());
        put_uint(w, "type", self.rtype as u64);
        put_uint(w, "ttl", self.ttl as u64);
        w.write_str("data").write_bin(self.data.as_slice());
        put_str(w, "text", self.text.as_str());
        proof {
            broadcast use octets::lemma_join;

        }
    }
}

impl AddressOut {
    fn put(&self, w: &mut Writer)
        ensures
            final(w)@ == old(w)@ + enc_address(self@),
    {
        w.write_map(2);
        put_ip(w, "address", &self.address);
        put_uint(w, "ttl", self.ttl as u64);
        proof {
            broadcast use octets::lemma_join;

        }
    }
}

impl ScopeStatus {
    fn put(&self, w: &mut Writer)
        ensures
            final(w)@ == old(w)@ + enc_scope(self@),
    {
        w.write_map(8);
        put_str(w, "interface", self.interface.as_str());
        write_str_list(w, "servers", &self.servers);
        write_str_list(w, "domains", &self.domains);
        put_bool(w, "default_route", self.default_route);
        put_bool(w, "exclusive", self.exclusive);
        put_uint(w, "metric", self.metric as u64);
        write_str_list(w, "subnets", &self.subnets);
        write_str_list(w, "demoted", &self.demoted);
        proof {
            broadcast use octets::lemma_join;

        }
    }
}

impl Counters {
    fn put(&self, w: &mut Writer)
        ensures
            final(w)@ == old(w)@ + enc_counters(*self),
    {
        w.write_map(7);
        put_uint(w, "queries", self.queries);
        put_uint(w, "synthetic", self.synthetic);
        put_uint(w, "cache_hits", self.cache_hits);
        put_uint(w, "upstream_sent", self.upstream_sent);
        put_uint(w, "upstream_answered", self.upstream_answered);
        put_uint(w, "upstream_failed", self.upstream_failed);
        put_uint(w, "refused", self.refused);
        proof {
            broadcast use octets::lemma_join;

        }
    }
}

impl Answer {
    fn put(&self, w: &mut Writer)
        ensures
            final(w)@ == old(w)@ + enc_answer(self@),
    {
        let ghost all = self@.records;
        w.write_map(9);
        put_bool(w, "ok", true);
        put_str(w, "kind", "answer");
        put_str(w, "outcome", self.outcome.as_str());
        let ghost before = w@;
        w.write_str("records").write_array(to_count(self.records.len()));
        let ghost start = w@;
        let mut i: usize = 0;
        while i < self.records.len()
            invariant
                i <= self.records@.len(),
                all == views(self.records@),
                w@ =~= start + enc_records(all.take(i as int)),
            decreases self.records@.len() - i,
        {
            assert(all.take(i + 1).drop_last() =~= all.take(i as int));
            self.records[i].put(w);
            i += 1;
        }
        assert(all.take(i as int) =~= all);
        assert(w@ =~= before + field("records"@, enc_array(count32(all.len())) + enc_records(all)));
        put_str(w, "source", self.source.as_str());
        write_opt_str(w, "server", &self.server);
        write_opt_str(w, "interface", &self.interface);
        put_str(w, "validation", self.validation.as_str());
        put_uint(w, "rcode", self.rcode as u64);
        proof {
            broadcast use octets::lemma_join;

        }
    }
}

impl Addresses {
    fn put(&self, w: &mut Writer)
        ensures
            final(w)@ == old(w)@ + enc_addresses(self@),
    {
        let ghost all = self@.addresses;
        w.write_map(7);
        put_bool(w, "ok", true);
        put_str(w, "kind", "addresses");
        put_str(w, "outcome", self.outcome.as_str());
        put_str(w, "canonical", self.canonical.as_str());
        let ghost before = w@;
        w.write_str("addresses").write_array(to_count(self.addresses.len()));
        let ghost start = w@;
        let mut i: usize = 0;
        while i < self.addresses.len()
            invariant
                i <= self.addresses@.len(),
                all == views(self.addresses@),
                w@ =~= start + enc_address_list(all.take(i as int)),
            decreases self.addresses@.len() - i,
        {
            assert(all.take(i + 1).drop_last() =~= all.take(i as int));
            self.addresses[i].put(w);
            i += 1;
        }
        assert(all.take(i as int) =~= all);
        assert(w@ =~= before + field("addresses"@, enc_array(count32(all.len())) + enc_address_list(all)));
        put_str(w, "source", self.source.as_str());
        put_str(w, "validation", self.validation.as_str());
        proof {
            broadcast use octets::lemma_join;

        }
    }
}

impl StatusReport {
    fn put(&self, w: &mut Writer)
        ensures
            final(w)@ == old(w)@ + enc_status(self@),
    {
        let ghost all = self@.scopes;
        w.write_map(8);
        put_bool(w, "ok", true);
        put_str(w, "kind", "status");
        put_str(w, "hostname", self.hostname.as_str());
        put_bool(w, "netd", self.netd);
        let ghost before = w@;
        w.write_str("scopes").write_array(to_count(self.scopes.len()));
        let ghost start = w@;
        let mut i: usize = 0;
        while i < self.scopes.len()
            invariant
                i <= self.scopes@.len(),
                all == views(self.scopes@),
                w@ =~= start + enc_scopes(all.take(i as int)),
            decreases self.scopes@.len() - i,
        {
            assert(all.take(i + 1).drop_last() =~= all.take(i as int));
            self.scopes[i].put(w);
            i += 1;
        }
        assert(all.take(i as int) =~= all);
        assert(w@ =~= before + field("scopes"@, enc_array(count32(all.len())) + enc_scopes(all)));
        write_str_list(w, "fallback_servers", &self.fallback_servers);
        put_uint(w, "cache_entries", self.cache_entries);
        let ghost before = w@;
        w.write_str("counters");
        self.counters.put(w);
        assert(w@ =~= before + field("counters"@, enc_counters(self.counters)));
        proof {
            broadcast use octets::lemma_join;

        }
    }
}

impl Reply {
    pub fn encode(&self) -> (r: Vec<u8>)
        ensures
            r@ == enc_reply(self@),
    {
        let mut w = Writer::new();
        match self {
            Reply::Okay => {
                w.write_map(1);
                put_bool(&mut w, "ok", true);
            },
            Reply::Error(message) => {
                w.write_map(2);
                put_bool(&mut w, "ok", false);
                put_str(&mut w, "error", message.as_str());
            },
            Reply::Answer(a) => a.put(&mut w),
            Reply::Addresses(a) => a.put(&mut w),
            Reply::Status(s) => s.put(&mut w),
        }
        assert(w@ =~= enc_reply(self@));
        w.into_bytes()
    }
}

/// `n` strings.
pub open spec fn strs(n: nat, i: Input) -> Result<(Seq<Seq<char>>, Input), Fault>
    decreases n,
{
    if n == 0 {
        Ok((Seq::empty(), i))
    } else {
        match msgpack::read_str(i) {
            (Err(e), _) => Err(Fault::Encoding(e)),
            (Ok(s), j) => match strs((n - 1) as nat, j) {
                Err(e) => Err(e),
                Ok((more, k)) => Ok((seq![s] + more, k)),
            },
        }
    }
}

/// An array of strings.
pub open spec fn str_list(i: Input) -> Result<(Seq<Seq<char>>, Input), Fault> {
    match msgpack::read_array(i) {
        (Err(e), _) => Err(Fault::Encoding(e)),
        (Ok(n), j) => strs(n, j),
    }
}

/// A string or nil.
pub open spec fn opt_str(i: Input) -> Result<(Option<Seq<char>>, Input), Fault> {
    if msgpack::peek(i) == Some(Type::Nil) {
        match msgpack::read_nil(i) {
            (Ok(_), j) => Ok((None, j)),
            (Err(e), _) => Err(Fault::Encoding(e)),
        }
    } else {
        match msgpack::read_str(i) {
            (Ok(s), j) => Ok((Some(s), j)),
            (Err(e), _) => Err(Fault::Encoding(e)),
        }
    }
}

fn read_str_list(r: &mut Reader<'_>) -> (res: Result<Vec<String>, WireError>)
    ensures
        match str_list(old(r)@) {
            Ok((ss, i)) => res matches Ok(out) && texts(out@) == ss && final(r)@ == i,
            Err(e) => res matches Err(err) && err@ == e,
        },
{
    let n: usize = match r.read_array() {
        Ok(n) => n,
        Err(e) => return Err(WireError::Encoding(e)),
    };
    let mut out: Vec<String> = Vec::new();
    let mut k: usize = 0;
    let ghost whole = str_list(old(r)@);
    while k < n
        invariant
            k <= n,
            whole == str_list(old(r)@),
            match strs((n - k) as nat, r@) {
                Ok((more, i)) => whole == Ok::<(Seq<Seq<char>>, Input), Fault>((texts(out@) + more, i)),
                Err(e) => whole == Err::<(Seq<Seq<char>>, Input), Fault>(e),
            },
        decreases n - k,
    {
        let s = read_string(r)?;
        let ghost before = texts(out@);
        out.push(s);
        assert(texts(out@) =~= before.push(s@));
        proof {
            if let Ok((more, _)) = strs((n - k - 1) as nat, r@) {
                assert(before + (seq![s@] + more) =~= texts(out@) + more);
            }
        }
        k += 1;
    }
    assert(texts(out@) + Seq::empty() =~= texts(out@));
    Ok(out)
}

fn read_opt_str(r: &mut Reader<'_>) -> (res: Result<Option<String>, WireError>)
    ensures
        match opt_str(old(r)@) {
            Ok((s, i)) => res matches Ok(out) && opt_text(out) == s && final(r)@ == i,
            Err(e) => res matches Err(err) && err@ == e,
        },
{
    let nil = match r.peek() {
        Some(Type::Nil) => true,
        _ => false,
    };
    if nil {
        match r.read_nil() {
            Ok(_) => Ok(None),
            Err(e) => Err(WireError::Encoding(e)),
        }
    } else {
        Ok(Some(read_string(r)?))
    }
}

/// One field of a record.
#[verifier::opaque]
pub open spec fn record_step(v: RecordOutView, key: Seq<char>, i: Input) -> Result<(RecordOutView, Input), Fault> {
    if key == "name"@ {
        match msgpack::read_str(i) {
            (Ok(x), j) => Ok((RecordOutView { name: x, ..v }, j)),
            (Err(e), _) => Err(Fault::Encoding(e)),
        }
    } else if key == "type"@ {
        match msgpack::read_uint(i) {
            (Ok(x), j) => Ok((RecordOutView { rtype: (x % 0x1_0000) as u16, ..v }, j)),
            (Err(e), _) => Err(Fault::Encoding(e)),
        }
    } else if key == "ttl"@ {
        match msgpack::read_uint(i) {
            (Ok(x), j) => Ok((RecordOutView { ttl: (x % 0x1_0000_0000) as u32, ..v }, j)),
            (Err(e), _) => Err(Fault::Encoding(e)),
        }
    } else if key == "data"@ {
        match msgpack::read_bin(i) {
            (Ok(x), j) => Ok((RecordOutView { data: x, ..v }, j)),
            (Err(e), _) => Err(Fault::Encoding(e)),
        }
    } else if key == "text"@ {
        match msgpack::read_str(i) {
            (Ok(x), j) => Ok((RecordOutView { text: x, ..v }, j)),
            (Err(e), _) => Err(Fault::Encoding(e)),
        }
    } else {
        match msgpack::skip(i) {
            (Ok(_), j) => Ok((v, j)),
            (Err(e), _) => Err(Fault::Encoding(e)),
        }
    }
}

impl FieldVisitor for RecordOut {
    open spec fn start() -> RecordOutView {
        no_record()
    }

    open spec fn step(v: RecordOutView, key: Seq<char>, i: Input) -> Result<(RecordOutView, Input), Fault> {
        record_step(v, key, i)
    }

    fn fresh() -> (r: RecordOut) {
        RecordOut::default()
    }

    fn visit(&mut self, key: &str, r: &mut Reader<'_>) -> (res: Result<(), WireError>) {
        reveal(record_step);
        if str_eq(key, "name") {
            self.name = read_string(r)?;
        } else if str_eq(key, "type") {
            self.rtype = (read_number(r)? % 0x1_0000) as u16;
        } else if str_eq(key, "ttl") {
            self.ttl = (read_number(r)? % 0x1_0000_0000) as u32;
        } else if str_eq(key, "data") {
            match r.read_bin() {
                Ok(b) => {
                    self.data = octets::copy(b);
                },
                Err(e) => return Err(WireError::Encoding(e)),
            }
        } else if str_eq(key, "text") {
            self.text = read_string(r)?;
        } else {
            ignore(r)?;
        }
        Ok(())
    }
}

/// The fields of an address, as far as they have come.
pub struct AddressFields {
    address: Option<IpAddr>,
    ttl: u32,
}

pub struct AddressFieldsView {
    pub address: Option<Seq<u8>>,
    pub ttl: u32,
}

impl View for AddressFields {
    type V = AddressFieldsView;

    closed spec fn view(&self) -> AddressFieldsView {
        AddressFieldsView {
            address: match self.address {
                Some(a) => Some(a@),
                None => None,
            },
            ttl: self.ttl,
        }
    }
}

/// One field of an address.
#[verifier::opaque]
pub open spec fn address_step(v: AddressFieldsView, key: Seq<char>, i: Input) -> Result<(AddressFieldsView, Input), Fault> {
    if key == "address"@ {
        match msgpack::read_str(i) {
            (Ok(x), j) => Ok((AddressFieldsView { address: ip_of_text(encode_utf8(x)), ..v }, j)),
            (Err(e), _) => Err(Fault::Encoding(e)),
        }
    } else if key == "ttl"@ {
        match msgpack::read_uint(i) {
            (Ok(x), j) => Ok((AddressFieldsView { ttl: (x % 0x1_0000_0000) as u32, ..v }, j)),
            (Err(e), _) => Err(Fault::Encoding(e)),
        }
    } else {
        match msgpack::skip(i) {
            (Ok(_), j) => Ok((v, j)),
            (Err(e), _) => Err(Fault::Encoding(e)),
        }
    }
}

impl FieldVisitor for AddressFields {
    open spec fn start() -> AddressFieldsView {
        AddressFieldsView { address: None, ttl: 0 }
    }

    open spec fn step(v: AddressFieldsView, key: Seq<char>, i: Input) -> Result<(AddressFieldsView, Input), Fault> {
        address_step(v, key, i)
    }

    fn fresh() -> (r: AddressFields) {
        AddressFields { address: None, ttl: 0 }
    }

    fn visit(&mut self, key: &str, r: &mut Reader<'_>) -> (res: Result<(), WireError>) {
        reveal(address_step);
        if str_eq(key, "address") {
            let s = read_string(r)?;
            self.address = IpAddr::parse(s.as_str());
        } else if str_eq(key, "ttl") {
            self.ttl = (read_number(r)? % 0x1_0000_0000) as u32;
        } else {
            ignore(r)?;
        }
        Ok(())
    }
}

/// The addresses that could be read.
pub open spec fn kept(s: Seq<AddressFieldsView>) -> Seq<AddressOutView>
    decreases s.len(),
{
    if s.len() == 0 {
        Seq::empty()
    } else {
        match s.last().address {
            Some(address) => kept(s.drop_last()).push(AddressOutView { address, ttl: s.last().ttl }),
            None => kept(s.drop_last()),
        }
    }
}

/// One field of a scope.
#[verifier::opaque]
pub open spec fn scope_step(v: ScopeStatusView, key: Seq<char>, i: Input) -> Result<(ScopeStatusView, Input), Fault> {
    if key == "interface"@ {
        match msgpack::read_str(i) {
            (Ok(x), j) => Ok((ScopeStatusView { interface: x, ..v }, j)),
            (Err(e), _) => Err(Fault::Encoding(e)),
        }
    } else if key == "servers"@ {
        match str_list(i) {
            Ok((x, j)) => Ok((ScopeStatusView { servers: x, ..v }, j)),
            Err(e) => Err(e),
        }
    } else if key == "domains"@ {
        match str_list(i) {
            Ok((x, j)) => Ok((ScopeStatusView { domains: x, ..v }, j)),
            Err(e) => Err(e),
        }
    } else if key == "default_route"@ {
        match msgpack::read_bool(i) {
            (Ok(x), j) => Ok((ScopeStatusView { default_route: x, ..v }, j)),
            (Err(e), _) => Err(Fault::Encoding(e)),
        }
    } else if key == "exclusive"@ {
        match msgpack::read_bool(i) {
            (Ok(x), j) => Ok((ScopeStatusView { exclusive: x, ..v }, j)),
            (Err(e), _) => Err(Fault::Encoding(e)),
        }
    } else if key == "metric"@ {
        match msgpack::read_uint(i) {
            (Ok(x), j) => Ok((ScopeStatusView { metric: (x % 0x1_0000_0000) as u32, ..v }, j)),
            (Err(e), _) => Err(Fault::Encoding(e)),
        }
    } else if key == "subnets"@ {
        match str_list(i) {
            Ok((x, j)) => Ok((ScopeStatusView { subnets: x, ..v }, j)),
            Err(e) => Err(e),
        }
    } else if key == "demoted"@ {
        match str_list(i) {
            Ok((x, j)) => Ok((ScopeStatusView { demoted: x, ..v }, j)),
            Err(e) => Err(e),
        }
    } else {
        match msgpack::skip(i) {
            (Ok(_), j) => Ok((v, j)),
            (Err(e), _) => Err(Fault::Encoding(e)),
        }
    }
}

impl FieldVisitor for ScopeStatus {
    open spec fn start() -> ScopeStatusView {
        no_scope()
    }

    open spec fn step(v: ScopeStatusView, key: Seq<char>, i: Input) -> Result<(ScopeStatusView, Input), Fault> {
        scope_step(v, key, i)
    }

    fn fresh() -> (r: ScopeStatus) {
        ScopeStatus::default()
    }

    fn visit(&mut self, key: &str, r: &mut Reader<'_>) -> (res: Result<(), WireError>) {
        reveal(scope_step);
        if str_eq(key, "interface") {
            self.interface = read_string(r)?;
        } else if str_eq(key, "servers") {
            self.servers = read_str_list(r)?;
        } else if str_eq(key, "domains") {
            self.domains = read_str_list(r)?;
        } else if str_eq(key, "default_route") {
            self.default_route = read_flag(r)?;
        } else if str_eq(key, "exclusive") {
            self.exclusive = read_flag(r)?;
        } else if str_eq(key, "metric") {
            self.metric = (read_number(r)? % 0x1_0000_0000) as u32;
        } else if str_eq(key, "subnets") {
            self.subnets = read_str_list(r)?;
        } else if str_eq(key, "demoted") {
            self.demoted = read_str_list(r)?;
        } else {
            ignore(r)?;
        }
        Ok(())
    }
}

/// A counter set by its name.
pub open spec fn count_set(c: Counters, key: Seq<char>, x: u64) -> Counters {
    if key == "queries"@ {
        Counters { queries: x, ..c }
    } else if key == "synthetic"@ {
        Counters { synthetic: x, ..c }
    } else if key == "cache_hits"@ {
        Counters { cache_hits: x, ..c }
    } else if key == "upstream_sent"@ {
        Counters { upstream_sent: x, ..c }
    } else if key == "upstream_answered"@ {
        Counters { upstream_answered: x, ..c }
    } else if key == "upstream_failed"@ {
        Counters { upstream_failed: x, ..c }
    } else if key == "refused"@ {
        Counters { refused: x, ..c }
    } else {
        c
    }
}

/// One counter: whatever its name, its value is a number.
#[verifier::opaque]
pub open spec fn count_step(v: Counters, key: Seq<char>, i: Input) -> Result<(Counters, Input), Fault> {
    match msgpack::read_uint(i) {
        (Ok(x), j) => Ok((count_set(v, key, x), j)),
        (Err(e), _) => Err(Fault::Encoding(e)),
    }
}

impl FieldVisitor for Counters {
    open spec fn start() -> Counters {
        no_counts()
    }

    open spec fn step(v: Counters, key: Seq<char>, i: Input) -> Result<(Counters, Input), Fault> {
        count_step(v, key, i)
    }

    fn fresh() -> (r: Counters) {
        Counters::default()
    }

    fn visit(&mut self, key: &str, r: &mut Reader<'_>) -> (res: Result<(), WireError>) {
        reveal(count_step);
        let x: u64 = read_number(r)?;
        if str_eq(key, "queries") {
            self.queries = x;
        } else if str_eq(key, "synthetic") {
            self.synthetic = x;
        } else if str_eq(key, "cache_hits") {
            self.cache_hits = x;
        } else if str_eq(key, "upstream_sent") {
            self.upstream_sent = x;
        } else if str_eq(key, "upstream_answered") {
            self.upstream_answered = x;
        } else if str_eq(key, "upstream_failed") {
            self.upstream_failed = x;
        } else if str_eq(key, "refused") {
            self.refused = x;
        }
        Ok(())
    }
}

/// The fields of a reply of any kind, as far as they have come.
pub struct ReplyFields {
    ok: Option<bool>,
    error: Option<String>,
    kind: Option<String>,
    answer: Answer,
    addresses: Addresses,
    status: StatusReport,
}

pub struct ReplyFieldsView {
    pub ok: Option<bool>,
    pub error: Option<Seq<char>>,
    pub kind: Option<Seq<char>>,
    pub answer: AnswerView,
    pub addresses: AddressesView,
    pub status: StatusReportView,
}

impl View for ReplyFields {
    type V = ReplyFieldsView;

    closed spec fn view(&self) -> ReplyFieldsView {
        ReplyFieldsView {
            ok: self.ok,
            error: opt_text(self.error),
            kind: opt_text(self.kind),
            answer: self.answer@,
            addresses: self.addresses@,
            status: self.status@,
        }
    }
}

pub open spec fn reply_start() -> ReplyFieldsView {
    ReplyFieldsView {
        ok: None,
        error: None,
        kind: None,
        answer: no_answer(),
        addresses: no_addresses(),
        status: no_status(),
    }
}

/// One field of a reply that is common to the kinds, or belongs to an answer.
#[verifier::opaque]
pub open spec fn answer_step(v: ReplyFieldsView, key: Seq<char>, i: Input) -> Option<
    Result<(ReplyFieldsView, Input), Fault>,
> {
    if key == "ok"@ {
        Some(
            match msgpack::read_bool(i) {
                (Ok(x), j) => Ok((ReplyFieldsView { ok: Some(x), ..v }, j)),
                (Err(e), _) => Err(Fault::Encoding(e)),
            },
        )
    } else if key == "error"@ {
        Some(
            match msgpack::read_str(i) {
                (Ok(x), j) => Ok((ReplyFieldsView { error: Some(x), ..v }, j)),
                (Err(e), _) => Err(Fault::Encoding(e)),
            },
        )
    } else if key == "kind"@ {
        Some(
            match msgpack::read_str(i) {
                (Ok(x), j) => Ok((ReplyFieldsView { kind: Some(x), ..v }, j)),
                (Err(e), _) => Err(Fault::Encoding(e)),
            },
        )
    } else if key == "outcome"@ {
        Some(
            match msgpack::read_str(i) {
                (Ok(x), j) => {
                    let outcome = Outcome::of_text(x).unwrap_or(Outcome::Unavailable);
                    Ok(
                        (
                            ReplyFieldsView {
                                answer: AnswerView { outcome, ..v.answer },
                                addresses: AddressesView { outcome, ..v.addresses },
                                ..v
                            },
                            j,
                        ),
                    )
                },
                (Err(e), _) => Err(Fault::Encoding(e)),
            },
        )
    } else if key == "validation"@ {
        Some(
            match msgpack::read_str(i) {
                (Ok(x), j) => {
                    let validation = Validation::of_text(x).unwrap_or(Validation::Unvalidated);
                    Ok(
                        (
                            ReplyFieldsView {
                                answer: AnswerView { validation, ..v.answer },
                                addresses: AddressesView { validation, ..v.addresses },
                                ..v
                            },
                            j,
                        ),
                    )
                },
                (Err(e), _) => Err(Fault::Encoding(e)),
            },
        )
    } else if key == "source"@ {
        Some(
            match msgpack::read_str(i) {
                (Ok(source), j) => Ok(
                    (
                        ReplyFieldsView {
                            answer: AnswerView { source, ..v.answer },
                            addresses: AddressesView { source, ..v.addresses },
                            ..v
                        },
                        j,
                    ),
                ),
                (Err(e), _) => Err(Fault::Encoding(e)),
            },
        )
    } else if key == "server"@ {
        Some(
            match opt_str(i) {
                Ok((server, j)) => Ok((ReplyFieldsView { answer: AnswerView { server, ..v.answer }, ..v }, j)),
                Err(e) => Err(e),
            },
        )
    } else if key == "interface"@ {
        Some(
            match opt_str(i) {
                Ok((interface, j)) => Ok(
                    (ReplyFieldsView { answer: AnswerView { interface, ..v.answer }, ..v }, j),
                ),
                Err(e) => Err(e),
            },
        )
    } else if key == "rcode"@ {
        Some(
            match msgpack::read_uint(i) {
                (Ok(x), j) => Ok(
                    (
                        ReplyFieldsView {
                            answer: AnswerView { rcode: (x % 0x1_0000) as u16, ..v.answer },
                            ..v
                        },
                        j,
                    ),
                ),
                (Err(e), _) => Err(Fault::Encoding(e)),
            },
        )
    } else if key == "records"@ {
        Some(
            match array_of::<RecordOut>(i) {
                Ok((x, j)) => Ok(
                    (
                        ReplyFieldsView {
                            answer: AnswerView { records: v.answer.records + x, ..v.answer },
                            ..v
                        },
                        j,
                    ),
                ),
                Err(e) => Err(e),
            },
        )
    } else {
        None
    }
}

/// One field of a reply that is the addresses of a name.
#[verifier::opaque]
pub open spec fn addresses_step(v: AddressesView, key: Seq<char>, i: Input) -> Option<
    Result<(AddressesView, Input), Fault>,
> {
    if key == "canonical"@ {
        Some(
            match msgpack::read_str(i) {
                (Ok(canonical), j) => Ok((AddressesView { canonical, ..v }, j)),
                (Err(e), _) => Err(Fault::Encoding(e)),
            },
        )
    } else if key == "addresses"@ {
        Some(
            match array_of::<AddressFields>(i) {
                Ok((x, j)) => Ok((AddressesView { addresses: v.addresses + kept(x), ..v }, j)),
                Err(e) => Err(e),
            },
        )
    } else {
        None
    }
}

/// One field of a reply that is a status report.
#[verifier::opaque]
pub open spec fn status_step(v: StatusReportView, key: Seq<char>, i: Input) -> Option<
    Result<(StatusReportView, Input), Fault>,
> {
    if key == "hostname"@ {
        Some(
            match msgpack::read_str(i) {
                (Ok(hostname), j) => Ok((StatusReportView { hostname, ..v }, j)),
                (Err(e), _) => Err(Fault::Encoding(e)),
            },
        )
    } else if key == "netd"@ {
        Some(
            match msgpack::read_bool(i) {
                (Ok(netd), j) => Ok((StatusReportView { netd, ..v }, j)),
                (Err(e), _) => Err(Fault::Encoding(e)),
            },
        )
    } else if key == "fallback_servers"@ {
        Some(
            match str_list(i) {
                Ok((fallback_servers, j)) => Ok((StatusReportView { fallback_servers, ..v }, j)),
                Err(e) => Err(e),
            },
        )
    } else if key == "cache_entries"@ {
        Some(
            match msgpack::read_uint(i) {
                (Ok(cache_entries), j) => Ok((StatusReportView { cache_entries, ..v }, j)),
                (Err(e), _) => Err(Fault::Encoding(e)),
            },
        )
    } else if key == "scopes"@ {
        Some(
            match array_of::<ScopeStatus>(i) {
                Ok((x, j)) => Ok((StatusReportView { scopes: v.scopes + x, ..v }, j)),
                Err(e) => Err(e),
            },
        )
    } else if key == "counters"@ {
        Some(
            match map_of::<Counters>(Seq::empty(), v.counters, i) {
                Ok((counters, _, j)) => Ok((StatusReportView { counters, ..v }, j)),
                Err(e) => Err(e),
            },
        )
    } else {
        None
    }
}

/// One field of a reply.
#[verifier::opaque]
pub open spec fn reply_step(v: ReplyFieldsView, key: Seq<char>, i: Input) -> Result<
    (ReplyFieldsView, Input),
    Fault,
> {
    match answer_step(v, key, i) {
        Some(r) => r,
        None => match addresses_step(v.addresses, key, i) {
            Some(Ok((addresses, j))) => Ok((ReplyFieldsView { addresses, ..v }, j)),
            Some(Err(e)) => Err(e),
            None => match status_step(v.status, key, i) {
                Some(Ok((status, j))) => Ok((ReplyFieldsView { status, ..v }, j)),
                Some(Err(e)) => Err(e),
                None => match msgpack::skip(i) {
                    (Ok(_), j) => Ok((v, j)),
                    (Err(e), _) => Err(Fault::Encoding(e)),
                },
            },
        },
    }
}

impl ReplyFields {
    /// A field that is common to the kinds or an answer's, if it is one.
    fn visit_answer(&mut self, key: &str, r: &mut Reader<'_>) -> (res: Option<Result<(), WireError>>)
        ensures
            match answer_step(old(self)@, key@, old(r)@) {
                None => res is None && final(self)@ == old(self)@ && final(r)@ == old(r)@,
                Some(Ok((v, i))) => res == Some(Ok::<(), WireError>(())) && final(self)@ == v && final(r)@ == i,
                Some(Err(e)) => res matches Some(Err(err)) && err@ == e,
            },
    {
        reveal(answer_step);
        if str_eq(key, "ok") {
            match read_flag(r) {
                Ok(x) => {
                    self.ok = Some(x);
                },
                Err(e) => return Some(Err(e)),
            }
        } else if str_eq(key, "error") {
            match read_string(r) {
                Ok(x) => {
                    self.error = Some(x);
                },
                Err(e) => return Some(Err(e)),
            }
        } else if str_eq(key, "kind") {
            match read_string(r) {
                Ok(x) => {
                    self.kind = Some(x);
                },
                Err(e) => return Some(Err(e)),
            }
        } else if str_eq(key, "outcome") {
            match read_string(r) {
                Ok(x) => {
                    let outcome = match Outcome::parse(x.as_str()) {
                        Some(outcome) => outcome,
                        None => Outcome::Unavailable,
                    };
                    self.answer.outcome = outcome;
                    self.addresses.outcome = outcome;
                },
                Err(e) => return Some(Err(e)),
            }
        } else if str_eq(key, "validation") {
            match read_string(r) {
                Ok(x) => {
                    let validation = match Validation::parse(x.as_str()) {
                        Some(validation) => validation,
                        None => Validation::Unvalidated,
                    };
                    self.answer.validation = validation;
                    self.addresses.validation = validation;
                },
                Err(e) => return Some(Err(e)),
            }
        } else if str_eq(key, "source") {
            match read_string(r) {
                Ok(x) => {
                    self.answer.source = x.clone();
                    self.addresses.source = x;
                },
                Err(e) => return Some(Err(e)),
            }
        } else if str_eq(key, "server") {
            match read_opt_str(r) {
                Ok(x) => {
                    self.answer.server = x;
                },
                Err(e) => return Some(Err(e)),
            }
        } else if str_eq(key, "interface") {
            match read_opt_str(r) {
                Ok(x) => {
                    self.answer.interface = x;
                },
                Err(e) => return Some(Err(e)),
            }
        } else if str_eq(key, "rcode") {
            match read_number(r) {
                Ok(x) => {
                    self.answer.rcode = (x % 0x1_0000) as u16;
                },
                Err(e) => return Some(Err(e)),
            }
        } else if str_eq(key, "records") {
            match read_maps::<RecordOut>(r) {
                Ok(mut x) => {
                    let ghost more = views(x@);
                    self.answer.records.append(&mut x);
                    assert(self@.answer.records =~= old(self)@.answer.records + more);
                },
                Err(e) => return Some(Err(e)),
            }
        } else {
            return None;
        }
        Some(Ok(()))
    }
}

impl Addresses {
    /// A field of the addresses of a name, if it is one.
    fn visit(&mut self, key: &str, r: &mut Reader<'_>) -> (res: Option<Result<(), WireError>>)
        ensures
            match addresses_step(old(self)@, key@, old(r)@) {
                None => res is None && final(self)@ == old(self)@ && final(r)@ == old(r)@,
                Some(Ok((v, i))) => res == Some(Ok::<(), WireError>(())) && final(self)@ == v && final(r)@ == i,
                Some(Err(e)) => res matches Some(Err(err)) && err@ == e,
            },
    {
        reveal(addresses_step);
        if str_eq(key, "canonical") {
            match read_string(r) {
                Ok(x) => {
                    self.canonical = x;
                },
                Err(e) => return Some(Err(e)),
            }
        } else if str_eq(key, "addresses") {
            match read_maps::<AddressFields>(r) {
                Ok(x) => self.keep(&x),
                Err(e) => return Some(Err(e)),
            }
        } else {
            return None;
        }
        Some(Ok(()))
    }

    fn keep(&mut self, x: &Vec<AddressFields>)
        ensures
            final(self)@ == (AddressesView {
                addresses: old(self)@.addresses + kept(views(x@)),
                ..old(self)@
            }),
    {
        let ghost all = views(x@);
        let mut k: usize = 0;
        assert(old(self)@.addresses + kept(all.take(0)) =~= old(self)@.addresses);
        while k < x.len()
            invariant
                k <= x@.len(),
                all == views(x@),
                self@ == (AddressesView {
                    addresses: old(self)@.addresses + kept(all.take(k as int)),
                    ..old(self)@
                }),
            decreases x@.len() - k,
        {
            assert(all.take(k + 1).drop_last() =~= all.take(k as int));
            let ghost before = self@.addresses;
            if let Some(address) = x[k].address {
                self.addresses.push(AddressOut { address, ttl: x[k].ttl });
                assert(self@.addresses =~= before.push(AddressOutView { address: address@, ttl: x@[k as int].ttl }));
            }
            assert(self@.addresses =~= old(self)@.addresses + kept(all.take(k + 1)));
            k += 1;
        }
        assert(all.take(k as int) =~= all);
    }
}

impl StatusReport {
    /// A field of a status report, if it is one.
    fn visit(&mut self, key: &str, r: &mut Reader<'_>) -> (res: Option<Result<(), WireError>>)
        ensures
            match status_step(old(self)@, key@, old(r)@) {
                None => res is None && final(self)@ == old(self)@ && final(r)@ == old(r)@,
                Some(Ok((v, i))) => res == Some(Ok::<(), WireError>(())) && final(self)@ == v && final(r)@ == i,
                Some(Err(e)) => res matches Some(Err(err)) && err@ == e,
            },
    {
        reveal(status_step);
        if str_eq(key, "hostname") {
            match read_string(r) {
                Ok(x) => {
                    self.hostname = x;
                },
                Err(e) => return Some(Err(e)),
            }
        } else if str_eq(key, "netd") {
            match read_flag(r) {
                Ok(x) => {
                    self.netd = x;
                },
                Err(e) => return Some(Err(e)),
            }
        } else if str_eq(key, "fallback_servers") {
            match read_str_list(r) {
                Ok(x) => {
                    self.fallback_servers = x;
                },
                Err(e) => return Some(Err(e)),
            }
        } else if str_eq(key, "cache_entries") {
            match read_number(r) {
                Ok(x) => {
                    self.cache_entries = x;
                },
                Err(e) => return Some(Err(e)),
            }
        } else if str_eq(key, "scopes") {
            match read_maps::<ScopeStatus>(r) {
                Ok(mut x) => {
                    let ghost more = views(x@);
                    self.scopes.append(&mut x);
                    assert(self@.scopes =~= old(self)@.scopes + more);
                },
                Err(e) => return Some(Err(e)),
            }
        } else if str_eq(key, "counters") {
            let mut seen: Vec<String> = Vec::new();
            assert(texts(seen@) =~= Seq::empty());
            let mut counters = self.counters;
            match for_each_field(r, &mut seen, &mut counters) {
                Ok(_) => {
                    self.counters = counters;
                },
                Err(e) => return Some(Err(e)),
            }
        } else {
            return None;
        }
        Some(Ok(()))
    }
}

impl FieldVisitor for ReplyFields {
    open spec fn start() -> ReplyFieldsView {
        reply_start()
    }

    open spec fn step(v: ReplyFieldsView, key: Seq<char>, i: Input) -> Result<(ReplyFieldsView, Input), Fault> {
        reply_step(v, key, i)
    }

    fn fresh() -> (r: ReplyFields) {
        ReplyFields {
            ok: None,
            error: None,
            kind: None,
            answer: Answer::default(),
            addresses: Addresses::default(),
            status: StatusReport::default(),
        }
    }

    fn visit(&mut self, key: &str, r: &mut Reader<'_>) -> (res: Result<(), WireError>) {
        reveal(reply_step);
        if let Some(done) = self.visit_answer(key, r) {
            return done;
        }
        if let Some(done) = self.addresses.visit(key, r) {
            return done;
        }
        if let Some(done) = self.status.visit(key, r) {
            return done;
        }
        ignore(r)
    }
}

/// The reply that its fields make.
pub open spec fn reply_of(f: ReplyFieldsView) -> Result<ReplyView, Fault> {
    match f.ok {
        None => Err(Fault::Missing("ok"@)),
        Some(false) => Ok(ReplyView::Error(f.error.unwrap_or("unspecified error"@))),
        Some(true) => match f.kind {
            Some(kind) => if kind == "answer"@ {
                Ok(ReplyView::Answer(f.answer))
            } else if kind == "addresses"@ {
                Ok(ReplyView::Addresses(f.addresses))
            } else if kind == "status"@ {
                Ok(ReplyView::Status(f.status))
            } else {
                Ok(ReplyView::Okay)
            },
            None => Ok(ReplyView::Okay),
        },
    }
}

/// The reply that a message is.
pub open spec fn dec_reply(b: Seq<u8>) -> Result<ReplyView, Fault> {
    match map_of::<ReplyFields>(Seq::empty(), reply_start(), input(b, 0)) {
        Err(e) => Err(e),
        Ok((f, _, _)) => reply_of(f),
    }
}

impl Reply {
    pub fn decode(bytes: &[u8]) -> (r: Result<Reply, WireError>)
        ensures
            match dec_reply(bytes@) {
                Ok(v) => r matches Ok(reply) && reply@ == v,
                Err(e) => r matches Err(err) && err@ == e,
            },
    {
        let mut r = Reader::new(bytes);
        let mut f = ReplyFields::fresh();
        let mut seen: Vec<String> = Vec::new();
        assert(texts(seen@) =~= Seq::empty());
        for_each_field(&mut r, &mut seen, &mut f)?;
        match f.ok {
            None => Err(WireError::Missing("ok")),
            Some(false) => Ok(
                Reply::Error(
                    match f.error {
                        Some(e) => e,
                        None => "unspecified error".to_owned(),
                    },
                ),
            ),
            Some(true) => match f.kind {
                Some(kind) => {
                    if str_eq(kind.as_str(), "answer") {
                        Ok(Reply::Answer(f.answer))
                    } else if str_eq(kind.as_str(), "addresses") {
                        Ok(Reply::Addresses(f.addresses))
                    } else if str_eq(kind.as_str(), "status") {
                        Ok(Reply::Status(f.status))
                    } else {
                        Ok(Reply::Okay)
                    }
                },
                None => Ok(Reply::Okay),
            },
        }
    }
}

// Frames.

/// The four bytes of a length, least significant first.
pub open spec fn le32(n: nat) -> Seq<u8> {
    seq![(n % 0x100) as u8, (n / 0x100 % 0x100) as u8, (n / 0x1_0000 % 0x100) as u8, (n / 0x100_0000 % 0x100) as u8]
}

/// The length that four bytes write.
pub open spec fn le32_value(s: Seq<u8>) -> nat {
    (s[0] + 0x100 * s[1] + 0x1_0000 * s[2] + 0x100_0000 * s[3]) as nat
}

/// A payload behind its length.
pub open spec fn frame(payload: Seq<u8>) -> Seq<u8> {
    le32(payload.len()) + payload
}

/// What reading one frame gives, and what is left of the stream.
pub open spec fn unframe(s: Seq<u8>) -> (Result<Seq<u8>, Fault>, Seq<u8>) {
    if s.len() < 4 {
        (Err(Fault::Io(IoKind::UnexpectedEof, "failed to fill whole buffer"@)), Seq::empty())
    } else {
        let n = le32_value(s);
        let rest = s.skip(4);
        if n > MAX_MESSAGE_BYTES {
            (Err(Fault::TooLarge(n)), rest)
        } else if rest.len() < n {
            (Err(Fault::Io(IoKind::UnexpectedEof, "failed to fill whole buffer"@)), Seq::empty())
        } else {
            (Ok(rest.take(n as int)), rest.skip(n as int))
        }
    }
}

/// The length that the first four bytes of a frame write.
pub fn frame_length(s: &[u8]) -> (n: u64)
    requires
        s@.len() >= 4,
    ensures
        n == le32_value(s@),
{
    s[0] as u64 + 0x100 * s[1] as u64 + 0x1_0000 * s[2] as u64 + 0x100_0000 * s[3] as u64
}

/// A message behind its length.
pub fn framed(payload: &[u8]) -> (r: Vec<u8>)
    ensures
        r@ == frame(payload@),
{
    let n: usize = payload.len();
    let mut out: Vec<u8> = Vec::new();
    out.push((n % 0x100) as u8);
    out.push((n / 0x100 % 0x100) as u8);
    out.push((n / 0x1_0000 % 0x100) as u8);
    out.push((n / 0x100_0000 % 0x100) as u8);
    octets::push_all(&mut out, payload);
    assert(out@ =~= frame(payload@));
    out
}

/// Write one length-prefixed message.
pub fn send(stream: &mut Vec<u8>, payload: &[u8]) -> (r: Result<(), WireError>)
    ensures
        if payload@.len() > MAX_MESSAGE_BYTES {
            &&& final(stream)@ == old(stream)@
            &&& r matches Err(e) && e@ == Fault::TooLarge(payload@.len())
        } else {
            r is Ok && final(stream)@ == old(stream)@ + frame(payload@)
        },
{
    let n: usize = payload.len();
    if n > MAX_MESSAGE_BYTES {
        return Err(WireError::TooLarge(n));
    }
    octets::push_all(stream, framed(payload).as_slice());
    Ok(())
}

fn short_read() -> (e: WireError)
    ensures
        e@ == Fault::Io(IoKind::UnexpectedEof, "failed to fill whole buffer"@),
{
    WireError::Io(IoError { kind: IoKind::UnexpectedEof, message: "failed to fill whole buffer".to_owned() })
}

/// Read one length-prefixed message. An oversized length is refused before
/// its payload is read.
pub fn recv(stream: &mut &[u8]) -> (r: Result<Vec<u8>, WireError>)
    ensures
        match unframe(old(stream)@) {
            (Ok(payload), rest) => r matches Ok(b) && b@ == payload && final(stream)@ == rest,
            (Err(e), rest) => r matches Err(err) && err@ == e && final(stream)@ == rest,
        },
{
    let s = *stream;
    let len: usize = s.len();
    if len < 4 {
        *stream = slice_subrange(s, len, len);
        assert(stream@ =~= Seq::<u8>::empty());
        return Err(short_read());
    }
    let n: u64 = frame_length(s);
    let rest = slice_subrange(s, 4, len);
    assert(rest@ =~= s@.skip(4));
    if n > MAX_MESSAGE_BYTES as u64 {
        *stream = rest;
        return Err(WireError::TooLarge(n as usize));
    }
    let n: usize = n as usize;
    if rest.len() < n {
        *stream = slice_subrange(s, len, len);
        assert(stream@ =~= Seq::<u8>::empty());
        return Err(short_read());
    }
    let payload = octets::copy_range(rest, 0, n);
    assert(payload@ =~= rest@.take(n as int));
    *stream = slice_subrange(rest, n, rest.len());
    assert(stream@ =~= rest@.skip(n as int));
    Ok(payload)
}

/// A payload up to the ceiling comes out of its frame, whatever follows.
pub proof fn law_frame(payload: Seq<u8>, tail: Seq<u8>)
    requires
        payload.len() <= MAX_MESSAGE_BYTES,
    ensures
        unframe(frame(payload) + tail) == (Ok::<Seq<u8>, Fault>(payload), tail),
{
    let s = frame(payload) + tail;
    assert(le32_value(s) == payload.len());
    assert(s.skip(4) =~= payload + tail);
    assert((payload + tail).take(payload.len() as int) =~= payload);
    assert((payload + tail).skip(payload.len() as int) =~= tail);
}

/// A length over the ceiling is refused on its four bytes alone.
pub proof fn law_oversize_refused(head: Seq<u8>, tail: Seq<u8>)
    requires
        head.len() == 4,
        le32_value(head) > MAX_MESSAGE_BYTES,
    ensures
        unframe(head + tail) == (Err::<Seq<u8>, Fault>(Fault::TooLarge(le32_value(head))), tail),
{
    let s = head + tail;
    assert(le32_value(s) == le32_value(head));
    assert(s.skip(4) =~= tail);
}

} // verus!

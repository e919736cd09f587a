//! Resource records.
//!
//! Record data is typed for the types a stub acts on, and raw bytes for the
//! rest.
use crate::addr::{lemma_ip_text_ascii, v4_text, v6_text, IpAddr, Ipv4Addr, Ipv6Addr};
use crate::dns::class;
use crate::dns::error::Error;
use crate::dns::name::{labels_view, lemma_name_text_ascii, name_bytes, name_text, read_name, Labels, Name};
use crate::dns::rtype;
use crate::octets;
use crate::octets::{be_bytes, be_value};
use crate::text;
use crate::text::dec;
use vstd::prelude::*;
use vstd::slice::slice_subrange;
use vstd::utf8::*;

verus! {

/// Typed record data for the types a stub acts on; raw bytes for the rest.
///
/// Types whose data contains names (CNAME, PTR, NS, SOA, MX, SRV) are decoded
/// so that compression pointers are resolved: a raw copy of compressed rdata
/// would be meaningless outside the message it came from.
#[derive(Debug, PartialEq, Eq)]
pub enum RData {
    A(Ipv4Addr),
    Aaaa(Ipv6Addr),
    Cname(Name),
    Ptr(Name),
    Ns(Name),
    Soa { mname: Name, rname: Name, serial: u32, refresh: u32, retry: u32, expire: u32, minimum: u32 },
    Mx { preference: u16, exchange: Name },
    Srv { priority: u16, weight: u16, port: u16, target: Name },
    Txt(Vec<Vec<u8>>),
    /// An EDNS pseudo-record: the class and TTL fields carry its meaning, and
    /// the data is options that are neither sent nor read.
    Opt(Vec<u8>),
    Unknown(Vec<u8>),
}

#[verifier::ext_equal]
pub enum RDataView {
    A(Seq<u8>),
    Aaaa(Seq<u8>),
    Cname(Labels),
    Ptr(Labels),
    Ns(Labels),
    Soa { mname: Labels, rname: Labels, serial: u32, refresh: u32, retry: u32, expire: u32, minimum: u32 },
    Mx { preference: u16, exchange: Labels },
    Srv { priority: u16, weight: u16, port: u16, target: Labels },
    Txt(Seq<Seq<u8>>),
    Opt(Seq<u8>),
    Unknown(Seq<u8>),
}

impl View for RData {
    type V = RDataView;

    open spec fn view(&self) -> RDataView {
        match self {
            RData::A(a) => RDataView::A(a@),
            RData::Aaaa(a) => RDataView::Aaaa(a@),
            RData::Cname(n) => RDataView::Cname(n@),
            RData::Ptr(n) => RDataView::Ptr(n@),
            RData::Ns(n) => RDataView::Ns(n@),
            RData::Soa { mname, rname, serial, refresh, retry, expire, minimum } => RDataView::Soa {
                mname: mname@,
                rname: rname@,
                serial: *serial,
                refresh: *refresh,
                retry: *retry,
                expire: *expire,
                minimum: *minimum,
            },
            RData::Mx { preference, exchange } => RDataView::Mx { preference: *preference, exchange: exchange@ },
            RData::Srv { priority, weight, port, target } => RDataView::Srv {
                priority: *priority,
                weight: *weight,
                port: *port,
                target: target@,
            },
            RData::Txt(s) => RDataView::Txt(labels_view(s@)),
            RData::Opt(b) => RDataView::Opt(b@),
            RData::Unknown(b) => RDataView::Unknown(b@),
        }
    }
}

fn copy_strings(v: &Vec<Vec<u8>>) -> (r: Vec<Vec<u8>>)
    ensures
        labels_view(r@) == labels_view(v@),
{
    let mut out: Vec<Vec<u8>> = Vec::new();
    let mut i: usize = 0;
    while i < v.len()
        invariant
            i <= v@.len(),
            out@.len() == i,
            forall|j: int| 0 <= j < i ==> #[trigger] out@[j]@ == v@[j]@,
        decreases v@.len() - i,
    {
        out.push(octets::copy(v[i].as_slice()));
        i += 1;
    }
    assert(labels_view(out@) =~= labels_view(v@));
    out
}

impl Clone for RData {
    fn clone(&self) -> (r: RData)
        ensures
            r@ == self@,
    {
        match self {
            RData::A(a) => RData::A(*a),
            RData::Aaaa(a) => RData::Aaaa(*a),
            RData::Cname(n) => RData::Cname(n.clone()),
            RData::Ptr(n) => RData::Ptr(n.clone()),
            RData::Ns(n) => RData::Ns(n.clone()),
            RData::Soa { mname, rname, serial, refresh, retry, expire, minimum } => RData::Soa {
                mname: mname.clone(),
                rname: rname.clone(),
                serial: *serial,
                refresh: *refresh,
                retry: *retry,
                expire: *expire,
                minimum: *minimum,
            },
            RData::Mx { preference, exchange } => RData::Mx { preference: *preference, exchange: exchange.clone() },
            RData::Srv { priority, weight, port, target } => RData::Srv {
                priority: *priority,
                weight: *weight,
                port: *port,
                target: target.clone(),
            },
            RData::Txt(s) => RData::Txt(copy_strings(s)),
            RData::Opt(b) => RData::Opt(octets::copy(b.as_slice())),
            RData::Unknown(b) => RData::Unknown(octets::copy(b.as_slice())),
        }
    }
}

#[derive(Debug, PartialEq, Eq)]
pub struct Record {
    pub name: Name,
    pub rtype: u16,
    pub class: u16,
    pub ttl: u32,
    pub rdata: RData,
}

#[verifier::ext_equal]
pub struct RecordView {
    pub name: Labels,
    pub rtype: u16,
    pub class: u16,
    pub ttl: u32,
    pub rdata: RDataView,
}

impl View for Record {
    type V = RecordView;

    open spec fn view(&self) -> RecordView {
        RecordView {
            name: self.name@,
            rtype: self.rtype,
            class: self.class,
            ttl: self.ttl,
            rdata: self.rdata@,
        }
    }
}

impl Clone for Record {
    fn clone(&self) -> (r: Record)
        ensures
            r@ == self@,
    {
        Record {
            name: self.name.clone(),
            rtype: self.rtype,
            class: self.class,
            ttl: self.ttl,
            rdata: self.rdata.clone(),
        }
    }
}

pub open spec fn records_view(v: Seq<Record>) -> Seq<RecordView> {
    Seq::new(v.len(), |i: int| v[i]@)
}

pub fn copy_records(v: &Vec<Record>) -> (r: Vec<Record>)
    ensures
        records_view(r@) == records_view(v@),
{
    let mut out: Vec<Record> = Vec::new();
    let mut i: usize = 0;
    while i < v.len()
        invariant
            i <= v@.len(),
            out@.len() == i,
            forall|j: int| 0 <= j < i ==> #[trigger] out@[j]@ == v@[j]@,
        decreases v@.len() - i,
    {
        out.push(v[i].clone());
        i += 1;
    }
    assert(records_view(out@) =~= records_view(v@));
    out
}

/// The type of typed data; raw data has none.
pub open spec fn rtype_of(d: RDataView) -> u16 {
    match d {
        RDataView::A(_) => rtype::A,
        RDataView::Aaaa(_) => rtype::AAAA,
        RDataView::Cname(_) => rtype::CNAME,
        RDataView::Ptr(_) => rtype::PTR,
        RDataView::Ns(_) => rtype::NS,
        RDataView::Soa { .. } => rtype::SOA,
        RDataView::Mx { .. } => rtype::MX,
        RDataView::Srv { .. } => rtype::SRV,
        RDataView::Txt(_) => rtype::TXT,
        RDataView::Opt(_) => rtype::OPT,
        RDataView::Unknown(_) => 0,
    }
}

/// A record of class IN.
pub open spec fn record_in(name: Labels, ttl: u32, rdata: RDataView) -> RecordView {
    RecordView { name, rtype: rtype_of(rdata), class: class::IN, ttl, rdata }
}

/// The EDNS pseudo-record.
pub open spec fn opt_record(udp_size: u16, do_bit: bool) -> RecordView {
    RecordView {
        name: Seq::empty(),
        rtype: rtype::OPT,
        class: udp_size,
        ttl: if do_bit {
            0x8000
        } else {
            0
        },
        rdata: RDataView::Opt(Seq::empty()),
    }
}

// Data on the wire.

/// A string behind its length, of which at most 255 bytes are kept.
pub open spec fn txt_bytes(s: Seq<u8>) -> Seq<u8> {
    if s.len() <= 255 {
        seq![s.len() as u8] + s
    } else {
        seq![255u8] + s.take(255)
    }
}

pub open spec fn txts_bytes(s: Seq<Seq<u8>>) -> Seq<u8>
    decreases s.len(),
{
    if s.len() == 0 {
        Seq::empty()
    } else {
        txt_bytes(s[0]) + txts_bytes(s.skip(1))
    }
}

/// The data as it appears on the wire, uncompressed.
pub open spec fn rdata_bytes(d: RDataView) -> Seq<u8> {
    match d {
        RDataView::A(a) => a,
        RDataView::Aaaa(a) => a,
        RDataView::Cname(n) => name_bytes(n),
        RDataView::Ptr(n) => name_bytes(n),
        RDataView::Ns(n) => name_bytes(n),
        RDataView::Soa { mname, rname, serial, refresh, retry, expire, minimum } => name_bytes(mname) + name_bytes(
            rname,
        ) + be_bytes(serial as nat, 4) + be_bytes(refresh as nat, 4) + be_bytes(retry as nat, 4) + be_bytes(
            expire as nat,
            4,
        ) + be_bytes(minimum as nat, 4),
        RDataView::Mx { preference, exchange } => be_bytes(preference as nat, 2) + name_bytes(exchange),
        RDataView::Srv { priority, weight, port, target } => be_bytes(priority as nat, 2) + be_bytes(
            weight as nat,
            2,
        ) + be_bytes(port as nat, 2) + name_bytes(target),
        RDataView::Txt(s) => txts_bytes(s),
        RDataView::Opt(b) => b,
        RDataView::Unknown(b) => b,
    }
}

pub open spec fn record_bytes(r: RecordView) -> Seq<u8> {
    let data = rdata_bytes(r.rdata);
    name_bytes(r.name) + be_bytes(r.rtype as nat, 2) + be_bytes(r.class as nat, 2) + be_bytes(r.ttl as nat, 4)
        + be_bytes(data.len(), 2) + data
}

fn push_txts(out: &mut Vec<u8>, strings: &Vec<Vec<u8>>)
    ensures
        final(out)@ == old(out)@ + txts_bytes(labels_view(strings@)),
{
    let ghost all = labels_view(strings@);
    let mut i: usize = 0;
    assert(all.skip(0) =~= all);
    while i < strings.len()
        invariant
            i <= strings@.len(),
            all == labels_view(strings@),
            out@ + txts_bytes(all.skip(i as int)) == old(out)@ + txts_bytes(all),
        decreases strings@.len() - i,
    {
        let s = strings[i].as_slice();
        let n: usize = if s.len() < 255 {
            s.len()
        } else {
            255
        };
        let ghost before = out@;
        out.push(n as u8);
        octets::push_all(out, slice_subrange(s, 0, n));
        proof {
            assert(all.skip(i as int).skip(1) =~= all.skip(i + 1));
            assert(s@.subrange(0, n as int) =~= s@.take(n as int));
            assert(s@.len() <= 255 ==> s@.take(n as int) =~= s@);
            assert(out@ =~= before + txt_bytes(s@));
            octets::lemma_join(before, txt_bytes(s@), txts_bytes(all.skip(i + 1)));
        }
        i += 1;
    }
    assert(all.skip(i as int) =~= Seq::empty());
    assert(out@ =~= old(out)@ + txts_bytes(all));
}

fn write_rdata(out: &mut Vec<u8>, rdata: &RData)
    ensures
        final(out)@ == old(out)@ + rdata_bytes(rdata@),
{
    broadcast use octets::lemma_join;

    match rdata {
        RData::A(a) => octets::push_all(out, &a.octets()),
        RData::Aaaa(a) => octets::push_all(out, &a.octets()),
        RData::Cname(n) => n.write(out),
        RData::Ptr(n) => n.write(out),
        RData::Ns(n) => n.write(out),
        RData::Soa { mname, rname, serial, refresh, retry, expire, minimum } => {
            mname.write(out);
            rname.write(out);
            octets::push_be(out, *serial as u64, 4);
            octets::push_be(out, *refresh as u64, 4);
            octets::push_be(out, *retry as u64, 4);
            octets::push_be(out, *expire as u64, 4);
            octets::push_be(out, *minimum as u64, 4);
        },
        RData::Mx { preference, exchange } => {
            octets::push_be(out, *preference as u64, 2);
            exchange.write(out);
        },
        RData::Srv { priority, weight, port, target } => {
            octets::push_be(out, *priority as u64, 2);
            octets::push_be(out, *weight as u64, 2);
            octets::push_be(out, *port as u64, 2);
            target.write(out);
        },
        RData::Txt(strings) => push_txts(out, strings),
        RData::Opt(b) => octets::push_all(out, b.as_slice()),
        RData::Unknown(b) => octets::push_all(out, b.as_slice()),
    }
}

impl Record {
    pub fn new(name: Name, ttl: u32, rdata: RData) -> (r: Record)
        ensures
            r@ == record_in(name@, ttl, rdata@),
    {
        let rtype: u16 = match &rdata {
            RData::A(_) => rtype::A,
            RData::Aaaa(_) => rtype::AAAA,
            RData::Cname(_) => rtype::CNAME,
            RData::Ptr(_) => rtype::PTR,
            RData::Ns(_) => rtype::NS,
            RData::Soa { .. } => rtype::SOA,
            RData::Mx { .. } => rtype::MX,
            RData::Srv { .. } => rtype::SRV,
            RData::Txt(_) => rtype::TXT,
            RData::Opt(_) => rtype::OPT,
            RData::Unknown(_) => 0,
        };
        Record { name, rtype, class: class::IN, ttl, rdata }
    }

    /// The EDNS OPT pseudo-record advertising `udp_size`.
    pub fn opt(udp_size: u16, do_bit: bool) -> (r: Record)
        ensures
            r@ == opt_record(udp_size, do_bit),
    {
        let b: Vec<u8> = Vec::new();
        assert(b@ =~= Seq::empty());
        Record {
            name: Name::root(),
            rtype: rtype::OPT,
            class: udp_size,
            ttl: if do_bit {
                0x8000
            } else {
                0
            },
            rdata: RData::Opt(b),
        }
    }

    /// The data as it would appear on the wire, uncompressed.
    pub fn rdata_bytes(&self) -> (r: Vec<u8>)
        ensures
            r@ == rdata_bytes(self@.rdata),
    {
        let mut out: Vec<u8> = Vec::new();
        write_rdata(&mut out, &self.rdata);
        assert(out@ =~= rdata_bytes(self@.rdata));
        out
    }

    pub(crate) fn write(&self, out: &mut Vec<u8>)
        ensures
            final(out)@ == old(out)@ + record_bytes(self@),
    {
        broadcast use octets::lemma_join;

        let data = self.rdata_bytes();
        self.name.write(out);
        octets::push_be(out, self.rtype as u64, 2);
        octets::push_be(out, self.class as u64, 2);
        octets::push_be(out, self.ttl as u64, 4);
        octets::push_be(out, data.len() as u64, 2);
        octets::push_all(out, data.as_slice());
    }
}

// Data as text.

/// What `String::from_utf8_lossy` makes of bytes.
pub uninterp spec fn lossy(b: Seq<u8>) -> Seq<char>;

/// `String::from_utf8_lossy`: the text that the bytes encode, with a
/// replacement character where they encode none. Bytes that are UTF-8 come out
/// as the text they encode.
#[verifier::external_body]
pub(crate) fn lossy_text(b: &[u8]) -> (r: String)
    ensures
        r@ == lossy(b@),
        valid_utf8(b@) ==> r@ == decode_utf8(b@),
{
    String::from_utf8_lossy(b).into_owned()
}

/// `String::push`: the character is appended.
pub assume_specification[ String::push ](s: &mut String, c: char)
    ensures
        final(s)@ == old(s)@.push(c),
;

/// A text with a backslash before every quotation mark.
pub open spec fn escaped(s: Seq<char>) -> Seq<char>
    decreases s.len(),
{
    if s.len() == 0 {
        Seq::empty()
    } else if s.last() == '"' {
        escaped(s.drop_last()) + seq!['\\', '"']
    } else {
        escaped(s.drop_last()).push(s.last())
    }
}

/// A string between quotation marks.
pub open spec fn quoted_text(s: Seq<u8>) -> Seq<char> {
    seq!['"'] + escaped(lossy(s)) + seq!['"']
}

/// Strings between quotation marks with spaces between them.
pub open spec fn txts_text(s: Seq<Seq<u8>>) -> Seq<char>
    decreases s.len(),
{
    if s.len() == 0 {
        Seq::empty()
    } else if s.len() == 1 {
        quoted_text(s[0])
    } else {
        txts_text(s.drop_last()) + seq![' '] + quoted_text(s.last())
    }
}

/// Bytes as pairs of hexadecimal digits.
pub open spec fn hex_pairs(b: Seq<u8>) -> Seq<u8>
    decreases b.len(),
{
    if b.len() == 0 {
        Seq::empty()
    } else {
        hex_pairs(b.drop_last()) + seq![text::digit(b.last() as nat / 16), text::digit(b.last() as nat % 16)]
    }
}

/// `\# length data`, the form for data without one of its own.
pub open spec fn raw_text(b: Seq<u8>) -> Seq<u8> {
    seq![0x5cu8, 0x23, 0x20] + dec(b.len()) + seq![0x20u8] + hex_pairs(b)
}

pub open spec fn spaced(a: Seq<u8>, b: Seq<u8>) -> Seq<u8> {
    a + seq![0x20u8] + b
}

/// The data in presentation form, for types other than TXT.
pub open spec fn rdata_ascii(d: RDataView) -> Seq<u8> {
    match d {
        RDataView::A(a) => v4_text(a),
        RDataView::Aaaa(a) => v6_text(a),
        RDataView::Cname(n) => name_text(n),
        RDataView::Ptr(n) => name_text(n),
        RDataView::Ns(n) => name_text(n),
        RDataView::Soa { mname, rname, serial, refresh, retry, expire, minimum } => spaced(
            spaced(
                spaced(
                    spaced(
                        spaced(spaced(name_text(mname), name_text(rname)), dec(serial as nat)),
                        dec(refresh as nat),
                    ),
                    dec(retry as nat),
                ),
                dec(expire as nat),
            ),
            dec(minimum as nat),
        ),
        RDataView::Mx { preference, exchange } => spaced(dec(preference as nat), name_text(exchange)),
        RDataView::Srv { priority, weight, port, target } => spaced(
            spaced(spaced(dec(priority as nat), dec(weight as nat)), dec(port as nat)),
            name_text(target),
        ),
        RDataView::Txt(_) => Seq::empty(),
        RDataView::Opt(b) => raw_text(b),
        RDataView::Unknown(b) => raw_text(b),
    }
}

/// The data in presentation form.
pub open spec fn rdata_text(d: RDataView) -> Seq<char> {
    match d {
        RDataView::Txt(s) => txts_text(s),
        _ => text::chars(rdata_ascii(d)),
    }
}

proof fn lemma_hex_pairs_ascii(b: Seq<u8>)
    ensures
        text::is_ascii(hex_pairs(b)),
    decreases b.len(),
{
    if b.len() > 0 {
        lemma_hex_pairs_ascii(b.drop_last());
    }
}

proof fn lemma_raw_text_ascii(b: Seq<u8>)
    ensures
        text::is_ascii(raw_text(b)),
{
    lemma_hex_pairs_ascii(b);
    text::lemma_dec_ascii(b.len());
}

fn push_space(out: &mut Vec<u8>)
    requires
        text::is_ascii(old(out)@),
    ensures
        final(out)@ == old(out)@ + seq![0x20u8],
        text::is_ascii(final(out)@),
{
    out.push(0x20);
    assert(out@ =~= old(out)@ + seq![0x20u8]);
}

fn add_name(out: &mut Vec<u8>, n: &Name)
    requires
        text::is_ascii(old(out)@),
    ensures
        final(out)@ == old(out)@ + name_text(n@),
        text::is_ascii(final(out)@),
{
    n.push_text(out);
    proof {
        lemma_name_text_ascii(n@);
    }
}

fn add_number(out: &mut Vec<u8>, n: u64)
    requires
        text::is_ascii(old(out)@),
    ensures
        final(out)@ == old(out)@ + dec(n as nat),
        text::is_ascii(final(out)@),
{
    text::push_dec(out, n);
    proof {
        text::lemma_dec_ascii(n as nat);
    }
}

fn add_raw(out: &mut Vec<u8>, b: &[u8])
    ensures
        old(out)@.len() == 0 ==> final(out)@ == raw_text(b@),
{
    out.push(0x5c);
    out.push(0x23);
    out.push(0x20);
    text::push_dec(out, b.len() as u64);
    out.push(0x20);
    let ghost before = out@;
    let mut i: usize = 0;
    assert(before + hex_pairs(b@.take(0)) =~= before);
    while i < b.len()
        invariant
            i <= b@.len(),
            out@ == before + hex_pairs(b@.take(i as int)),
        decreases b@.len() - i,
    {
        let x: u8 = b[i];
        let high: u8 = x / 16;
        let low: u8 = x % 16;
        assert(b@.take(i + 1).drop_last() =~= b@.take(i as int));
        out.push(if high < 10 { 0x30 + high } else { 0x57 + high });
        out.push(if low < 10 { 0x30 + low } else { 0x57 + low });
        assert(out@ =~= before + hex_pairs(b@.take(i + 1)));
        i += 1;
    }
    assert(b@.take(i as int) =~= b@);
    assert(old(out)@.len() == 0 ==> out@ =~= raw_text(b@));
}

fn push_quoted(out: &mut String, s: &[u8])
    ensures
        final(out)@ == old(out)@ + quoted_text(s@),
{
    let owned = lossy_text(s);
    let t = owned.as_str();
    let ghost c = t@;
    out.push('"');
    let ghost before = out@;
    let n: usize = t.unicode_len();
    let mut i: usize = 0;
    assert(before + escaped(c.take(0)) =~= before);
    while i < n
        invariant
            i <= n == c.len(),
            c == t@,
            out@ == before + escaped(c.take(i as int)),
        decreases n - i,
    {
        assert(c.take(i + 1).drop_last() =~= c.take(i as int));
        let x = t.get_char(i);
        if x == '"' {
            out.push('\\');
        }
        out.push(x);
        assert(out@ =~= before + escaped(c.take(i + 1)));
        i += 1;
    }
    assert(c.take(i as int) =~= c);
    out.push('"');
    assert(out@ =~= old(out)@ + quoted_text(s@));
}

fn txts_string(strings: &Vec<Vec<u8>>) -> (r: String)
    ensures
        r@ == txts_text(labels_view(strings@)),
{
    let ghost all = labels_view(strings@);
    let mut out = String::new();
    if strings.len() == 0 {
        assert(out@ =~= txts_text(all));
        return out;
    }
    push_quoted(&mut out, strings[0].as_slice());
    assert(out@ =~= txts_text(all.take(1)));
    let mut i: usize = 1;
    while i < strings.len()
        invariant
            1 <= i <= strings@.len(),
            all == labels_view(strings@),
            out@ == txts_text(all.take(i as int)),
        decreases strings@.len() - i,
    {
        assert(all.take(i + 1).drop_last() =~= all.take(i as int));
        let ghost before = out@;
        out.push(' ');
        push_quoted(&mut out, strings[i].as_slice());
        assert(out@ =~= before + seq![' '] + quoted_text(all[i as int]));
        i += 1;
    }
    assert(all.take(i as int) =~= all);
    out
}

impl Record {
    /// The data in presentation form.
    pub fn rdata_text(&self) -> (r: String)
        ensures
            r@ == rdata_text(self@.rdata),
    {
        let mut out: Vec<u8> = Vec::new();
        match &self.rdata {
            RData::A(a) => {
                let ip = IpAddr::V4(*a);
                ip.push_text(&mut out);
                proof {
                    ip.lemma_len();
                    lemma_ip_text_ascii(a@);
                }
            },
            RData::Aaaa(a) => {
                let ip = IpAddr::V6(*a);
                ip.push_text(&mut out);
                proof {
                    ip.lemma_len();
                    lemma_ip_text_ascii(a@);
                }
            },
            RData::Cname(n) => add_name(&mut out, n),
            RData::Ptr(n) => add_name(&mut out, n),
            RData::Ns(n) => add_name(&mut out, n),
            RData::Soa { mname, rname, serial, refresh, retry, expire, minimum } => {
                add_name(&mut out, mname);
                push_space(&mut out);
                add_name(&mut out, rname);
                push_space(&mut out);
                add_number(&mut out, *serial as u64);
                push_space(&mut out);
                add_number(&mut out, *refresh as u64);
                push_space(&mut out);
                add_number(&mut out, *retry as u64);
                push_space(&mut out);
                add_number(&mut out, *expire as u64);
                push_space(&mut out);
                add_number(&mut out, *minimum as u64);
            },
            RData::Mx { preference, exchange } => {
                add_number(&mut out, *preference as u64);
                push_space(&mut out);
                add_name(&mut out, exchange);
            },
            RData::Srv { priority, weight, port, target } => {
                add_number(&mut out, *priority as u64);
                push_space(&mut out);
                add_number(&mut out, *weight as u64);
                push_space(&mut out);
                add_number(&mut out, *port as u64);
                push_space(&mut out);
                add_name(&mut out, target);
            },
            RData::Txt(strings) => return txts_string(strings),
            RData::Opt(b) => {
                add_raw(&mut out, b.as_slice());
                proof {
                    lemma_raw_text_ascii(b@);
                }
            },
            RData::Unknown(b) => {
                add_raw(&mut out, b.as_slice());
                proof {
                    lemma_raw_text_ascii(b@);
                }
            },
        }
        assert(out@ =~= rdata_ascii(self@.rdata));
        text::ascii_string(out.as_slice())
    }
}

// Data from the wire.

pub open spec fn u16_at(msg: Seq<u8>, p: int) -> u16 {
    be_value(msg.subrange(p, p + 2)) as u16
}

pub open spec fn u32_at(msg: Seq<u8>, p: int) -> u32 {
    be_value(msg.subrange(p, p + 4)) as u32
}

pub fn get_u16(msg: &[u8], p: usize) -> (r: u16)
    requires
        p + 2 <= msg@.len(),
    ensures
        r == u16_at(msg@, p as int),
{
    proof {
        octets::lemma_pow256();
        octets::lemma_be_value_bound(msg@.subrange(p as int, p + 2));
        assert(p + 2 <= msg.len());
    }
    octets::value_be(slice_subrange(msg, p, p + 2)) as u16
}

pub fn get_u32(msg: &[u8], p: usize) -> (r: u32)
    requires
        p + 4 <= msg@.len(),
    ensures
        r == u32_at(msg@, p as int),
{
    proof {
        octets::lemma_pow256();
        octets::lemma_be_value_bound(msg@.subrange(p as int, p + 4));
        assert(p + 4 <= msg.len());
    }
    octets::value_be(slice_subrange(msg, p, p + 4)) as u32
}

/// A name in data that ends at `end`. It may point anywhere earlier in the
/// message, but must not run past the data.
pub open spec fn read_name_in(msg: Seq<u8>, p: int, end: int) -> Result<(Labels, int), Error> {
    match read_name(msg, p) {
        Ok((n, next)) => if next > end {
            Err(Error::BadRData)
        } else {
            Ok((n, next))
        },
        Err(e) => Err(e),
    }
}

/// A name that is all the rest of the data.
pub open spec fn read_last_name(msg: Seq<u8>, p: int, end: int) -> Result<Labels, Error> {
    match read_name_in(msg, p, end) {
        Ok((n, next)) => if next != end {
            Err(Error::BadRData)
        } else {
            Ok(n)
        },
        Err(e) => Err(e),
    }
}

pub open spec fn read_soa(msg: Seq<u8>, start: int, end: int) -> Result<RDataView, Error> {
    match read_name_in(msg, start, end) {
        Err(e) => Err(e),
        Ok((mname, p)) => match read_name_in(msg, p, end) {
            Err(e) => Err(e),
            Ok((rname, p)) => if p + 20 != end {
                Err(Error::BadRData)
            } else {
                Ok(
                    RDataView::Soa {
                        mname,
                        rname,
                        serial: u32_at(msg, p),
                        refresh: u32_at(msg, p + 4),
                        retry: u32_at(msg, p + 8),
                        expire: u32_at(msg, p + 12),
                        minimum: u32_at(msg, p + 16),
                    },
                )
            },
        },
    }
}

/// The strings of TXT data.
pub open spec fn read_txts(data: Seq<u8>) -> Result<Seq<Seq<u8>>, Error>
    decreases data.len(),
{
    if data.len() == 0 {
        Ok(Seq::empty())
    } else {
        let n = data[0] as int;
        if 1 + n > data.len() {
            Err(Error::BadRData)
        } else {
            match read_txts(data.skip(1 + n)) {
                Ok(more) => Ok(seq![data.subrange(1, 1 + n)] + more),
                Err(e) => Err(e),
            }
        }
    }
}

/// The data of `len` bytes at `start` of a message.
pub open spec fn read_rdata(msg: Seq<u8>, rtype: u16, start: int, len: int) -> Result<RDataView, Error> {
    let end = start + len;
    if end > msg.len() {
        Err(Error::Truncated)
    } else {
        let data = msg.subrange(start, end);
        if rtype == rtype::A {
            if len != 4 {
                Err(Error::BadRData)
            } else {
                Ok(RDataView::A(data))
            }
        } else if rtype == rtype::AAAA {
            if len != 16 {
                Err(Error::BadRData)
            } else {
                Ok(RDataView::Aaaa(data))
            }
        } else if rtype == rtype::CNAME || rtype == rtype::PTR || rtype == rtype::NS {
            match read_last_name(msg, start, end) {
                Err(e) => Err(e),
                Ok(n) => if rtype == rtype::CNAME {
                    Ok(RDataView::Cname(n))
                } else if rtype == rtype::PTR {
                    Ok(RDataView::Ptr(n))
                } else {
                    Ok(RDataView::Ns(n))
                },
            }
        } else if rtype == rtype::SOA {
            read_soa(msg, start, end)
        } else if rtype == rtype::MX {
            if len < 3 {
                Err(Error::BadRData)
            } else {
                match read_last_name(msg, start + 2, end) {
                    Err(e) => Err(e),
                    Ok(exchange) => Ok(RDataView::Mx { preference: u16_at(msg, start), exchange }),
                }
            }
        } else if rtype == rtype::SRV {
            if len < 7 {
                Err(Error::BadRData)
            } else {
                match read_last_name(msg, start + 6, end) {
                    Err(e) => Err(e),
                    Ok(target) => Ok(
                        RDataView::Srv {
                            priority: u16_at(msg, start),
                            weight: u16_at(msg, start + 2),
                            port: u16_at(msg, start + 4),
                            target,
                        },
                    ),
                }
            }
        } else if rtype == rtype::TXT {
            match read_txts(data) {
                Ok(s) => Ok(RDataView::Txt(s)),
                Err(e) => Err(e),
            }
        } else if rtype == rtype::OPT {
            Ok(RDataView::Opt(data))
        } else {
            Ok(RDataView::Unknown(data))
        }
    }
}

fn get_name_in(msg: &[u8], p: usize, end: usize) -> (r: Result<(Name, usize), Error>)
    ensures
        match read_name_in(msg@, p as int, end as int) {
            Ok((n, next)) => r matches Ok((name, q)) && name@ == n && q == next && q <= msg@.len(),
            Err(e) => r matches Err(err) && err == e,
        },
{
    let (n, next): (Name, usize) = Name::read(msg, p)?;
    if next > end {
        return Err(Error::BadRData);
    }
    Ok((n, next))
}

fn get_last_name(msg: &[u8], p: usize, end: usize) -> (r: Result<Name, Error>)
    ensures
        match read_last_name(msg@, p as int, end as int) {
            Ok(n) => r matches Ok(name) && name@ == n,
            Err(e) => r matches Err(err) && err == e,
        },
{
    let (n, next): (Name, usize) = get_name_in(msg, p, end)?;
    if next != end {
        return Err(Error::BadRData);
    }
    Ok(n)
}

fn get_txts(data: &[u8]) -> (r: Result<Vec<Vec<u8>>, Error>)
    ensures
        match read_txts(data@) {
            Ok(s) => r matches Ok(strings) && labels_view(strings@) == s,
            Err(e) => r matches Err(err) && err == e,
        },
{
    let mut strings: Vec<Vec<u8>> = Vec::new();
    let mut p: usize = 0;
    let ghost whole = read_txts(data@);
    assert(data@.skip(0) =~= data@);
    assert(labels_view(strings@) =~= Seq::empty());
    proof {
        if let Ok(s) = whole {
            assert(Seq::<Seq<u8>>::empty() + s =~= s);
        }
    }
    while p < data.len()
        invariant
            p <= data@.len(),
            whole == read_txts(data@),
            match read_txts(data@.skip(p as int)) {
                Ok(more) => whole == Ok::<Seq<Seq<u8>>, Error>(labels_view(strings@) + more),
                Err(e) => whole == Err::<Seq<Seq<u8>>, Error>(e),
            },
        decreases data@.len() - p,
    {
        let n: usize = data[p] as usize;
        if n > data.len() - p - 1 {
            return Err(Error::BadRData);
        }
        let s = octets::copy_range(data, p + 1, p + 1 + n);
        let ghost rest = data@.skip(p as int);
        let ghost before = labels_view(strings@);
        let ghost one = s@;
        strings.push(s);
        proof {
            assert(one =~= rest.subrange(1, 1 + n));
            assert(rest.skip(1 + n) =~= data@.skip(p + 1 + n));
            assert(labels_view(strings@) =~= before.push(one));
            if let Ok(more) = read_txts(rest.skip(1 + n)) {
                assert(before + (seq![one] + more) =~= labels_view(strings@) + more);
            }
        }
        p = p + 1 + n;
    }
    assert(data@.skip(p as int) =~= Seq::empty());
    assert(labels_view(strings@) + Seq::empty() =~= labels_view(strings@));
    Ok(strings)
}

pub(crate) fn get_rdata(msg: &[u8], rtype: u16, start: usize, len: usize) -> (r: Result<RData, Error>)
    requires
        start <= msg@.len(),
    ensures
        match read_rdata(msg@, rtype, start as int, len as int) {
            Ok(d) => r matches Ok(rdata) && rdata@ == d && start + len <= msg@.len(),
            Err(e) => r matches Err(err) && err == e,
        },
{
    if len > msg.len() - start {
        return Err(Error::Truncated);
    }
    let end: usize = start + len;
    let data = slice_subrange(msg, start, end);
    if rtype == rtype::A {
        if len != 4 {
            return Err(Error::BadRData);
        }
        Ok(RData::A(Ipv4Addr::from_slice(data)))
    } else if rtype == rtype::AAAA {
        if len != 16 {
            return Err(Error::BadRData);
        }
        Ok(RData::Aaaa(Ipv6Addr::from_slice(data)))
    } else if rtype == rtype::CNAME || rtype == rtype::PTR || rtype == rtype::NS {
        let n = get_last_name(msg, start, end)?;
        if rtype == rtype::CNAME {
            Ok(RData::Cname(n))
        } else if rtype == rtype::PTR {
            Ok(RData::Ptr(n))
        } else {
            Ok(RData::Ns(n))
        }
    } else if rtype == rtype::SOA {
        let (mname, p): (Name, usize) = get_name_in(msg, start, end)?;
        let (rname, p): (Name, usize) = get_name_in(msg, p, end)?;
        if end < 20 || p != end - 20 {
            return Err(Error::BadRData);
        }
        Ok(
            RData::Soa {
                mname,
                rname,
                serial: get_u32(msg, p),
                refresh: get_u32(msg, p + 4),
                retry: get_u32(msg, p + 8),
                expire: get_u32(msg, p + 12),
                minimum: get_u32(msg, p + 16),
            },
        )
    } else if rtype == rtype::MX {
        if len < 3 {
            return Err(Error::BadRData);
        }
        let exchange = get_last_name(msg, start + 2, end)?;
        Ok(RData::Mx { preference: get_u16(msg, start), exchange })
    } else if rtype == rtype::SRV {
        if len < 7 {
            return Err(Error::BadRData);
        }
        let target = get_last_name(msg, start + 6, end)?;
        Ok(
            RData::Srv {
                priority: get_u16(msg, start),
                weight: get_u16(msg, start + 2),
                port: get_u16(msg, start + 4),
                target,
            },
        )
    } else if rtype == rtype::TXT {
        Ok(RData::Txt(get_txts(data)?))
    } else if rtype == rtype::OPT {
        Ok(RData::Opt(octets::copy(data)))
    } else {
        Ok(RData::Unknown(octets::copy(data)))
    }
}

/// A record at `p` of a message, and the position after it.
pub open spec fn read_record(msg: Seq<u8>, p: int) -> Result<(RecordView, int), Error> {
    match read_name(msg, p) {
        Err(e) => Err(e),
        Ok((name, next)) => if next + 10 > msg.len() {
            Err(Error::Truncated)
        } else {
            let rtype = u16_at(msg, next);
            let len = u16_at(msg, next + 8) as int;
            match read_rdata(msg, rtype, next + 10, len) {
                Err(e) => Err(e),
                Ok(rdata) => Ok(
                    (
                        RecordView {
                            name,
                            rtype,
                            class: u16_at(msg, next + 2),
                            ttl: u32_at(msg, next + 4),
                            rdata,
                        },
                        next + 10 + len,
                    ),
                ),
            }
        },
    }
}

impl Record {
    pub(crate) fn read(msg: &[u8], p: usize) -> (r: Result<(Record, usize), Error>)
        ensures
            match read_record(msg@, p as int) {
                Ok((v, end)) => r matches Ok((record, next)) && record@ == v && next == end && next <= msg@.len(),
                Err(e) => r matches Err(err) && err == e,
            },
    {
        let (name, next): (Name, usize) = Name::read(msg, p)?;
        if msg.len() - next < 10 {
            return Err(Error::Truncated);
        }
        let rtype: u16 = get_u16(msg, next);
        let class: u16 = get_u16(msg, next + 2);
        let ttl: u32 = get_u32(msg, next + 4);
        let len: usize = get_u16(msg, next + 8) as usize;
        let start: usize = next + 10;
        let rdata = get_rdata(msg, rtype, start, len)?;
        Ok((Record { name, rtype, class, ttl, rdata }, start + len))
    }
}

} // verus!

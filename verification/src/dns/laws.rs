//! What the wire format promises as a whole: what is encoded decodes to the
//! same message, and whatever decodes encodes and decodes to itself.
use crate::dns::error::{Error, MAX_MESSAGE_SIZE, MAX_NAME_LEN};
use crate::dns::header::{flags, law_flags_round_trip, lemma_header_fits};
use crate::dns::message::{
    decode, encode, header_bytes, message_bytes, question_bytes, questions_bytes, read_question, read_questions,
    read_records, records_bytes, MessageView, QuestionView,
};
use crate::dns::name::{
    lemma_name_bytes_len, lemma_read_valid, lemma_read_written, name_bytes, read_labels, read_name, valid_name, Labels,
};
use crate::dns::record::{
    rdata_bytes, read_rdata, read_record, read_soa, read_txts, record_bytes, txt_bytes, txts_bytes, u16_at, u32_at,
    RDataView, RecordView,
};
use crate::dns::rtype;
use crate::octets;
use crate::octets::be_bytes;
use vstd::prelude::*;

verus! {

/// Whether typed data stands under its own type, and raw data under a type
/// that has no typed form.
pub open spec fn rdata_fits(t: u16, d: RDataView) -> bool {
    match d {
        RDataView::A(a) => t == rtype::A && a.len() == 4,
        RDataView::Aaaa(a) => t == rtype::AAAA && a.len() == 16,
        RDataView::Cname(n) => t == rtype::CNAME && valid_name(n),
        RDataView::Ptr(n) => t == rtype::PTR && valid_name(n),
        RDataView::Ns(n) => t == rtype::NS && valid_name(n),
        RDataView::Soa { mname, rname, .. } => t == rtype::SOA && valid_name(mname) && valid_name(rname),
        RDataView::Mx { exchange, .. } => t == rtype::MX && valid_name(exchange),
        RDataView::Srv { target, .. } => t == rtype::SRV && valid_name(target),
        RDataView::Txt(_) => t == rtype::TXT,
        RDataView::Opt(_) => t == rtype::OPT,
        RDataView::Unknown(_) => t != rtype::A && t != rtype::AAAA && t != rtype::CNAME && t != rtype::PTR && t
            != rtype::NS && t != rtype::SOA && t != rtype::MX && t != rtype::SRV && t != rtype::TXT && t != rtype::OPT,
    }
}

pub open spec fn record_fits(r: RecordView) -> bool {
    valid_name(r.name) && rdata_fits(r.rtype, r.rdata)
}

pub open spec fn records_fit(r: Seq<RecordView>) -> bool {
    forall|i: int| 0 <= i < r.len() ==> record_fits(#[trigger] r[i])
}

pub open spec fn questions_fit(q: Seq<QuestionView>) -> bool {
    forall|i: int| 0 <= i < q.len() ==> valid_name((#[trigger] q[i]).name)
}

/// Whether a message says nothing that the format has no place for.
pub open spec fn well_formed(m: MessageView) -> bool {
    &&& m.header.opcode < 16
    &&& m.header.rcode < 16
    &&& questions_fit(m.questions)
    &&& records_fit(m.answers)
    &&& records_fit(m.authority)
    &&& records_fit(m.additional)
}

/// A string cut to what TXT data can hold.
pub open spec fn short_string(s: Seq<u8>) -> Seq<u8> {
    if s.len() <= 255 {
        s
    } else {
        s.take(255)
    }
}

pub open spec fn short_strings(s: Seq<Seq<u8>>) -> Seq<Seq<u8>> {
    Seq::new(s.len(), |i: int| short_string(s[i]))
}

/// Data with its strings cut to what TXT data can hold.
pub open spec fn normal_rdata(d: RDataView) -> RDataView {
    match d {
        RDataView::Txt(s) => RDataView::Txt(short_strings(s)),
        _ => d,
    }
}

pub open spec fn normal_record(r: RecordView) -> RecordView {
    RecordView { rdata: normal_rdata(r.rdata), ..r }
}

pub open spec fn normal_records(r: Seq<RecordView>) -> Seq<RecordView> {
    Seq::new(r.len(), |i: int| normal_record(r[i]))
}

/// A message with the strings of TXT records cut to 255 bytes.
pub open spec fn normal(m: MessageView) -> MessageView {
    MessageView {
        answers: normal_records(m.answers),
        authority: normal_records(m.authority),
        additional: normal_records(m.additional),
        ..m
    }
}

/// Bytes that stand at `p` of a message.
spec fn stands(msg: Seq<u8>, p: int, x: Seq<u8>) -> bool {
    0 <= p && p + x.len() <= msg.len() && msg.subrange(p, p + x.len()) == x
}

proof fn lemma_split(msg: Seq<u8>, p: int, x: Seq<u8>, y: Seq<u8>)
    requires
        stands(msg, p, x + y),
    ensures
        stands(msg, p, x),
        stands(msg, p + x.len(), y),
{
    let s = msg.subrange(p, p + (x + y).len());
    assert(msg.subrange(p, p + x.len()) =~= x) by {
        assert forall|k: int| 0 <= k < x.len() implies msg[p + k] == #[trigger] x[k] by {
            assert(s[k] == (x + y)[k]);
        }
    }
    assert(msg.subrange(p + x.len(), p + x.len() + y.len()) =~= y) by {
        assert forall|k: int| 0 <= k < y.len() implies msg[p + x.len() + k] == #[trigger] y[k] by {
            assert(s[x.len() + k] == (x + y)[x.len() + k]);
        }
    }
}

proof fn lemma_u16(msg: Seq<u8>, p: int, v: u16)
    requires
        stands(msg, p, be_bytes(v as nat, 2)),
    ensures
        u16_at(msg, p) == v,
        be_bytes(v as nat, 2).len() == 2,
{
    octets::lemma_pow256();
    octets::lemma_be_round_trip(v as nat, 2);
}

proof fn lemma_u32(msg: Seq<u8>, p: int, v: u32)
    requires
        stands(msg, p, be_bytes(v as nat, 4)),
    ensures
        u32_at(msg, p) == v,
        be_bytes(v as nat, 4).len() == 4,
{
    octets::lemma_pow256();
    octets::lemma_be_round_trip(v as nat, 4);
}

proof fn lemma_lens(v: nat)
    ensures
        be_bytes(v, 2).len() == 2,
        be_bytes(v, 4).len() == 4,
{
    octets::lemma_be_round_trip(v, 2);
    octets::lemma_be_round_trip(v, 4);
}

proof fn lemma_name(msg: Seq<u8>, p: int, n: Labels)
    requires
        stands(msg, p, name_bytes(n)),
        valid_name(n),
    ensures
        read_name(msg, p) == Ok::<(Labels, int), Error>((n, p + name_bytes(n).len())),
{
    lemma_read_written(msg, p, n, 0, 0);
}

proof fn lemma_txts(s: Seq<Seq<u8>>)
    ensures
        read_txts(txts_bytes(s)) == Ok::<Seq<Seq<u8>>, Error>(short_strings(s)),
    decreases s.len(),
{
    if s.len() > 0 {
        let one = short_string(s[0]);
        let rest = s.skip(1);
        let b = txts_bytes(s);
        lemma_txts(rest);
        assert(txt_bytes(s[0]) =~= seq![one.len() as u8] + one);
        assert(b[0] == one.len());
        assert(b.subrange(1, 1 + one.len() as int) =~= one);
        assert(b.skip(1 + one.len() as int) =~= txts_bytes(rest));
        assert(seq![one] + short_strings(rest) =~= short_strings(s));
    } else {
        assert(short_strings(s) =~= Seq::empty());
    }
}

proof fn lemma_soa(msg: Seq<u8>, p: int, d: RDataView)
    requires
        d is Soa,
        stands(msg, p, rdata_bytes(d)),
        rdata_fits(rtype::SOA, d),
    ensures
        read_soa(msg, p, p + rdata_bytes(d).len()) == Ok::<RDataView, Error>(d),
{
    if let RDataView::Soa { mname, rname, serial, refresh, retry, expire, minimum } = d {
        let a = name_bytes(mname);
        let b = name_bytes(rname);
        let c1 = be_bytes(serial as nat, 4);
        let c2 = be_bytes(refresh as nat, 4);
        let c3 = be_bytes(retry as nat, 4);
        let c4 = be_bytes(expire as nat, 4);
        let c5 = be_bytes(minimum as nat, 4);
        lemma_lens(serial as nat);
        lemma_lens(refresh as nat);
        lemma_lens(retry as nat);
        lemma_lens(expire as nat);
        lemma_lens(minimum as nat);
        lemma_split(msg, p, a + b + c1 + c2 + c3 + c4, c5);
        lemma_split(msg, p, a + b + c1 + c2 + c3, c4);
        lemma_split(msg, p, a + b + c1 + c2, c3);
        lemma_split(msg, p, a + b + c1, c2);
        lemma_split(msg, p, a + b, c1);
        lemma_split(msg, p, a, b);
        lemma_name(msg, p, mname);
        lemma_name(msg, p + a.len(), rname);
        let q = p + a.len() + b.len();
        lemma_u32(msg, q, serial);
        lemma_u32(msg, q + 4, refresh);
        lemma_u32(msg, q + 8, retry);
        lemma_u32(msg, q + 12, expire);
        lemma_u32(msg, q + 16, minimum);
    }
}

/// Data that stands in a message is what is read there, but for strings that
/// were too long.
proof fn lemma_rdata(msg: Seq<u8>, p: int, t: u16, d: RDataView)
    requires
        stands(msg, p, rdata_bytes(d)),
        rdata_fits(t, d),
    ensures
        read_rdata(msg, t, p, rdata_bytes(d).len() as int) == Ok::<RDataView, Error>(normal_rdata(d)),
{
    match d {
        RDataView::Cname(n) => lemma_name(msg, p, n),
        RDataView::Ptr(n) => lemma_name(msg, p, n),
        RDataView::Ns(n) => lemma_name(msg, p, n),
        RDataView::Soa { .. } => lemma_soa(msg, p, d),
        RDataView::Mx { preference, exchange } => {
            lemma_lens(preference as nat);
            lemma_split(msg, p, be_bytes(preference as nat, 2), name_bytes(exchange));
            lemma_u16(msg, p, preference);
            lemma_name(msg, p + 2, exchange);
            lemma_name_bytes_len(exchange);
        },
        RDataView::Srv { priority, weight, port, target } => {
            let a = be_bytes(priority as nat, 2);
            let b = be_bytes(weight as nat, 2);
            let c = be_bytes(port as nat, 2);
            lemma_lens(priority as nat);
            lemma_lens(weight as nat);
            lemma_lens(port as nat);
            lemma_split(msg, p, a + b + c, name_bytes(target));
            lemma_split(msg, p, a + b, c);
            lemma_split(msg, p, a, b);
            lemma_u16(msg, p, priority);
            lemma_u16(msg, p + 2, weight);
            lemma_u16(msg, p + 4, port);
            lemma_name(msg, p + 6, target);
            lemma_name_bytes_len(target);
        },
        RDataView::Txt(s) => lemma_txts(s),
        _ => {},
    }
}

proof fn lemma_record(msg: Seq<u8>, p: int, r: RecordView)
    requires
        stands(msg, p, record_bytes(r)),
        record_fits(r),
        msg.len() <= MAX_MESSAGE_SIZE,
    ensures
        read_record(msg, p) == Ok::<(RecordView, int), Error>((normal_record(r), p + record_bytes(r).len())),
{
    let data = rdata_bytes(r.rdata);
    let n = name_bytes(r.name);
    let a = be_bytes(r.rtype as nat, 2);
    let b = be_bytes(r.class as nat, 2);
    let c = be_bytes(r.ttl as nat, 4);
    let l = be_bytes(data.len(), 2);
    lemma_lens(r.rtype as nat);
    lemma_lens(r.class as nat);
    lemma_lens(r.ttl as nat);
    lemma_lens(data.len());
    lemma_split(msg, p, n + a + b + c + l, data);
    lemma_split(msg, p, n + a + b + c, l);
    lemma_split(msg, p, n + a + b, c);
    lemma_split(msg, p, n + a, b);
    lemma_split(msg, p, n, a);
    lemma_name(msg, p, r.name);
    let q = p + n.len();
    lemma_u16(msg, q, r.rtype);
    lemma_u16(msg, q + 2, r.class);
    lemma_u32(msg, q + 4, r.ttl);
    lemma_u16(msg, q + 8, data.len() as u16);
    lemma_rdata(msg, q + 10, r.rtype, r.rdata);
}

proof fn lemma_records(msg: Seq<u8>, p: int, r: Seq<RecordView>)
    requires
        stands(msg, p, records_bytes(r)),
        records_fit(r),
        msg.len() <= MAX_MESSAGE_SIZE,
    ensures
        read_records(msg, p, r.len()) == Ok::<(Seq<RecordView>, int), Error>(
            (normal_records(r), p + records_bytes(r).len()),
        ),
    decreases r.len(),
{
    if r.len() > 0 {
        let rest = r.skip(1);
        lemma_split(msg, p, record_bytes(r[0]), records_bytes(rest));
        assert(record_fits(r[0]));
        lemma_record(msg, p, r[0]);
        assert forall|i: int| 0 <= i < rest.len() implies record_fits(#[trigger] rest[i]) by {
            assert(rest[i] == r[i + 1]);
        }
        lemma_records(msg, p + record_bytes(r[0]).len(), rest);
        assert(seq![normal_record(r[0])] + normal_records(rest) =~= normal_records(r));
    } else {
        assert(normal_records(r) =~= Seq::empty());
    }
}

proof fn lemma_questions(msg: Seq<u8>, p: int, q: Seq<QuestionView>)
    requires
        stands(msg, p, questions_bytes(q)),
        questions_fit(q),
    ensures
        read_questions(msg, p, q.len()) == Ok::<(Seq<QuestionView>, int), Error>((q, p + questions_bytes(q).len())),
    decreases q.len(),
{
    if q.len() > 0 {
        let rest = q.skip(1);
        let n = name_bytes(q[0].name);
        let a = be_bytes(q[0].rtype as nat, 2);
        let b = be_bytes(q[0].class as nat, 2);
        lemma_lens(q[0].rtype as nat);
        lemma_lens(q[0].class as nat);
        lemma_split(msg, p, question_bytes(q[0]), questions_bytes(rest));
        lemma_split(msg, p, n + a, b);
        lemma_split(msg, p, n, a);
        assert(valid_name(q[0].name));
        lemma_name(msg, p, q[0].name);
        lemma_u16(msg, p + n.len(), q[0].rtype);
        lemma_u16(msg, p + n.len() + 2, q[0].class);
        assert forall|i: int| 0 <= i < rest.len() implies valid_name((#[trigger] rest[i]).name) by {
            assert(rest[i] == q[i + 1]);
        }
        lemma_questions(msg, p + question_bytes(q[0]).len(), rest);
        assert(seq![q[0]] + rest =~= q);
    } else {
        assert(q =~= Seq::empty());
    }
}

/// What is encoded decodes to the same message, but for TXT strings, which are
/// cut to 255 bytes.
pub proof fn law_encode_decode(m: MessageView)
    requires
        well_formed(m),
        encode(m) is Ok,
    ensures
        decode(encode(m)->Ok_0) == Ok::<MessageView, Error>(normal(m)),
{
    let msg = message_bytes(m);
    let h = header_bytes(m);
    let q = questions_bytes(m.questions);
    let r1 = records_bytes(m.answers);
    let r2 = records_bytes(m.authority);
    let r3 = records_bytes(m.additional);
    assert(msg.subrange(0, msg.len() as int) =~= msg);
    lemma_split(msg, 0, h + q + r1 + r2, r3);
    lemma_split(msg, 0, h + q + r1, r2);
    lemma_split(msg, 0, h + q, r1);
    lemma_split(msg, 0, h, q);
    let c0 = be_bytes(m.header.id as nat, 2);
    let c1 = be_bytes(flags(m.header) as nat, 2);
    let c2 = be_bytes(m.questions.len(), 2);
    let c3 = be_bytes(m.answers.len(), 2);
    let c4 = be_bytes(m.authority.len(), 2);
    let c5 = be_bytes(m.additional.len(), 2);
    lemma_lens(m.header.id as nat);
    lemma_lens(flags(m.header) as nat);
    lemma_lens(m.questions.len());
    lemma_lens(m.answers.len());
    lemma_lens(m.authority.len());
    lemma_lens(m.additional.len());
    lemma_split(msg, 0, c0 + c1 + c2 + c3 + c4, c5);
    lemma_split(msg, 0, c0 + c1 + c2 + c3, c4);
    lemma_split(msg, 0, c0 + c1 + c2, c3);
    lemma_split(msg, 0, c0 + c1, c2);
    lemma_split(msg, 0, c0, c1);
    lemma_u16(msg, 0, m.header.id);
    lemma_u16(msg, 2, flags(m.header));
    lemma_u16(msg, 4, m.questions.len() as u16);
    lemma_u16(msg, 6, m.answers.len() as u16);
    lemma_u16(msg, 8, m.authority.len() as u16);
    lemma_u16(msg, 10, m.additional.len() as u16);
    law_flags_round_trip(m.header);
    lemma_questions(msg, 12, m.questions);
    let p1 = 12 + q.len();
    lemma_records(msg, p1 as int, m.answers);
    let p2 = p1 + r1.len();
    lemma_records(msg, p2 as int, m.authority);
    let p3 = p2 + r2.len();
    lemma_records(msg, p3 as int, m.additional);
}

proof fn lemma_normal_txts(s: Seq<Seq<u8>>)
    ensures
        txts_bytes(short_strings(s)) == txts_bytes(s),
    decreases s.len(),
{
    if s.len() > 0 {
        lemma_normal_txts(s.skip(1));
        assert(short_strings(s).skip(1) =~= short_strings(s.skip(1)));
    }
}

proof fn lemma_normal_records(r: Seq<RecordView>)
    ensures
        records_bytes(normal_records(r)) == records_bytes(r),
    decreases r.len(),
{
    if r.len() > 0 {
        lemma_normal_records(r.skip(1));
        assert(normal_records(r).skip(1) =~= normal_records(r.skip(1)));
        if let RDataView::Txt(s) = r[0].rdata {
            lemma_normal_txts(s);
        }
    }
}

/// Encoding is canonical: what a message decodes to encodes to the same bytes.
pub proof fn law_encoding_is_canonical(m: MessageView)
    ensures
        encode(normal(m)) == encode(m),
{
    lemma_normal_records(m.answers);
    lemma_normal_records(m.authority);
    lemma_normal_records(m.additional);
}

proof fn lemma_read_name_valid(msg: Seq<u8>, p: int)
    ensures
        read_name(msg, p) matches Ok((n, _)) ==> valid_name(n),
{
    lemma_read_valid(msg, p, 0, 0);
}

proof fn lemma_read_txts_short(data: Seq<u8>)
    ensures
        read_txts(data) matches Ok(s) ==> short_strings(s) == s,
    decreases data.len(),
{
    if data.len() > 0 {
        let n = data[0] as int;
        if 1 + n <= data.len() {
            lemma_read_txts_short(data.skip(1 + n));
            if let Ok(more) = read_txts(data.skip(1 + n)) {
                let s = seq![data.subrange(1, 1 + n)] + more;
                assert forall|i: int| 0 <= i < s.len() implies short_string(#[trigger] s[i]) == s[i] by {
                    if i > 0 {
                        assert(s[i] == more[i - 1]);
                        assert(short_strings(more)[i - 1] == more[i - 1]);
                    }
                }
                assert(short_strings(s) =~= s);
            }
        }
    } else {
        assert(short_strings(Seq::<Seq<u8>>::empty()) =~= Seq::empty());
    }
}

proof fn lemma_read_record_fits(msg: Seq<u8>, p: int)
    ensures
        read_record(msg, p) matches Ok((r, _)) ==> record_fits(r) && normal_record(r) == r,
{
    lemma_read_name_valid(msg, p);
    if let Ok((_, next)) = read_name(msg, p) {
        let start = next + 10;
        let t = u16_at(msg, next);
        let len = u16_at(msg, next + 8) as int;
        let end = start + len;
        lemma_read_name_valid(msg, start);
        lemma_read_name_valid(msg, start + 2);
        lemma_read_name_valid(msg, start + 6);
        if let Ok((_, q)) = read_name(msg, start) {
            lemma_read_name_valid(msg, q);
        }
        if 0 <= start <= end <= msg.len() {
            lemma_read_txts_short(msg.subrange(start, end));
        }
        lemma_read_valid(msg, p, 0, 0);
    }
}

proof fn lemma_read_records_fit(msg: Seq<u8>, p: int, n: nat)
    ensures
        read_records(msg, p, n) matches Ok((r, _)) ==> records_fit(r) && normal_records(r) == r && r.len() == n,
    decreases n,
{
    if n > 0 {
        lemma_read_record_fits(msg, p);
        if let Ok((one, next)) = read_record(msg, p) {
            lemma_read_records_fit(msg, next, (n - 1) as nat);
            if let Ok((more, _)) = read_records(msg, next, (n - 1) as nat) {
                let r = seq![one] + more;
                assert forall|i: int| 0 <= i < r.len() implies record_fits(#[trigger] r[i]) && normal_record(r[i])
                    == r[i] by {
                    if i > 0 {
                        assert(r[i] == more[i - 1]);
                        assert(normal_records(more)[i - 1] == more[i - 1]);
                    }
                }
                assert(normal_records(r) =~= r);
            }
        }
    } else {
        assert(normal_records(Seq::<RecordView>::empty()) =~= Seq::empty());
    }
}

proof fn lemma_read_questions_fit(msg: Seq<u8>, p: int, n: nat)
    ensures
        read_questions(msg, p, n) matches Ok((q, _)) ==> questions_fit(q),
    decreases n,
{
    if n > 0 {
        lemma_read_name_valid(msg, p);
        if let Ok((one, next)) = read_question(msg, p) {
            lemma_read_questions_fit(msg, next, (n - 1) as nat);
            if let Ok((more, _)) = read_questions(msg, next, (n - 1) as nat) {
                let q = seq![one] + more;
                assert forall|i: int| 0 <= i < q.len() implies valid_name((#[trigger] q[i]).name) by {
                    if i > 0 {
                        assert(q[i] == more[i - 1]);
                    }
                }
            }
        }
    }
}

/// Whatever decodes is well formed, with no string that would be cut.
pub proof fn law_decoded_is_well_formed(b: Seq<u8>)
    ensures
        decode(b) matches Ok(m) ==> well_formed(m) && normal(m) == m,
{
    if b.len() >= 12 {
        lemma_header_fits(u16_at(b, 0), u16_at(b, 2));
        lemma_read_questions_fit(b, 12, u16_at(b, 4) as nat);
        if let Ok((_, p)) = read_questions(b, 12, u16_at(b, 4) as nat) {
            lemma_read_records_fit(b, p, u16_at(b, 6) as nat);
            if let Ok((_, p)) = read_records(b, p, u16_at(b, 6) as nat) {
                lemma_read_records_fit(b, p, u16_at(b, 8) as nat);
                if let Ok((_, p)) = read_records(b, p, u16_at(b, 8) as nat) {
                    lemma_read_records_fit(b, p, u16_at(b, 10) as nat);
                }
            }
        }
    }
}

/// Whatever decodes and encodes again decodes to itself.
pub proof fn law_decode_encode_decode(b: Seq<u8>)
    ensures
        decode(b) matches Ok(m) ==> (encode(m) matches Ok(again) ==> decode(again) == Ok::<MessageView, Error>(m)),
{
    law_decoded_is_well_formed(b);
    if let Ok(m) = decode(b) {
        if encode(m) is Ok {
            law_encode_decode(m);
        }
    }
}

// Padding.

proof fn lemma_more_labels(msg: Seq<u8>, more: Seq<u8>, p: int, total: nat, hops: nat)
    ensures
        read_labels(msg, p, total, hops) is Ok ==> read_labels(msg + more, p, total, hops) == read_labels(
            msg,
            p,
            total,
            hops,
        ),
    decreases 65 - hops, msg.len() - p,
{
    if 0 <= p < msg.len() {
        let all = msg + more;
        let len = msg[p] as int;
        assert(all[p] == msg[p]);
        if 0 < len < 0x40 && p + 1 + len <= msg.len() && total + len + 2 <= MAX_NAME_LEN {
            lemma_more_labels(msg, more, p + 1 + len, (total + len + 1) as nat, hops);
            assert(all.subrange(p + 1, p + 1 + len) =~= msg.subrange(p + 1, p + 1 + len));
        } else if len >= 0xc0 && p + 1 < msg.len() {
            assert(all[p + 1] == msg[p + 1]);
            let target = (len - 0xc0) * 0x100 + msg[p + 1];
            if target < p && hops < 64 {
                lemma_more_labels(msg, more, target, total, hops + 1);
            }
        }
    }
}

proof fn lemma_more_name(msg: Seq<u8>, more: Seq<u8>, p: int)
    ensures
        read_name(msg, p) is Ok ==> read_name(msg + more, p) == read_name(msg, p),
{
    lemma_more_labels(msg, more, p, 0, 0);
}

proof fn lemma_more_numbers(msg: Seq<u8>, more: Seq<u8>, p: int)
    requires
        0 <= p,
    ensures
        p + 2 <= msg.len() ==> u16_at(msg + more, p) == u16_at(msg, p),
        p + 4 <= msg.len() ==> u32_at(msg + more, p) == u32_at(msg, p),
{
    let all = msg + more;
    if p + 2 <= msg.len() {
        assert(all.subrange(p, p + 2) =~= msg.subrange(p, p + 2));
    }
    if p + 4 <= msg.len() {
        assert(all.subrange(p, p + 4) =~= msg.subrange(p, p + 4));
    }
}

proof fn lemma_more_rdata(msg: Seq<u8>, more: Seq<u8>, t: u16, start: int, len: int)
    requires
        0 <= start,
        0 <= len,
    ensures
        read_rdata(msg, t, start, len) is Ok ==> read_rdata(msg + more, t, start, len) == read_rdata(
            msg,
            t,
            start,
            len,
        ),
{
    let end = start + len;
    if end <= msg.len() {
        let all = msg + more;
        assert(all.subrange(start, end) =~= msg.subrange(start, end));
        lemma_more_name(msg, more, start);
        lemma_more_name(msg, more, start + 2);
        lemma_more_name(msg, more, start + 6);
        lemma_more_numbers(msg, more, start);
        lemma_more_numbers(msg, more, start + 2);
        lemma_more_numbers(msg, more, start + 4);
        if t == rtype::SOA {
            lemma_read_valid(msg, start, 0, 0);
            if let Ok((_, p)) = read_name(msg, start) {
                lemma_more_name(msg, more, p);
                lemma_read_valid(msg, p, 0, 0);
                if let Ok((_, q)) = read_name(msg, p) {
                    if q + 20 == end {
                        lemma_more_numbers(msg, more, q);
                        lemma_more_numbers(msg, more, q + 4);
                        lemma_more_numbers(msg, more, q + 8);
                        lemma_more_numbers(msg, more, q + 12);
                        lemma_more_numbers(msg, more, q + 16);
                    }
                }
            }
        }
    }
}

proof fn lemma_more_record(msg: Seq<u8>, more: Seq<u8>, p: int)
    requires
        0 <= p,
    ensures
        read_record(msg, p) matches Ok((_, next)) ==> read_record(msg + more, p) == read_record(msg, p) && p <= next,
{
    lemma_more_name(msg, more, p);
    lemma_read_valid(msg, p, 0, 0);
    if let Ok((_, next)) = read_name(msg, p) {
        if next + 10 <= msg.len() {
            lemma_more_numbers(msg, more, next);
            lemma_more_numbers(msg, more, next + 2);
            lemma_more_numbers(msg, more, next + 4);
            lemma_more_numbers(msg, more, next + 8);
            lemma_more_rdata(msg, more, u16_at(msg, next), next + 10, u16_at(msg, next + 8) as int);
        }
    }
}

proof fn lemma_more_records(msg: Seq<u8>, more: Seq<u8>, p: int, n: nat)
    requires
        0 <= p,
    ensures
        read_records(msg, p, n) matches Ok((_, next)) ==> read_records(msg + more, p, n) == read_records(msg, p, n)
            && p <= next,
    decreases n,
{
    if n > 0 {
        lemma_more_record(msg, more, p);
        if let Ok((_, next)) = read_record(msg, p) {
            lemma_more_records(msg, more, next, (n - 1) as nat);
        }
    }
}

proof fn lemma_more_questions(msg: Seq<u8>, more: Seq<u8>, p: int, n: nat)
    requires
        0 <= p,
    ensures
        read_questions(msg, p, n) matches Ok((_, next)) ==> read_questions(msg + more, p, n) == read_questions(
            msg,
            p,
            n,
        ) && p <= next,
    decreases n,
{
    if n > 0 {
        lemma_more_name(msg, more, p);
        lemma_read_valid(msg, p, 0, 0);
        if let Ok((_, next)) = read_name(msg, p) {
            if next + 4 <= msg.len() {
                lemma_more_numbers(msg, more, next);
                lemma_more_numbers(msg, more, next + 2);
                lemma_more_questions(msg, more, next + 4, (n - 1) as nat);
            }
        }
    }
}

/// Bytes after the last section are tolerated: they change nothing.
pub proof fn law_trailing_bytes_are_tolerated(b: Seq<u8>, more: Seq<u8>)
    ensures
        decode(b) is Ok ==> decode(b + more) == decode(b),
{
    if b.len() >= 12 {
        lemma_more_numbers(b, more, 0);
        lemma_more_numbers(b, more, 2);
        lemma_more_numbers(b, more, 4);
        lemma_more_numbers(b, more, 6);
        lemma_more_numbers(b, more, 8);
        lemma_more_numbers(b, more, 10);
        lemma_more_questions(b, more, 12, u16_at(b, 4) as nat);
        if let Ok((_, p)) = read_questions(b, 12, u16_at(b, 4) as nat) {
            lemma_more_records(b, more, p, u16_at(b, 6) as nat);
            if let Ok((_, p)) = read_records(b, p, u16_at(b, 6) as nat) {
                lemma_more_records(b, more, p, u16_at(b, 8) as nat);
                if let Ok((_, p)) = read_records(b, p, u16_at(b, 8) as nat) {
                    lemma_more_records(b, more, p, u16_at(b, 10) as nat);
                }
            }
        }
    }
}

} // verus!

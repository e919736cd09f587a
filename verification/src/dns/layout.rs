//! Where everything is on the wire, byte for byte.
use crate::dns::header::{flags, law_flags_round_trip};
use crate::dns::message::{
    decode, encode, first_opt, header_bytes, question_bytes, questions_bytes, read_question, read_questions,
    read_records, records_bytes, truncated, MessageView, QuestionView,
};
use crate::dns::name::{
    fold, fold_label, lemma_read_valid, name_bytes, read_labels, read_name, same_name, wire_len, Labels,
};
use crate::dns::record::{
    rdata_bytes, read_rdata, read_record, read_txts, record_bytes, txt_bytes, txts_bytes, u16_at, u32_at, RDataView,
    RecordView,
};
use crate::dns::{Error, Header};
use crate::octets::{be_bytes, be_value, lemma_be_round_trip};
use vstd::prelude::*;

verus! {

// Numbers.

/// A number of two bytes, the first counting 256 times.
pub open spec fn two(b: Seq<u8>, p: int) -> int {
    b[p] * 256 + b[p + 1]
}

/// A number of four bytes, the first counting most.
pub open spec fn four(b: Seq<u8>, p: int) -> int {
    b[p] * 0x100_0000 + b[p + 1] * 0x1_0000 + b[p + 2] * 0x100 + b[p + 3]
}

pub proof fn lemma_two(msg: Seq<u8>, p: int)
    requires
        0 <= p,
        p + 2 <= msg.len(),
    ensures
        be_value(msg.subrange(p, p + 2)) == two(msg, p),
        u16_at(msg, p) == two(msg, p),
{
    let s = msg.subrange(p, p + 2);
    reveal_with_fuel(be_value, 3);
    assert(s.drop_last().last() == msg[p]);
    assert(s.last() == msg[p + 1]);
    assert(s.drop_last().drop_last() =~= Seq::<u8>::empty());
}

pub proof fn lemma_four(msg: Seq<u8>, p: int)
    requires
        0 <= p,
        p + 4 <= msg.len(),
    ensures
        u32_at(msg, p) == four(msg, p),
{
    let s = msg.subrange(p, p + 4);
    reveal_with_fuel(be_value, 5);
    assert(s.last() == msg[p + 3]);
    assert(s.drop_last().last() == msg[p + 2]);
    assert(s.drop_last().drop_last().last() == msg[p + 1]);
    assert(s.drop_last().drop_last().drop_last().last() == msg[p]);
    assert(s.drop_last().drop_last().drop_last().drop_last() =~= Seq::<u8>::empty());
}

pub proof fn lemma_two_bytes(v: nat)
    requires
        v < 0x1_0000,
    ensures
        be_bytes(v, 2) == seq![(v / 256) as u8, (v % 256) as u8],
{
    reveal_with_fuel(be_bytes, 3);
    assert(be_bytes(v, 2) =~= seq![(v / 256) as u8, (v % 256) as u8]);
}

pub proof fn lemma_four_bytes(v: nat)
    requires
        v < 0x1_0000_0000,
    ensures
        be_bytes(v, 4) == seq![
            (v / 0x100_0000) as u8,
            (v / 0x1_0000 % 256) as u8,
            (v / 256 % 256) as u8,
            (v % 256) as u8,
        ],
{
    reveal_with_fuel(be_bytes, 5);
    assert(v / 256 / 256 == v / 0x1_0000);
    assert(v / 256 / 256 / 256 == v / 0x100_0000);
    assert(be_bytes(v, 4) =~= seq![
        (v / 0x100_0000) as u8,
        (v / 0x1_0000 % 256) as u8,
        (v / 256 % 256) as u8,
        (v % 256) as u8,
    ]);
}

/// The bytes of a two-byte number.
pub open spec fn bytes2(v: u16) -> Seq<u8> {
    seq![(v / 256) as u8, (v % 256) as u8]
}

/// The bytes of a four-byte number.
pub open spec fn bytes4(v: u32) -> Seq<u8> {
    seq![(v / 0x100_0000) as u8, (v / 0x1_0000 % 256) as u8, (v / 256 % 256) as u8, (v % 256) as u8]
}

// Names.

/// A label on the wire is its length and then its bytes.
pub open spec fn label_bytes(l: Seq<u8>) -> Seq<u8> {
    seq![l.len() as u8] + l
}

/// A name on the wire is its labels, one after the other, and a zero.
pub proof fn law_name_layout(n: Labels)
    ensures
        name_bytes(n) == n.flat_map(|l: Seq<u8>| label_bytes(l)) + seq![0u8],
    decreases n.len(),
{
    let f = |l: Seq<u8>| label_bytes(l);
    if n.len() == 0 {
        assert(n.map_values(f) =~= Seq::empty());
        assert(n.flat_map(f) =~= Seq::empty());
        assert(name_bytes(n) =~= n.flat_map(f) + seq![0u8]);
    } else {
        let rest = n.skip(1);
        law_name_layout(rest);
        assert(n.map_values(f).drop_first() =~= rest.map_values(f));
        assert(n.map_values(f).first() == label_bytes(n[0]));
        assert(n.flat_map(f) =~= label_bytes(n[0]) + rest.flat_map(f));
        assert(name_bytes(n) =~= n.flat_map(f) + seq![0u8]);
    }
}

/// A name is as long as its labels, a byte for each of them, and one more.
pub proof fn law_name_length(n: Labels, l: Seq<u8>)
    ensures
        wire_len(Seq::<Seq<u8>>::empty()) == 1,
        wire_len(n.push(l)) == wire_len(n) + l.len() + 1,
{
    assert(n.push(l).drop_last() =~= n);
}

/// Whether two labels have the same bytes but for the case of letters.
pub open spec fn spelled_alike(x: Seq<u8>, y: Seq<u8>) -> bool {
    x.len() == y.len() && forall|j: int| 0 <= j < x.len() ==> alike(#[trigger] x[j], y[j])
}

proof fn lemma_spelled_alike(x: Seq<u8>, y: Seq<u8>)
    ensures
        spelled_alike(x, y) <==> fold_label(x) == fold_label(y),
{
    if fold_label(x) == fold_label(y) {
        assert(fold_label(x).len() == fold_label(y).len());
        assert forall|j: int| 0 <= j < x.len() implies alike(#[trigger] x[j], y[j]) by {
            assert(fold_label(x)[j] == fold_label(y)[j]);
        }
    }
    if spelled_alike(x, y) {
        assert forall|j: int| 0 <= j < x.len() implies fold_label(x)[j] == fold_label(y)[j] by {
            assert(alike(x[j], y[j]));
        }
        assert(fold_label(x) =~= fold_label(y));
    }
}

/// Names are the same where they have as many labels, and these the same bytes
/// but for the case of the letters from A to Z.
pub proof fn law_names_are_compared_without_case(a: Labels, b: Labels)
    ensures
        same_name(a, b) <==> a.len() == b.len() && forall|i: int|
            0 <= i < a.len() ==> spelled_alike(#[trigger] a[i], b[i]),
{
    if same_name(a, b) {
        assert(fold(a).len() == fold(b).len());
        assert forall|i: int| 0 <= i < a.len() implies spelled_alike(#[trigger] a[i], b[i]) by {
            assert(fold(a)[i] == fold(b)[i]);
            lemma_spelled_alike(a[i], b[i]);
        }
    }
    if a.len() == b.len() && forall|i: int| 0 <= i < a.len() ==> spelled_alike(#[trigger] a[i], b[i]) {
        assert forall|i: int| 0 <= i < a.len() implies fold(a)[i] == #[trigger] fold(b)[i] by {
            assert(spelled_alike(a[i], b[i]));
            lemma_spelled_alike(a[i], b[i]);
        }
        assert(fold(a) =~= fold(b));
    }
}

/// Whether two bytes are the same but for the case of a letter.
pub open spec fn alike(x: u8, y: u8) -> bool {
    x == y || (65 <= x <= 90 && y == x + 32) || (65 <= y <= 90 && x == y + 32)
}

/// A name is read label by label: a zero ends it; a byte below 64 is the length
/// of a label, behind which the rest is read; and two bytes from 0xc0 00 on point
/// to an earlier place where the rest is read.
pub proof fn law_name_reading(msg: Seq<u8>, p: int)
    requires
        0 <= p < msg.len(),
    ensures
        msg[p] == 0 ==> read_name(msg, p) == Ok::<(Labels, int), Error>((Seq::empty(), p + 1)),
        0 < msg[p] < 64 ==> (read_name(msg, p) matches Ok((n, end)) ==> {
            &&& n.len() > 0
            &&& n[0] == msg.subrange(p + 1, p + 1 + msg[p])
            &&& read_labels(msg, p + 1 + msg[p], (msg[p] + 1) as nat, 0) == Ok::<(Labels, int), Error>((n.skip(1), end))
        }),
        msg[p] >= 0xc0 ==> (read_name(msg, p) matches Ok((n, end)) ==> {
            &&& end == p + 2
            &&& p + 1 < msg.len()
            &&& two(msg, p) - 0xc000 < p
            &&& read_labels(msg, two(msg, p) - 0xc000, 0, 1) matches Ok((m, _)) && m == n
        }),
        64 <= msg[p] < 0xc0 ==> read_name(msg, p) is Err,
{
    if 0 < msg[p] < 64 {
        if let Ok((n, end)) = read_name(msg, p) {
            if let Ok((more, _)) = read_labels(msg, p + 1 + msg[p], (msg[p] + 1) as nat, 0) {
                assert(n.skip(1) =~= more);
            }
        }
    }
}

/// A name is read wherever it can be: behind a label that is all there and leaves
/// the name within 255 bytes on the wire, and through up to 64 pointers, each of
/// which points to before itself; and nowhere else.
pub proof fn law_names_that_can_be_read(msg: Seq<u8>, p: int, total: nat, hops: nat)
    requires
        0 <= p < msg.len(),
    ensures
        0 < msg[p] < 64 ==> {
            let n = msg[p] as int;
            let rest = read_labels(msg, p + 1 + n, (total + n + 1) as nat, hops);
            &&& read_labels(msg, p, total, hops) is Ok <==> p + 1 + n <= msg.len() && total + n + 2 <= 255 && rest is Ok
            &&& read_labels(msg, p, total, hops) is Ok ==> read_labels(msg, p, total, hops)->Ok_0.1 == rest->Ok_0.1
        },
        msg[p] >= 192 && p + 1 < msg.len() ==> {
            let target = two(msg, p) - 192 * 256;
            &&& read_labels(msg, p, total, hops) is Ok <==> target < p && hops < 64 && read_labels(
                msg,
                target,
                total,
                hops + 1,
            ) is Ok
            &&& read_labels(msg, p, total, hops) matches Ok((n, end)) ==> end == p + 2 && n == read_labels(
                msg,
                target,
                total,
                hops + 1,
            )->Ok_0.0
        },
        msg[p] == 0 ==> read_labels(msg, p, total, hops) == Ok::<(Labels, int), Error>((Seq::empty(), p + 1)),
        64 <= msg[p] < 192 || (msg[p] >= 192 && p + 1 >= msg.len()) ==> read_labels(msg, p, total, hops) is Err,
{
}

// The header.

/// The first flags byte: the response bit, four bits of opcode, and the
/// authoritative, truncation and recursion-desired bits.
pub open spec fn flags_are(m: MessageView, high: u8, low: u8) -> bool {
    let h = m.header;
    &&& h.response <==> high >= 128
    &&& h.opcode == high / 8 % 16
    &&& h.authoritative <==> high / 4 % 2 == 1
    &&& h.truncated <==> high / 2 % 2 == 1
    &&& h.recursion_desired <==> high % 2 == 1
    &&& h.recursion_available <==> low >= 128
    &&& h.authentic_data <==> low / 32 % 2 == 1
    &&& h.checking_disabled <==> low / 16 % 2 == 1
    &&& h.rcode == low % 16
}

/// A message that is read has its id in the first two bytes, its flags in the
/// next two, and then four counts, of two bytes each: those of the questions, the
/// answers, the authority records and the additional ones.
pub proof fn law_header_is_read(b: Seq<u8>)
    ensures
        decode(b) matches Ok(m) ==> {
            &&& b.len() >= 12
            &&& m.header.id == two(b, 0)
            &&& flags_are(m, b[2], b[3])
            &&& m.questions.len() == two(b, 4)
            &&& m.answers.len() == two(b, 6)
            &&& m.authority.len() == two(b, 8)
            &&& m.additional.len() == two(b, 10)
        },
{
    if let Ok(m) = decode(b) {
        lemma_two(b, 0);
        lemma_two(b, 2);
        lemma_two(b, 4);
        lemma_two(b, 6);
        lemma_two(b, 8);
        lemma_two(b, 10);
        lemma_questions_count(b, 12, u16_at(b, 4) as nat);
        let (_, p) = read_questions(b, 12, u16_at(b, 4) as nat)->Ok_0;
        lemma_records_count(b, p, u16_at(b, 6) as nat);
        let (_, p) = read_records(b, p, u16_at(b, 6) as nat)->Ok_0;
        lemma_records_count(b, p, u16_at(b, 8) as nat);
        let (_, p) = read_records(b, p, u16_at(b, 8) as nat)->Ok_0;
        lemma_records_count(b, p, u16_at(b, 10) as nat);
    }
}

proof fn lemma_questions_count(b: Seq<u8>, p: int, n: nat)
    ensures
        read_questions(b, p, n) matches Ok((q, _)) ==> q.len() == n,
    decreases n,
{
    if n > 0 {
        if let Ok((_, next)) = read_question(b, p) {
            lemma_questions_count(b, next, (n - 1) as nat);
        }
    }
}

proof fn lemma_records_count(b: Seq<u8>, p: int, n: nat)
    ensures
        read_records(b, p, n) matches Ok((r, _)) ==> r.len() == n,
    decreases n,
{
    if n > 0 {
        if let Ok((_, next)) = read_record(b, p) {
            lemma_records_count(b, next, (n - 1) as nat);
        }
    }
}

/// A message that is written has the same in the same places.
pub proof fn law_header_is_written(m: MessageView)
    requires
        m.header.opcode < 16,
        m.header.rcode < 16,
    ensures
        encode(m) matches Ok(b) ==> {
            &&& b.len() >= 12
            &&& m.header.id == two(b, 0)
            &&& flags_are(m, b[2], b[3])
            &&& m.questions.len() == two(b, 4)
            &&& m.answers.len() == two(b, 6)
            &&& m.authority.len() == two(b, 8)
            &&& m.additional.len() == two(b, 10)
        },
{
    if let Ok(b) = encode(m) {
        lemma_two_bytes(m.header.id as nat);
        lemma_two_bytes(flags(m.header) as nat);
        lemma_two_bytes(m.questions.len());
        lemma_two_bytes(m.answers.len());
        lemma_two_bytes(m.authority.len());
        lemma_two_bytes(m.additional.len());
        let h = header_bytes(m);
        assert(h.len() == 12);
        assert forall|i: int| 0 <= i < 12 implies b[i] == h[i] by {}
        assert(h[0] == (m.header.id / 256) as u8 && h[1] == (m.header.id % 256) as u8);
        assert(h[2] == (flags(m.header) / 256) as u8 && h[3] == (flags(m.header) % 256) as u8);
        assert(two(h, 4) == m.questions.len());
        assert(two(h, 6) == m.answers.len());
        assert(two(h, 8) == m.authority.len());
        assert(two(h, 10) == m.additional.len());
        law_flags_round_trip(m.header);
    }
}

// Sections.

/// Behind the header stand the questions, the answers, the authority records and
/// the additional ones, in this order, one after the other.
pub proof fn law_sections_are_written(m: MessageView)
    ensures
        encode(m) matches Ok(b) ==> b.skip(12) == m.questions.flat_map(|q: QuestionView| question_bytes(q))
            + m.answers.flat_map(|r: RecordView| record_bytes(r)) + m.authority.flat_map(
            |r: RecordView| record_bytes(r),
        ) + m.additional.flat_map(|r: RecordView| record_bytes(r)),
{
    if let Ok(b) = encode(m) {
        lemma_questions_bytes(m.questions);
        lemma_records_bytes(m.answers);
        lemma_records_bytes(m.authority);
        lemma_records_bytes(m.additional);
        lemma_be_round_trip(m.header.id as nat, 2);
        lemma_be_round_trip(flags(m.header) as nat, 2);
        lemma_be_round_trip(m.questions.len(), 2);
        lemma_be_round_trip(m.answers.len(), 2);
        lemma_be_round_trip(m.authority.len(), 2);
        lemma_be_round_trip(m.additional.len(), 2);
        assert(header_bytes(m).len() == 12);
        assert(b.skip(12) =~= questions_bytes(m.questions) + records_bytes(m.answers) + records_bytes(m.authority)
            + records_bytes(m.additional));
    }
}

proof fn lemma_questions_bytes(q: Seq<QuestionView>)
    ensures
        questions_bytes(q) == q.flat_map(|x: QuestionView| question_bytes(x)),
    decreases q.len(),
{
    let f = |x: QuestionView| question_bytes(x);
    if q.len() == 0 {
        assert(q.map_values(f) =~= Seq::empty());
        assert(q.flat_map(f) =~= Seq::empty());
    } else {
        lemma_questions_bytes(q.skip(1));
        assert(q.map_values(f).drop_first() =~= q.skip(1).map_values(f));
        assert(q.map_values(f).first() == question_bytes(q[0]));
        assert(q.flat_map(f) =~= question_bytes(q[0]) + q.skip(1).flat_map(f));
    }
}

proof fn lemma_records_bytes(r: Seq<RecordView>)
    ensures
        records_bytes(r) == r.flat_map(|x: RecordView| record_bytes(x)),
    decreases r.len(),
{
    let f = |x: RecordView| record_bytes(x);
    if r.len() == 0 {
        assert(r.map_values(f) =~= Seq::empty());
        assert(r.flat_map(f) =~= Seq::empty());
    } else {
        lemma_records_bytes(r.skip(1));
        assert(r.map_values(f).drop_first() =~= r.skip(1).map_values(f));
        assert(r.map_values(f).first() == record_bytes(r[0]));
        assert(r.flat_map(f) =~= record_bytes(r[0]) + r.skip(1).flat_map(f));
    }
}

/// Places that go on where the ones before them ended.
proof fn lemma_joined(p0: Seq<int>, p1: Seq<int>, p2: Seq<int>, p3: Seq<int>)
    requires
        p0.len() > 0,
        p1.len() > 0 && p1[0] == p0.last(),
        p2.len() > 0 && p2[0] == p1.last(),
        p3.len() > 0 && p3[0] == p2.last(),
    ensures
        ({
            let p = p0 + p1.skip(1) + p2.skip(1) + p3.skip(1);
            let q = p0.len() - 1;
            let a = q + p1.len() - 1;
            let c = a + p2.len() - 1;
            &&& p.len() == c + p3.len()
            &&& forall|i: int| 0 <= i <= q ==> p[i] == #[trigger] p0[i]
            &&& forall|i: int| 0 <= i < p1.len() ==> #[trigger] p1[i] == p[q + i]
            &&& forall|i: int| 0 <= i < p2.len() ==> #[trigger] p2[i] == p[a + i]
            &&& forall|i: int| 0 <= i < p3.len() ==> #[trigger] p3[i] == p[c + i]
        }),
{
    let p = p0 + p1.skip(1) + p2.skip(1) + p3.skip(1);
    let q = p0.len() - 1;
    let a = q + p1.len() - 1;
    let c = a + p2.len() - 1;
    assert forall|i: int| 0 <= i < p1.len() implies #[trigger] p1[i] == p[q + i] by {
        if i > 0 {
            assert(p1.skip(1)[i - 1] == p1[i]);
        }
    }
    assert forall|i: int| 0 <= i < p2.len() implies #[trigger] p2[i] == p[a + i] by {
        if i > 0 {
            assert(p2.skip(1)[i - 1] == p2[i]);
        } else {
            assert(p1[p1.len() - 1] == p1.last());
        }
    }
    assert forall|i: int| 0 <= i < p3.len() implies #[trigger] p3[i] == p[c + i] by {
        if i > 0 {
            assert(p3.skip(1)[i - 1] == p3[i]);
        } else {
            assert(p2[p2.len() - 1] == p2.last());
        }
    }
}

/// What is read behind the header is read one thing after the other: the
/// questions first, and each section behind the one before it.
#[verifier::spinoff_prover]
#[verifier::rlimit(60)]
pub proof fn law_sections_are_read(b: Seq<u8>)
    ensures
        decode(b) matches Ok(m) ==> exists|p: Seq<int>|
            #![trigger is_path(b, m, p)]
            is_path(b, m, p),
{
    if let Ok(m) = decode(b) {
        lemma_two(b, 4);
        lemma_two(b, 6);
        lemma_two(b, 8);
        lemma_two(b, 10);
        law_header_is_read(b);
        let p0 = lemma_question_places(b, 12, u16_at(b, 4) as nat);
        let p1 = lemma_record_places(b, p0.last(), u16_at(b, 6) as nat);
        let p2 = lemma_record_places(b, p1.last(), u16_at(b, 8) as nat);
        let p3 = lemma_record_places(b, p2.last(), u16_at(b, 10) as nat);
        let q = m.questions.len() as int;
        let a = q + m.answers.len();
        let c = a + m.authority.len();
        let p = p0 + p1.skip(1) + p2.skip(1) + p3.skip(1);
        lemma_joined(p0, p1, p2, p3);
        assert forall|i: int|
            #![trigger m.answers[i]]
            0 <= i < m.answers.len() implies read_record(b, p[q + i]) == Ok::<(RecordView, int), Error>(
            (m.answers[i], p[q + i + 1]),
        ) by {
            assert(p1[i] == p[q + i]);
            assert(p1[i + 1] == p[q + (i + 1)]);
        }
        assert forall|i: int|
            #![trigger m.authority[i]]
            0 <= i < m.authority.len() implies read_record(b, p[a + i]) == Ok::<(RecordView, int), Error>(
            (m.authority[i], p[a + i + 1]),
        ) by {
            assert(p2[i] == p[a + i]);
            assert(p2[i + 1] == p[a + (i + 1)]);
        }
        assert forall|i: int|
            #![trigger m.additional[i]]
            0 <= i < m.additional.len() implies read_record(b, p[c + i]) == Ok::<(RecordView, int), Error>(
            (m.additional[i], p[c + i + 1]),
        ) by {
            assert(p3[i] == p[c + i]);
            assert(p3[i + 1] == p[c + (i + 1)]);
        }
        assert(is_path(b, m, p));
    }
}

/// Whether the questions and records of a message are read at places that follow
/// each other from behind the header on.
pub open spec fn is_path(b: Seq<u8>, m: MessageView, p: Seq<int>) -> bool {
    let q = m.questions.len() as int;
    let a = q + m.answers.len();
    let c = a + m.authority.len();
    &&& p.len() == c + m.additional.len() + 1
    &&& p[0] == 12
    &&& forall|i: int|
        #![trigger m.questions[i]]
        0 <= i < q ==> read_question(b, p[i]) == Ok::<(QuestionView, int), Error>((m.questions[i], p[i + 1]))
    &&& forall|i: int|
        #![trigger m.answers[i]]
        0 <= i < m.answers.len() ==> read_record(b, p[q + i]) == Ok::<(RecordView, int), Error>(
            (m.answers[i], p[q + i + 1]),
        )
    &&& forall|i: int|
        #![trigger m.authority[i]]
        0 <= i < m.authority.len() ==> read_record(b, p[a + i]) == Ok::<(RecordView, int), Error>(
            (m.authority[i], p[a + i + 1]),
        )
    &&& forall|i: int|
        #![trigger m.additional[i]]
        0 <= i < m.additional.len() ==> read_record(b, p[c + i]) == Ok::<(RecordView, int), Error>(
            (m.additional[i], p[c + i + 1]),
        )
}

proof fn lemma_questions_from(b: Seq<u8>, q: Seq<QuestionView>, p: Seq<int>)
    requires
        p.len() == q.len() + 1,
        forall|i: int|
            #![trigger q[i]]
            0 <= i < q.len() ==> read_question(b, p[i]) == Ok::<(QuestionView, int), Error>((q[i], p[i + 1])),
    ensures
        read_questions(b, p[0], q.len()) == Ok::<(Seq<QuestionView>, int), Error>((q, p.last())),
    decreases q.len(),
{
    if q.len() == 0 {
        assert(q =~= Seq::empty());
    } else {
        let r = q.skip(1);
        let o = p.skip(1);
        assert forall|i: int|
            #![trigger r[i]]
            0 <= i < r.len() implies read_question(b, o[i]) == Ok::<(QuestionView, int), Error>((r[i], o[i + 1])) by {
            assert(r[i] == q[i + 1]);
        }
        lemma_questions_from(b, r, o);
        assert(read_question(b, p[0]) == Ok::<(QuestionView, int), Error>((q[0], p[1])));
        assert(seq![q[0]] + r =~= q);
    }
}

proof fn lemma_records_from(b: Seq<u8>, q: Seq<RecordView>, p: Seq<int>)
    requires
        p.len() == q.len() + 1,
        forall|i: int|
            #![trigger q[i]]
            0 <= i < q.len() ==> read_record(b, p[i]) == Ok::<(RecordView, int), Error>((q[i], p[i + 1])),
    ensures
        read_records(b, p[0], q.len()) == Ok::<(Seq<RecordView>, int), Error>((q, p.last())),
    decreases q.len(),
{
    if q.len() == 0 {
        assert(q =~= Seq::empty());
    } else {
        let r = q.skip(1);
        let o = p.skip(1);
        assert forall|i: int|
            #![trigger r[i]]
            0 <= i < r.len() implies read_record(b, o[i]) == Ok::<(RecordView, int), Error>((r[i], o[i + 1])) by {
            assert(r[i] == q[i + 1]);
        }
        lemma_records_from(b, r, o);
        assert(read_record(b, p[0]) == Ok::<(RecordView, int), Error>((q[0], p[1])));
        assert(seq![q[0]] + r =~= q);
    }
}

/// Every message is read whose questions and records can be, as many as its header
/// says, one after the other.
#[verifier::spinoff_prover]
#[verifier::rlimit(60)]
pub proof fn law_messages_that_can_be_read(b: Seq<u8>, m: MessageView, p: Seq<int>)
    requires
        b.len() >= 12,
        two(b, 4) == m.questions.len(),
        two(b, 6) == m.answers.len(),
        two(b, 8) == m.authority.len(),
        two(b, 10) == m.additional.len(),
        is_path(b, m, p),
    ensures
        decode(b) matches Ok(x) && x.questions == m.questions && x.answers == m.answers && x.authority == m.authority
            && x.additional == m.additional,
{
    lemma_two(b, 4);
    lemma_two(b, 6);
    lemma_two(b, 8);
    lemma_two(b, 10);
    let q = m.questions.len() as int;
    let a = q + m.answers.len();
    let c = a + m.authority.len();
    lemma_questions_on_path(b, m, p);
    lemma_records_at(b, m.answers, p, q);
    lemma_records_at(b, m.authority, p, a);
    lemma_records_at(b, m.additional, p, c);
}

proof fn lemma_questions_on_path(b: Seq<u8>, m: MessageView, p: Seq<int>)
    requires
        is_path(b, m, p),
    ensures
        read_questions(b, 12, m.questions.len()) == Ok::<(Seq<QuestionView>, int), Error>(
            (m.questions, p[m.questions.len() as int]),
        ),
{
    let q = m.questions.len() as int;
    let o = p.subrange(0, q + 1);
    assert forall|i: int|
        #![trigger m.questions[i]]
        0 <= i < q implies read_question(b, o[i]) == Ok::<(QuestionView, int), Error>((m.questions[i], o[i + 1])) by {
        assert(read_question(b, p[i]) == Ok::<(QuestionView, int), Error>((m.questions[i], p[i + 1])));
    }
    lemma_questions_from(b, m.questions, o);
}

proof fn lemma_records_at(b: Seq<u8>, r: Seq<RecordView>, p: Seq<int>, start: int)
    requires
        0 <= start,
        start + r.len() < p.len(),
        forall|i: int|
            #![trigger r[i]]
            0 <= i < r.len() ==> read_record(b, p[start + i]) == Ok::<(RecordView, int), Error>(
                (r[i], p[start + i + 1]),
            ),
    ensures
        read_records(b, p[start], r.len()) == Ok::<(Seq<RecordView>, int), Error>((r, p[start + r.len()])),
{
    let o = p.subrange(start, start + r.len() + 1);
    assert forall|i: int|
        #![trigger r[i]]
        0 <= i < r.len() implies read_record(b, o[i]) == Ok::<(RecordView, int), Error>((r[i], o[i + 1])) by {
        assert(read_record(b, p[start + i]) == Ok::<(RecordView, int), Error>((r[i], p[start + i + 1])));
    }
    lemma_records_from(b, r, o);
}

/// A question is read wherever its name is and four bytes follow, and a record
/// wherever its name and its data are.
pub proof fn law_what_can_be_read(msg: Seq<u8>, p: int)
    requires
        0 <= p,
        read_name(msg, p) is Ok,
    ensures
        ({
            let e = read_name(msg, p)->Ok_0.1;
            &&& e + 4 <= msg.len() <==> read_question(msg, p) is Ok
            &&& e + 10 <= msg.len() ==> (read_record(msg, p) is Ok <==> read_rdata(
                msg,
                two(msg, e) as u16,
                e + 10,
                two(msg, e + 8),
            ) is Ok)
            &&& e + 10 > msg.len() ==> read_record(msg, p) is Err
        }),
{
    let e = read_name(msg, p)->Ok_0.1;
    lemma_read_valid(msg, p, 0, 0);
    if e + 10 <= msg.len() {
        lemma_two(msg, e);
        lemma_two(msg, e + 8);
    }
}

proof fn lemma_question_places(b: Seq<u8>, at: int, n: nat) -> (p: Seq<int>)
    requires
        read_questions(b, at, n) is Ok,
    ensures
        p.len() == n + 1,
        p[0] == at,
        p.last() == read_questions(b, at, n)->Ok_0.1,
        read_questions(b, at, n)->Ok_0.0.len() == n,
        forall|i: int|
            #![trigger p[i]]
            0 <= i < n ==> read_question(b, p[i]) == Ok::<(QuestionView, int), Error>(
                (read_questions(b, at, n)->Ok_0.0[i], p[i + 1]),
            ),
    decreases n,
{
    if n == 0 {
        seq![at]
    } else {
        let (one, next) = read_question(b, at)->Ok_0;
        let rest = lemma_question_places(b, next, (n - 1) as nat);
        let p = seq![at] + rest;
        let all = read_questions(b, at, n)->Ok_0.0;
        let more = read_questions(b, next, (n - 1) as nat)->Ok_0.0;
        assert(all =~= seq![one] + more);
        assert forall|i: int|
            #![trigger p[i]]
            0 <= i < n implies read_question(b, p[i]) == Ok::<(QuestionView, int), Error>((all[i], p[i + 1])) by {
            if i > 0 {
                assert(p[i] == rest[i - 1]);
                assert(p[i + 1] == rest[i]);
                assert(all[i] == more[i - 1]);
            } else {
                assert(p[1] == rest[0]);
            }
        }
        assert(p.last() == rest.last());
        p
    }
}

proof fn lemma_record_places(b: Seq<u8>, at: int, n: nat) -> (p: Seq<int>)
    requires
        read_records(b, at, n) is Ok,
    ensures
        p.len() == n + 1,
        p[0] == at,
        p.last() == read_records(b, at, n)->Ok_0.1,
        read_records(b, at, n)->Ok_0.0.len() == n,
        forall|i: int|
            #![trigger p[i]]
            0 <= i < n ==> read_record(b, p[i]) == Ok::<(RecordView, int), Error>(
                (read_records(b, at, n)->Ok_0.0[i], p[i + 1]),
            ),
    decreases n,
{
    if n == 0 {
        seq![at]
    } else {
        let (one, next) = read_record(b, at)->Ok_0;
        let rest = lemma_record_places(b, next, (n - 1) as nat);
        let p = seq![at] + rest;
        let all = read_records(b, at, n)->Ok_0.0;
        let more = read_records(b, next, (n - 1) as nat)->Ok_0.0;
        assert(all =~= seq![one] + more);
        assert forall|i: int|
            #![trigger p[i]]
            0 <= i < n implies read_record(b, p[i]) == Ok::<(RecordView, int), Error>((all[i], p[i + 1])) by {
            if i > 0 {
                assert(p[i] == rest[i - 1]);
                assert(p[i + 1] == rest[i]);
                assert(all[i] == more[i - 1]);
            } else {
                assert(p[1] == rest[0]);
            }
        }
        assert(p.last() == rest.last());
        p
    }
}

// Questions and records.

/// A question is a name, then its type, then its class.
pub proof fn law_question_layout(q: QuestionView, msg: Seq<u8>, p: int)
    ensures
        question_bytes(q) == name_bytes(q.name) + bytes2(q.rtype) + bytes2(q.class),
        0 <= p && read_question(msg, p) is Ok ==> (read_name(msg, p) matches Ok((name, e)) && ({
            let (x, next) = read_question(msg, p)->Ok_0;
            &&& x.name == name
            &&& e + 4 <= msg.len()
            &&& x.rtype == two(msg, e)
            &&& x.class == two(msg, e + 2)
            &&& next == e + 4
        })),
{
    lemma_two_bytes(q.rtype as nat);
    lemma_two_bytes(q.class as nat);
    if let Ok((_, e)) = read_name(msg, p) {
        lemma_read_valid(msg, p, 0, 0);
        if 0 <= p && e + 4 <= msg.len() {
            lemma_two(msg, e);
            lemma_two(msg, e + 2);
        }
    }
}

/// A record is a name, then its type and its class in two bytes each, its TTL in
/// four, the length of its data in two, and then the data.
pub proof fn law_record_layout(r: RecordView, msg: Seq<u8>, p: int)
    ensures
        rdata_bytes(r.rdata).len() < 0x1_0000 ==> record_bytes(r) == name_bytes(r.name) + bytes2(r.rtype) + bytes2(
            r.class,
        ) + bytes4(r.ttl) + bytes2(rdata_bytes(r.rdata).len() as u16) + rdata_bytes(r.rdata),
        0 <= p && read_record(msg, p) is Ok ==> (read_name(msg, p) matches Ok((name, e)) && ({
            let (x, next) = read_record(msg, p)->Ok_0;
            &&& x.name == name
            &&& e + 10 <= msg.len()
            &&& x.rtype == two(msg, e)
            &&& x.class == two(msg, e + 2)
            &&& x.ttl == four(msg, e + 4)
            &&& next == e + 10 + two(msg, e + 8)
            &&& read_rdata(msg, x.rtype, e + 10, two(msg, e + 8)) == Ok::<RDataView, Error>(x.rdata)
        })),
{
    let n = rdata_bytes(r.rdata).len();
    lemma_two_bytes(r.rtype as nat);
    lemma_two_bytes(r.class as nat);
    lemma_four_bytes(r.ttl as nat);
    if n < 0x1_0000 {
        lemma_two_bytes(n);
    }
    if let Ok((_, e)) = read_name(msg, p) {
        lemma_read_valid(msg, p, 0, 0);
        if 0 <= p && e + 10 <= msg.len() {
            lemma_two(msg, e);
            lemma_two(msg, e + 2);
            lemma_four(msg, e + 4);
            lemma_two(msg, e + 8);
        }
    }
}

// Data.

/// Whether a name is all of the data of so many bytes at a place.
pub open spec fn is_name_at(msg: Seq<u8>, p: int, end: int, n: Labels) -> bool {
    read_name(msg, p) == Ok::<(Labels, int), Error>((n, end))
}

/// What data of each type is, byte for byte, where it is read: of type 1, an
/// IPv4 address of four bytes; of type 28, an IPv6 address of sixteen; of types 2,
/// 5 and 12, the name of a server, of an alias and of a host.
pub proof fn law_simple_data_is_read(msg: Seq<u8>, t: u16, start: int, len: int)
    requires
        0 <= start,
        0 <= len,
        start + len <= msg.len(),
    ensures
        t == 1 ==> read_rdata(msg, t, start, len) == if len == 4 {
            Ok::<RDataView, Error>(RDataView::A(seq![msg[start], msg[start + 1], msg[start + 2], msg[start + 3]]))
        } else {
            Err::<RDataView, Error>(Error::BadRData)
        },
        t == 28 ==> read_rdata(msg, t, start, len) == if len == 16 {
            Ok::<RDataView, Error>(RDataView::Aaaa(msg.subrange(start, start + 16)))
        } else {
            Err::<RDataView, Error>(Error::BadRData)
        },
        t == 2 ==> (read_rdata(msg, t, start, len) matches Ok(d) ==> d is Ns && is_name_at(
            msg,
            start,
            start + len,
            d->Ns_0,
        )),
        t == 5 ==> (read_rdata(msg, t, start, len) matches Ok(d) ==> d is Cname && is_name_at(
            msg,
            start,
            start + len,
            d->Cname_0,
        )),
        t == 12 ==> (read_rdata(msg, t, start, len) matches Ok(d) ==> d is Ptr && is_name_at(
            msg,
            start,
            start + len,
            d->Ptr_0,
        )),
        t == 41 ==> read_rdata(msg, t, start, len) == Ok::<RDataView, Error>(
            RDataView::Opt(msg.subrange(start, start + len)),
        ),
        t != 1 && t != 2 && t != 5 && t != 6 && t != 12 && t != 15 && t != 16 && t != 28 && t != 33 && t != 41
            ==> read_rdata(msg, t, start, len) == Ok::<RDataView, Error>(
            RDataView::Unknown(msg.subrange(start, start + len)),
        ),
        (t == 2 || t == 5 || t == 12) ==> forall|n: Labels| #[trigger]
            is_name_at(msg, start, start + len, n) ==> read_rdata(msg, t, start, len) is Ok,
{
    if len == 4 {
        assert(msg.subrange(start, start + 4) =~= seq![msg[start], msg[start + 1], msg[start + 2], msg[start + 3]]);
    }
}

/// Of type 15, a preference of two bytes and then the name of a mail exchange. Of
/// type 33, the priority, the weight and the port of a service, two bytes each, and
/// then the name of its host. Of type 6, two names, the second behind the first,
/// and behind them five numbers of four bytes.
pub proof fn law_structured_data_is_read(msg: Seq<u8>, t: u16, start: int, len: int)
    requires
        0 <= start,
        0 <= len,
        start + len <= msg.len(),
    ensures
        t == 15 ==> (read_rdata(msg, t, start, len) matches Ok(d) ==> len >= 3 && (d matches RDataView::Mx {
            preference,
            exchange,
        } && preference == two(msg, start) && is_name_at(msg, start + 2, start + len, exchange))),
        t == 15 && len >= 3 ==> forall|n: Labels| #[trigger]
            is_name_at(msg, start + 2, start + len, n) ==> read_rdata(msg, t, start, len) is Ok,
        t == 33 ==> (read_rdata(msg, t, start, len) matches Ok(d) ==> len >= 7 && (d matches RDataView::Srv {
            priority,
            weight,
            port,
            target,
        } && priority == two(msg, start) && weight == two(msg, start + 2) && port == two(msg, start + 4) && is_name_at(
            msg,
            start + 6,
            start + len,
            target,
        ))),
        t == 33 && len >= 7 ==> forall|n: Labels| #[trigger]
            is_name_at(msg, start + 6, start + len, n) ==> read_rdata(msg, t, start, len) is Ok,
        t == 6 ==> (read_rdata(msg, t, start, len) matches Ok(d) ==> len >= 22 && (d matches RDataView::Soa {
            mname,
            rname,
            serial,
            refresh,
            retry,
            expire,
            minimum,
        } && ({
            let p = start + len - 20;
            &&& read_name(msg, start) matches Ok((a, e)) && a == mname && is_name_at(msg, e, p, rname)
            &&& serial == four(msg, p)
            &&& refresh == four(msg, p + 4)
            &&& retry == four(msg, p + 8)
            &&& expire == four(msg, p + 12)
            &&& minimum == four(msg, p + 16)
        }))),
        t == 6 ==> forall|n: Labels, e: int| #[trigger]
            is_name_at(msg, e, start + len - 20, n) && read_name(msg, start) is Ok && read_name(msg, start)->Ok_0.1 == e
                ==> read_rdata(msg, t, start, len) is Ok,
{
    if len >= 3 {
        lemma_two(msg, start);
    }
    if len >= 7 {
        lemma_two(msg, start + 2);
        lemma_two(msg, start + 4);
    }
    if t == 6 {
        lemma_read_valid(msg, start, 0, 0);
        if let Ok((_, e)) = read_name(msg, start) {
            lemma_read_valid(msg, e, 0, 0);
            if let Ok((_, p)) = read_name(msg, e) {
                if p + 20 == start + len {
                    lemma_four(msg, p);
                    lemma_four(msg, p + 4);
                    lemma_four(msg, p + 8);
                    lemma_four(msg, p + 12);
                    lemma_four(msg, p + 16);
                }
            }
        }
    }
}

/// Text data is strings, each behind a byte that is its length, and nothing else.
pub proof fn law_text_data_is_read(data: Seq<u8>)
    ensures
        read_txts(data) matches Ok(s) ==> data == s.flat_map(|x: Seq<u8>| label_bytes(x)) && forall|i: int|
            0 <= i < s.len() ==> (#[trigger] s[i]).len() <= 255,
    decreases data.len(),
{
    let f = |x: Seq<u8>| label_bytes(x);
    if data.len() == 0 {
        let s = Seq::<Seq<u8>>::empty();
        assert(s.map_values(f) =~= Seq::empty());
        assert(data =~= s.flat_map(f));
    } else if let Ok(s) = read_txts(data) {
        let n = data[0] as int;
        let rest = data.skip(1 + n);
        law_text_data_is_read(rest);
        let more = read_txts(rest)->Ok_0;
        let one = data.subrange(1, 1 + n);
        assert(s =~= seq![one] + more);
        assert(s.map_values(f).drop_first() =~= more.map_values(f));
        assert(s.map_values(f).first() == label_bytes(one));
        assert(s.flat_map(f) =~= label_bytes(one) + more.flat_map(f));
        assert(data =~= label_bytes(one) + rest);
        assert forall|i: int| 0 <= i < s.len() implies (#[trigger] s[i]).len() <= 255 by {
            if i > 0 {
                assert(s[i] == more[i - 1]);
            }
        }
    }
}

/// What data of type 16 is read as.
pub proof fn law_text_record_is_read(msg: Seq<u8>, start: int, len: int)
    requires
        0 <= start,
        0 <= len,
        start + len <= msg.len(),
    ensures
        read_rdata(msg, 16, start, len) matches Ok(d) ==> d is Txt && msg.subrange(start, start + len)
            == d->Txt_0.flat_map(|x: Seq<u8>| label_bytes(x)) && forall|i: int|
            0 <= i < d->Txt_0.len() ==> (#[trigger] d->Txt_0[i]).len() <= 255,
{
    law_text_data_is_read(msg.subrange(start, start + len));
}

/// A string that is written is cut to 255 bytes.
pub open spec fn cut(s: Seq<u8>) -> Seq<u8> {
    if s.len() <= 255 {
        s
    } else {
        s.take(255)
    }
}

proof fn lemma_txts(s: Seq<Seq<u8>>)
    ensures
        txts_bytes(s) == s.flat_map(|x: Seq<u8>| label_bytes(cut(x))),
    decreases s.len(),
{
    let f = |x: Seq<u8>| label_bytes(cut(x));
    if s.len() == 0 {
        assert(s.map_values(f) =~= Seq::empty());
        assert(s.flat_map(f) =~= Seq::empty());
    } else {
        lemma_txts(s.skip(1));
        assert(s.map_values(f).drop_first() =~= s.skip(1).map_values(f));
        assert(s.map_values(f).first() == label_bytes(cut(s[0])));
        assert(txt_bytes(s[0]) =~= label_bytes(cut(s[0])));
        assert(s.flat_map(f) =~= label_bytes(cut(s[0])) + s.skip(1).flat_map(f));
    }
}

/// What data of each kind is, byte for byte, where it is written.
pub proof fn law_data_is_written(d: RDataView)
    ensures
        rdata_bytes(d) == match d {
            RDataView::A(a) => a,
            RDataView::Aaaa(a) => a,
            RDataView::Cname(n) => name_bytes(n),
            RDataView::Ptr(n) => name_bytes(n),
            RDataView::Ns(n) => name_bytes(n),
            RDataView::Soa { mname, rname, serial, refresh, retry, expire, minimum } => name_bytes(mname) + name_bytes(
                rname,
            ) + bytes4(serial) + bytes4(refresh) + bytes4(retry) + bytes4(expire) + bytes4(minimum),
            RDataView::Mx { preference, exchange } => bytes2(preference) + name_bytes(exchange),
            RDataView::Srv { priority, weight, port, target } => bytes2(priority) + bytes2(weight) + bytes2(port)
                + name_bytes(target),
            RDataView::Txt(s) => s.flat_map(|x: Seq<u8>| label_bytes(cut(x))),
            RDataView::Opt(b) => b,
            RDataView::Unknown(b) => b,
        },
{
    match d {
        RDataView::Soa { mname, rname, serial, refresh, retry, expire, minimum } => {
            lemma_four_bytes(serial as nat);
            lemma_four_bytes(refresh as nat);
            lemma_four_bytes(retry as nat);
            lemma_four_bytes(expire as nat);
            lemma_four_bytes(minimum as nat);
        },
        RDataView::Mx { preference, exchange } => lemma_two_bytes(preference as nat),
        RDataView::Srv { priority, weight, port, target } => {
            lemma_two_bytes(priority as nat);
            lemma_two_bytes(weight as nat);
            lemma_two_bytes(port as nat);
        },
        RDataView::Txt(s) => lemma_txts(s),
        _ => {},
    }
}

// What is cut.

/// A message that is too long for UDP goes without its records, but for the first
/// of type 41, and says so: everything else of it stays.
pub proof fn law_cut_messages(m: MessageView)
    ensures
        truncated(m).header.truncated,
        truncated(m).header == (Header { truncated: true, ..m.header }),
        truncated(m).questions == m.questions,
        truncated(m).answers.len() == 0,
        truncated(m).authority.len() == 0,
        truncated(m).additional.len() <= 1,
        truncated(m).additional.len() == 1 ==> truncated(m).additional[0].rtype == 41 && m.additional.contains(
            truncated(m).additional[0],
        ),
        truncated(m).additional.len() == 0 <==> forall|i: int|
            0 <= i < m.additional.len() ==> (#[trigger] m.additional[i]).rtype != 41,
{
    lemma_first_opt(m.additional, 0);
}

proof fn lemma_first_opt(r: Seq<RecordView>, i: int)
    requires
        0 <= i <= r.len(),
        forall|k: int| 0 <= k < i ==> (#[trigger] r[k]).rtype != 41,
    ensures
        match first_opt(r, i) {
            Some(o) => o.rtype == 41 && r.contains(o),
            None => forall|k: int| 0 <= k < r.len() ==> (#[trigger] r[k]).rtype != 41,
        },
    decreases r.len() - i,
{
    if i < r.len() && r[i].rtype != 41 {
        lemma_first_opt(r, i + 1);
    }
}

} // verus!

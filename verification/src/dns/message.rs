//! Questions and whole messages.
use crate::dns::class;
use crate::dns::error::{Error, CLASSIC_UDP_SIZE, EDNS_UDP_SIZE, MAX_MESSAGE_SIZE};
use crate::dns::header::{flags, header_of, no_header, Header};
use crate::dns::name::{name_bytes, read_name, Labels, Name};
use crate::dns::record::{
    copy_records, get_u16, opt_record, read_record, record_bytes, records_view, u16_at, Record, RecordView,
};
use crate::dns::rtype;
use crate::octets;
use crate::octets::be_bytes;
use vstd::prelude::*;

verus! {

#[derive(Debug, PartialEq, Eq, Hash)]
pub struct Question {
    pub name: Name,
    pub rtype: u16,
    pub class: u16,
}

#[verifier::ext_equal]
pub struct QuestionView {
    pub name: Labels,
    pub rtype: u16,
    pub class: u16,
}

impl View for Question {
    type V = QuestionView;

    open spec fn view(&self) -> QuestionView {
        QuestionView { name: self.name@, rtype: self.rtype, class: self.class }
    }
}

impl Clone for Question {
    fn clone(&self) -> (r: Question)
        ensures
            r@ == self@,
    {
        Question { name: self.name.clone(), rtype: self.rtype, class: self.class }
    }
}

/// A question of class IN.
pub open spec fn question_in(name: Labels, rtype: u16) -> QuestionView {
    QuestionView { name, rtype, class: class::IN }
}

impl Question {
    pub fn new(name: Name, rtype: u16) -> (r: Question)
        ensures
            r@ == question_in(name@, rtype),
    {
        Question { name, rtype, class: class::IN }
    }
}

#[derive(Debug, PartialEq, Eq)]
pub struct Message {
    pub header: Header,
    pub questions: Vec<Question>,
    pub answers: Vec<Record>,
    pub authority: Vec<Record>,
    pub additional: Vec<Record>,
}

#[verifier::ext_equal]
pub struct MessageView {
    pub header: Header,
    pub questions: Seq<QuestionView>,
    pub answers: Seq<RecordView>,
    pub authority: Seq<RecordView>,
    pub additional: Seq<RecordView>,
}

pub open spec fn questions_view(v: Seq<Question>) -> Seq<QuestionView> {
    Seq::new(v.len(), |i: int| v[i]@)
}

impl View for Message {
    type V = MessageView;

    open spec fn view(&self) -> MessageView {
        MessageView {
            header: self.header,
            questions: questions_view(self.questions@),
            answers: records_view(self.answers@),
            authority: records_view(self.authority@),
            additional: records_view(self.additional@),
        }
    }
}

fn copy_questions(v: &Vec<Question>) -> (r: Vec<Question>)
    ensures
        questions_view(r@) == questions_view(v@),
{
    let mut out: Vec<Question> = Vec::new();
    let mut i: usize = 0;
    while i < v.len()
        invariant
            i <= v@.len(),
            out@.len() == i,
            forall|j: int| 0 <= j < i ==> #[trigger] out@[j]@ == v@[j]@,
        decreases v@.len() - i,
    {
        out.push(v[i].clone());
        i += 1;
    }
    assert(questions_view(out@) =~= questions_view(v@));
    out
}

impl Clone for Message {
    fn clone(&self) -> (r: Message)
        ensures
            r@ == self@,
    {
        Message {
            header: self.header,
            questions: copy_questions(&self.questions),
            answers: copy_records(&self.answers),
            authority: copy_records(&self.authority),
            additional: copy_records(&self.additional),
        }
    }
}

/// Nothing in any section.
pub open spec fn no_message() -> MessageView {
    MessageView {
        header: no_header(),
        questions: Seq::empty(),
        answers: Seq::empty(),
        authority: Seq::empty(),
        additional: Seq::empty(),
    }
}

impl Default for Message {
    fn default() -> (r: Message)
        ensures
            r@ == no_message(),
    {
        let r = Message {
            header: Header::default(),
            questions: Vec::new(),
            answers: Vec::new(),
            authority: Vec::new(),
            additional: Vec::new(),
        };
        assert(r@ =~= no_message());
        r
    }
}

/// A recursion-desired query for one question, with EDNS.
pub open spec fn query(id: u16, question: QuestionView) -> MessageView {
    MessageView {
        header: Header { id, recursion_desired: true, ..no_header() },
        questions: seq![question],
        additional: seq![opt_record(EDNS_UDP_SIZE, false)],
        ..no_message()
    }
}

/// The reply skeleton for a query: same id, same question, RA set.
pub open spec fn reply_to(query: MessageView) -> MessageView {
    MessageView {
        header: Header {
            id: query.header.id,
            response: true,
            opcode: query.header.opcode,
            recursion_desired: query.header.recursion_desired,
            recursion_available: true,
            checking_disabled: query.header.checking_disabled,
            ..no_header()
        },
        questions: query.questions,
        ..no_message()
    }
}

/// The first OPT record from `i` on.
pub open spec fn first_opt(r: Seq<RecordView>, i: int) -> Option<RecordView>
    decreases r.len() - i,
{
    if i < 0 || i >= r.len() {
        None
    } else if r[i].rtype == rtype::OPT {
        Some(r[i])
    } else {
        first_opt(r, i + 1)
    }
}

impl MessageView {
    pub open spec fn opt(self) -> Option<RecordView> {
        first_opt(self.additional, 0)
    }

    /// The peer's advertised UDP payload size, or the classic 512.
    pub open spec fn udp_size(self) -> u16 {
        match self.opt() {
            Some(o) => if o.class > CLASSIC_UDP_SIZE {
                o.class
            } else {
                CLASSIC_UDP_SIZE
            },
            None => CLASSIC_UDP_SIZE,
        }
    }

    /// The full response code: the EDNS bits above the header's.
    pub open spec fn rcode(self) -> u16 {
        let ext: u16 = match self.opt() {
            Some(o) => (o.ttl / 0x100_0000) as u16,
            None => 0,
        };
        (ext << 4) | (self.header.rcode as u16)
    }

    /// The single question, when there is exactly one.
    pub open spec fn question(self) -> Option<QuestionView> {
        if self.questions.len() == 1 {
            Some(self.questions[0])
        } else {
            None
        }
    }
}

/// The extended bits count sixteens where the header's code has four bits.
pub proof fn law_rcode(m: MessageView)
    requires
        m.header.rcode < 16,
    ensures
        m.rcode() == (match m.opt() {
            Some(o) => o.ttl / 0x100_0000,
            None => 0,
        }) * 16 + m.header.rcode,
{
    let ext: u16 = match m.opt() {
        Some(o) => (o.ttl / 0x100_0000) as u16,
        None => 0,
    };
    let low: u16 = m.header.rcode as u16;
    assert((ext << 4) | low == ext * 16 + low) by (bit_vector)
        requires
            ext < 0x100,
            low < 16,
    ;
}

// Messages on the wire.

pub open spec fn question_bytes(q: QuestionView) -> Seq<u8> {
    name_bytes(q.name) + be_bytes(q.rtype as nat, 2) + be_bytes(q.class as nat, 2)
}

pub open spec fn questions_bytes(q: Seq<QuestionView>) -> Seq<u8>
    decreases q.len(),
{
    if q.len() == 0 {
        Seq::empty()
    } else {
        question_bytes(q[0]) + questions_bytes(q.skip(1))
    }
}

pub open spec fn records_bytes(r: Seq<RecordView>) -> Seq<u8>
    decreases r.len(),
{
    if r.len() == 0 {
        Seq::empty()
    } else {
        record_bytes(r[0]) + records_bytes(r.skip(1))
    }
}

pub open spec fn header_bytes(m: MessageView) -> Seq<u8> {
    be_bytes(m.header.id as nat, 2) + be_bytes(flags(m.header) as nat, 2) + be_bytes(m.questions.len(), 2)
        + be_bytes(m.answers.len(), 2) + be_bytes(m.authority.len(), 2) + be_bytes(m.additional.len(), 2)
}

pub open spec fn message_bytes(m: MessageView) -> Seq<u8> {
    header_bytes(m) + questions_bytes(m.questions) + records_bytes(m.answers) + records_bytes(m.authority)
        + records_bytes(m.additional)
}

/// Whether every section can be counted.
pub open spec fn countable(m: MessageView) -> bool {
    &&& m.questions.len() <= u16::MAX
    &&& m.answers.len() <= u16::MAX
    &&& m.authority.len() <= u16::MAX
    &&& m.additional.len() <= u16::MAX
}

pub open spec fn encode(m: MessageView) -> Result<Seq<u8>, Error> {
    if !countable(m) || message_bytes(m).len() > MAX_MESSAGE_SIZE {
        Err(Error::TooLarge)
    } else {
        Ok(message_bytes(m))
    }
}

/// A message without its records but for OPT, marked as truncated.
pub open spec fn truncated(m: MessageView) -> MessageView {
    MessageView {
        header: Header { truncated: true, ..m.header },
        questions: m.questions,
        additional: match m.opt() {
            Some(o) => seq![o],
            None => Seq::empty(),
        },
        ..no_message()
    }
}

/// What a message is over UDP: itself, or where that is more than `limit`
/// bytes, what tells the client to retry over TCP.
pub open spec fn encode_udp(m: MessageView, limit: nat) -> Result<Seq<u8>, Error> {
    match encode(m) {
        Err(e) => Err(e),
        Ok(b) => if b.len() <= limit {
            Ok(b)
        } else {
            encode(truncated(m))
        },
    }
}

pub open spec fn read_question(msg: Seq<u8>, p: int) -> Result<(QuestionView, int), Error> {
    match read_name(msg, p) {
        Err(e) => Err(e),
        Ok((name, next)) => if next + 4 > msg.len() {
            Err(Error::Truncated)
        } else {
            Ok((QuestionView { name, rtype: u16_at(msg, next), class: u16_at(msg, next + 2) }, next + 4))
        },
    }
}

/// `n` questions from `p` on, and the position after them.
pub open spec fn read_questions(msg: Seq<u8>, p: int, n: nat) -> Result<(Seq<QuestionView>, int), Error>
    decreases n,
{
    if n == 0 {
        Ok((Seq::empty(), p))
    } else {
        match read_question(msg, p) {
            Err(e) => Err(e),
            Ok((q, next)) => match read_questions(msg, next, (n - 1) as nat) {
                Err(e) => Err(e),
                Ok((more, end)) => Ok((seq![q] + more, end)),
            },
        }
    }
}

/// `n` records from `p` on, and the position after them.
pub open spec fn read_records(msg: Seq<u8>, p: int, n: nat) -> Result<(Seq<RecordView>, int), Error>
    decreases n,
{
    if n == 0 {
        Ok((Seq::empty(), p))
    } else {
        match read_record(msg, p) {
            Err(e) => Err(e),
            Ok((r, next)) => match read_records(msg, next, (n - 1) as nat) {
                Err(e) => Err(e),
                Ok((more, end)) => Ok((seq![r] + more, end)),
            },
        }
    }
}

/// The message that bytes are. Trailing bytes are tolerated: some middleboxes
/// pad.
pub open spec fn decode(msg: Seq<u8>) -> Result<MessageView, Error> {
    if msg.len() < 12 {
        Err(Error::Truncated)
    } else {
        match read_questions(msg, 12, u16_at(msg, 4) as nat) {
            Err(e) => Err(e),
            Ok((questions, p)) => match read_records(msg, p, u16_at(msg, 6) as nat) {
                Err(e) => Err(e),
                Ok((answers, p)) => match read_records(msg, p, u16_at(msg, 8) as nat) {
                    Err(e) => Err(e),
                    Ok((authority, p)) => match read_records(msg, p, u16_at(msg, 10) as nat) {
                        Err(e) => Err(e),
                        Ok((additional, p)) => Ok(
                            MessageView {
                                header: header_of(u16_at(msg, 0), u16_at(msg, 2)),
                                questions,
                                answers,
                                authority,
                                additional,
                            },
                        ),
                    },
                },
            },
        }
    }
}

impl Question {
    fn write(&self, out: &mut Vec<u8>)
        ensures
            final(out)@ == old(out)@ + question_bytes(self@),
    {
        broadcast use octets::lemma_join;

        self.name.write(out);
        octets::push_be(out, self.rtype as u64, 2);
        octets::push_be(out, self.class as u64, 2);
    }
}

fn write_records(out: &mut Vec<u8>, records: &Vec<Record>)
    ensures
        final(out)@ == old(out)@ + records_bytes(records_view(records@)),
{
    let ghost all = records_view(records@);
    let mut i: usize = 0;
    assert(all.skip(0) =~= all);
    while i < records.len()
        invariant
            i <= records@.len(),
            all == records_view(records@),
            out@ + records_bytes(all.skip(i as int)) == old(out)@ + records_bytes(all),
        decreases records@.len() - i,
    {
        let ghost before = out@;
        records[i].write(out);
        proof {
            assert(all.skip(i as int).skip(1) =~= all.skip(i + 1));
            octets::lemma_join(before, record_bytes(all[i as int]), records_bytes(all.skip(i + 1)));
        }
        i += 1;
    }
    assert(all.skip(i as int) =~= Seq::empty());
    assert(out@ =~= old(out)@ + records_bytes(all));
}

fn write_questions(out: &mut Vec<u8>, questions: &Vec<Question>)
    ensures
        final(out)@ == old(out)@ + questions_bytes(questions_view(questions@)),
{
    let ghost all = questions_view(questions@);
    let mut i: usize = 0;
    assert(all.skip(0) =~= all);
    while i < questions.len()
        invariant
            i <= questions@.len(),
            all == questions_view(questions@),
            out@ + questions_bytes(all.skip(i as int)) == old(out)@ + questions_bytes(all),
        decreases questions@.len() - i,
    {
        let ghost before = out@;
        questions[i].write(out);
        proof {
            assert(all.skip(i as int).skip(1) =~= all.skip(i + 1));
            octets::lemma_join(before, question_bytes(all[i as int]), questions_bytes(all.skip(i + 1)));
        }
        i += 1;
    }
    assert(all.skip(i as int) =~= Seq::empty());
    assert(out@ =~= old(out)@ + questions_bytes(all));
}

fn get_records(msg: &[u8], p: usize, n: u16) -> (r: Result<(Vec<Record>, usize), Error>)
    ensures
        match read_records(msg@, p as int, n as nat) {
            Ok((v, end)) => r matches Ok((records, next)) && records_view(records@) == v && next == end && (p
                <= msg@.len() ==> next <= msg@.len()),
            Err(e) => r matches Err(err) && err == e,
        },
{
    let mut out: Vec<Record> = Vec::new();
    let mut at: usize = p;
    let mut k: u16 = 0;
    let ghost whole = read_records(msg@, p as int, n as nat);
    assert(records_view(out@) =~= Seq::empty());
    proof {
        if let Ok((v, _)) = whole {
            assert(Seq::<RecordView>::empty() + v =~= v);
        }
    }
    while k < n
        invariant
            k <= n,
            whole == read_records(msg@, p as int, n as nat),
            p <= msg@.len() ==> at <= msg@.len(),
            match read_records(msg@, at as int, (n - k) as nat) {
                Ok((more, end)) => whole == Ok::<(Seq<RecordView>, int), Error>((records_view(out@) + more, end)),
                Err(e) => whole == Err::<(Seq<RecordView>, int), Error>(e),
            },
        decreases n - k,
    {
        let (record, next): (Record, usize) = Record::read(msg, at)?;
        let ghost before = records_view(out@);
        let ghost one = record@;
        out.push(record);
        proof {
            assert(records_view(out@) =~= before.push(one));
            if let Ok((more, _)) = read_records(msg@, next as int, (n - k - 1) as nat) {
                assert(before + (seq![one] + more) =~= records_view(out@) + more);
            }
        }
        at = next;
        k += 1;
    }
    assert(records_view(out@) + Seq::empty() =~= records_view(out@));
    Ok((out, at))
}

fn get_questions(msg: &[u8], p: usize, n: u16) -> (r: Result<(Vec<Question>, usize), Error>)
    requires
        p <= msg@.len(),
    ensures
        match read_questions(msg@, p as int, n as nat) {
            Ok((v, end)) => r matches Ok((questions, next)) && questions_view(questions@) == v && next == end && next
                <= msg@.len(),
            Err(e) => r matches Err(err) && err == e,
        },
{
    let mut out: Vec<Question> = Vec::new();
    let mut at: usize = p;
    let mut k: u16 = 0;
    let ghost whole = read_questions(msg@, p as int, n as nat);
    assert(questions_view(out@) =~= Seq::empty());
    proof {
        if let Ok((v, _)) = whole {
            assert(Seq::<QuestionView>::empty() + v =~= v);
        }
    }
    while k < n
        invariant
            k <= n,
            at <= msg@.len(),
            whole == read_questions(msg@, p as int, n as nat),
            match read_questions(msg@, at as int, (n - k) as nat) {
                Ok((more, end)) => whole == Ok::<(Seq<QuestionView>, int), Error>(
                    (questions_view(out@) + more, end),
                ),
                Err(e) => whole == Err::<(Seq<QuestionView>, int), Error>(e),
            },
        decreases n - k,
    {
        let (name, next): (Name, usize) = Name::read(msg, at)?;
        if msg.len() - next < 4 {
            return Err(Error::Truncated);
        }
        let question = Question { name, rtype: get_u16(msg, next), class: get_u16(msg, next + 2) };
        let ghost before = questions_view(out@);
        let ghost one = question@;
        out.push(question);
        proof {
            assert(questions_view(out@) =~= before.push(one));
            if let Ok((more, _)) = read_questions(msg@, next + 4, (n - k - 1) as nat) {
                assert(before + (seq![one] + more) =~= questions_view(out@) + more);
            }
        }
        at = next + 4;
        k += 1;
    }
    assert(questions_view(out@) + Seq::empty() =~= questions_view(out@));
    Ok((out, at))
}

impl Message {
    /// A recursion-desired query for one question, with EDNS advertising
    /// [`EDNS_UDP_SIZE`].
    pub fn query(id: u16, question: Question) -> (r: Message)
        ensures
            r@ == query(id, question@),
    {
        let ghost q = question@;
        let mut m = Message::default();
        m.header.id = id;
        m.header.recursion_desired = true;
        m.questions.push(question);
        m.additional.push(Record::opt(EDNS_UDP_SIZE, false));
        assert(m@ =~= query(id, q)) by {
            assert(m@.questions =~= seq![q]);
            assert(m@.additional =~= seq![opt_record(EDNS_UDP_SIZE, false)]);
        }
        m
    }

    /// The reply skeleton for `query`: same id, same question, RA set.
    pub fn reply_to(query: &Message) -> (r: Message)
        ensures
            r@ == reply_to(query@),
    {
        let mut m = Message::default();
        m.header.id = query.header.id;
        m.header.response = true;
        m.header.opcode = query.header.opcode;
        m.header.recursion_desired = query.header.recursion_desired;
        m.header.recursion_available = true;
        m.header.checking_disabled = query.header.checking_disabled;
        m.questions = copy_questions(&query.questions);
        assert(m@ =~= reply_to(query@));
        m
    }

    pub fn opt(&self) -> (r: Option<&Record>)
        ensures
            match self@.opt() {
                Some(o) => r matches Some(record) && record@ == o,
                None => r is None,
            },
    {
        let mut i: usize = 0;
        while i < self.additional.len()
            invariant
                i <= self.additional@.len(),
                self@.opt() == first_opt(self@.additional, i as int),
            decreases self.additional@.len() - i,
        {
            assert(self@.additional[i as int] == self.additional@[i as int]@);
            if self.additional[i].rtype == rtype::OPT {
                return Some(&self.additional[i]);
            }
            i += 1;
        }
        None
    }

    /// The peer's advertised UDP payload size, or the classic 512.
    pub fn udp_size(&self) -> (r: u16)
        ensures
            r == self@.udp_size(),
    {
        match self.opt() {
            Some(o) => if o.class > CLASSIC_UDP_SIZE {
                o.class
            } else {
                CLASSIC_UDP_SIZE
            },
            None => CLASSIC_UDP_SIZE,
        }
    }

    /// The full response code, with the EDNS extended bits.
    pub fn rcode(&self) -> (r: u16)
        ensures
            r == self@.rcode(),
    {
        let ext: u16 = match self.opt() {
            Some(o) => (o.ttl / 0x100_0000) as u16,
            None => 0,
        };
        (ext << 4) | (self.header.rcode as u16)
    }

    pub fn encode(&self) -> (r: Result<Vec<u8>, Error>)
        ensures
            match encode(self@) {
                Ok(b) => r matches Ok(bytes) && bytes@ == b,
                Err(e) => r matches Err(err) && err == e,
            },
    {
        if self.questions.len() > u16::MAX as usize || self.answers.len() > u16::MAX as usize
            || self.authority.len() > u16::MAX as usize || self.additional.len() > u16::MAX as usize {
            return Err(Error::TooLarge);
        }
        let mut out: Vec<u8> = Vec::with_capacity(512);
        octets::push_be(&mut out, self.header.id as u64, 2);
        octets::push_be(&mut out, self.header.flags() as u64, 2);
        octets::push_be(&mut out, self.questions.len() as u64, 2);
        octets::push_be(&mut out, self.answers.len() as u64, 2);
        octets::push_be(&mut out, self.authority.len() as u64, 2);
        octets::push_be(&mut out, self.additional.len() as u64, 2);
        assert(out@ =~= header_bytes(self@));
        write_questions(&mut out, &self.questions);
        write_records(&mut out, &self.answers);
        write_records(&mut out, &self.authority);
        write_records(&mut out, &self.additional);
        if out.len() > MAX_MESSAGE_SIZE {
            return Err(Error::TooLarge);
        }
        Ok(out)
    }

    /// Encode for UDP: if the message exceeds `limit`, drop the answer
    /// sections and set TC so the client retries over TCP.
    pub fn encode_udp(&self, limit: u16) -> (r: Result<Vec<u8>, Error>)
        ensures
            match encode_udp(self@, limit as nat) {
                Ok(b) => r matches Ok(bytes) && bytes@ == b,
                Err(e) => r matches Err(err) && err == e,
            },
    {
        let full = self.encode()?;
        if full.len() <= limit as usize {
            return Ok(full);
        }
        let mut m = Message::default();
        m.header = self.header;
        m.header.truncated = true;
        m.questions = copy_questions(&self.questions);
        if let Some(opt) = self.opt() {
            m.additional.push(opt.clone());
        }
        assert(m@ =~= truncated(self@));
        m.encode()
    }

    pub fn decode(msg: &[u8]) -> (r: Result<Message, Error>)
        ensures
            match decode(msg@) {
                Ok(m) => r matches Ok(message) && message@ == m,
                Err(e) => r matches Err(err) && err == e,
            },
    {
        if msg.len() < 12 {
            return Err(Error::Truncated);
        }
        let header = Header::from_flags(get_u16(msg, 0), get_u16(msg, 2));
        let (questions, p): (Vec<Question>, usize) = get_questions(msg, 12, get_u16(msg, 4))?;
        let (answers, p): (Vec<Record>, usize) = get_records(msg, p, get_u16(msg, 6))?;
        let (authority, p): (Vec<Record>, usize) = get_records(msg, p, get_u16(msg, 8))?;
        let (additional, _): (Vec<Record>, usize) = get_records(msg, p, get_u16(msg, 10))?;
        Ok(Message { header, questions, answers, authority, additional })
    }

    /// The single question, when there is exactly one.
    pub fn question(&self) -> (r: Option<&Question>)
        ensures
            match self@.question() {
                Some(q) => r matches Some(question) && question@ == q,
                None => r is None,
            },
    {
        if self.questions.len() == 1 {
            assert(self@.questions[0] == self.questions@[0]@);
            Some(&self.questions[0])
        } else {
            None
        }
    }
}

} // verus!

//! A probe for the doors: a raw query, and what a raw reply says.
use crate::dns::record::{get_u16, u16_at};
use crate::nss::{length_undotted, undotted};
use crate::octets::{self, split, split_by, strings};
use crate::text::{self, chars, dec};
use vstd::prelude::*;
use vstd::string::*;
use vstd::utf8::*;

verus! {

/// Labels as a message has them, each behind its length.
pub open spec fn labels_bytes(labels: Seq<Seq<u8>>) -> Seq<u8>
    decreases labels.len(),
{
    if labels.len() == 0 {
        Seq::empty()
    } else {
        labels_bytes(labels.drop_last()) + (seq![(labels.last().len() % 0x100) as u8] + labels.last())
    }
}

/// A recursion-desired query for the addresses of a name, nothing of it
/// checked.
pub open spec fn raw_query(name: Seq<u8>) -> Seq<u8> {
    seq![0x12u8, 0x34, 0x01, 0x00, 0, 1, 0, 0, 0, 0, 0, 0] + labels_bytes(split(undotted(name), 0x2e)) + seq![
        0u8,
        0,
        1,
        0,
        1,
    ]
}

pub fn query(name: &str) -> (m: Vec<u8>)
    ensures
        m@ == raw_query(encode_utf8(name@)),
{
    let b = name.as_bytes();
    let bare = octets::copy_range(b, 0, length_undotted(b));
    assert(bare@ =~= undotted(b@));
    let labels = split_by(bare.as_slice(), 0x2e);
    let mut m: Vec<u8> = vec![0x12, 0x34, 0x01, 0x00, 0, 1, 0, 0, 0, 0, 0, 0];
    let ghost head = seq![0x12u8, 0x34, 0x01, 0x00, 0, 1, 0, 0, 0, 0, 0, 0];
    let ghost all = strings(labels@);
    assert(m@ =~= head);
    let mut i: usize = 0;
    assert(head + labels_bytes(all.take(0)) =~= head);
    while i < labels.len()
        invariant
            i <= labels@.len(),
            all == strings(labels@),
            m@ == head + labels_bytes(all.take(i as int)),
        decreases labels@.len() - i,
    {
        assert(all.take(i + 1).drop_last() =~= all.take(i as int));
        assert(all[i as int] == labels@[i as int]@);
        let ghost before = labels_bytes(all.take(i as int));
        m.push((labels[i].len() % 0x100) as u8);
        octets::push_all(&mut m, labels[i].as_slice());
        assert(m@ =~= head + (before + (seq![(all[i as int].len() % 0x100) as u8] + all[i as int])));
        i += 1;
    }
    assert(all.take(i as int) =~= all);
    octets::push_all(&mut m, &[0, 0, 1, 0, 1]);
    assert(m@ =~= raw_query(b@));
    m
}

/// Whether what looks like the end of an address record stands at a place.
pub open spec fn address_at(reply: Seq<u8>, i: int) -> bool {
    &&& 16 < i
    &&& i + 14 <= reply.len()
    &&& u16_at(reply, i) == 1
    &&& u16_at(reply, i + 2) == 1
    &&& u16_at(reply, i + 8) == 4
}

/// Four bytes as an address is written.
pub open spec fn dotted(reply: Seq<u8>, i: int) -> Seq<char> {
    chars(dec(reply[i] as nat)) + "."@ + chars(dec(reply[i + 1] as nat)) + "."@ + chars(dec(reply[i + 2] as nat)) + "."@
        + chars(dec(reply[i + 3] as nat))
}

/// The addresses that are found from the questions up to `n`, between
/// quotation marks, with commas between them.
pub open spec fn found(reply: Seq<u8>, n: int) -> Seq<char>
    decreases n,
{
    if n <= 12 {
        Seq::empty()
    } else {
        let before = found(reply, n - 1);
        if address_at(reply, n - 1) {
            before + (if before.len() > 0 {
                ", "@
            } else {
                Seq::empty()
            }) + ("\""@ + dotted(reply, n + 9) + "\""@)
        } else {
            before
        }
    }
}

/// What a reply says, in a line.
pub open spec fn description(reply: Seq<u8>) -> Seq<char> {
    if reply.len() < 12 {
        "short reply ("@ + chars(dec(reply.len())) + " bytes)"@
    } else {
        "rcode="@ + chars(dec((reply[3] % 16) as nat)) + " ancount="@ + chars(dec(u16_at(reply, 6) as nat)) + " A=["@
            + found(reply, reply.len() - 9) + "] ("@ + chars(dec(reply.len())) + " bytes)"@
    }
}

fn put_number(out: &mut String, n: u64)
    ensures
        final(out)@ == old(out)@ + chars(dec(n as nat)),
{
    out.append(text::dec_string(n).as_str());
}

fn put_dotted(out: &mut String, reply: &[u8], i: usize)
    requires
        i + 4 <= reply@.len(),
    ensures
        final(out)@ == old(out)@ + dotted(reply@, i as int),
{
    put_number(out, reply[i] as u64);
    out.append(".");
    put_number(out, reply[i + 1] as u64);
    out.append(".");
    put_number(out, reply[i + 2] as u64);
    out.append(".");
    put_number(out, reply[i + 3] as u64);
    assert(out@ =~= old(out)@ + dotted(reply@, i as int));
}

fn find_addresses(reply: &[u8]) -> (out: String)
    requires
        reply@.len() >= 12,
    ensures
        out@ == found(reply@, reply@.len() - 9),
{
    let mut out = String::new();
    assert(out@ =~= Seq::<char>::empty());
    let mut any: bool = false;
    let len: usize = reply.len();
    let mut i: usize = 12;
    while len >= 10 && i <= len - 10
        invariant
            len == reply@.len(),
            12 <= i,
            i <= 12 || i <= len - 9,
            out@ == found(reply@, i as int),
            any == (found(reply@, i as int).len() > 0),
        decreases len - i,
    {
        let ghost before = out@;
        assert(found(reply@, i + 1) == if address_at(reply@, i as int) {
            before + (if before.len() > 0 {
                ", "@
            } else {
                Seq::empty()
            }) + ("\""@ + dotted(reply@, i + 10) + "\""@)
        } else {
            before
        });
        if 16 < i && len >= 14 && i <= len - 14 && get_u16(reply, i) == 1 && get_u16(reply, i + 2) == 1 && get_u16(
            reply,
            i + 8,
        ) == 4 {
            proof {
                reveal_strlit("\"");
            }
            if any {
                out.append(", ");
            }
            out.append("\"");
            put_dotted(&mut out, reply, i + 10);
            out.append("\"");
            any = true;
            assert(out@ =~= found(reply@, i + 1));
        }
        i += 1;
    }
    out
}

pub fn describe(reply: &[u8]) -> (out: String)
    ensures
        out@ == description(reply@),
{
    if reply.len() < 12 {
        let mut out = "short reply (".to_owned();
        put_number(&mut out, reply.len() as u64);
        out.append(" bytes)");
        return out;
    }
    let mut out = "rcode=".to_owned();
    put_number(&mut out, (reply[3] % 16) as u64);
    out.append(" ancount=");
    put_number(&mut out, get_u16(reply, 6) as u64);
    out.append(" A=[");
    out.append(find_addresses(reply).as_str());
    out.append("] (");
    put_number(&mut out, reply.len() as u64);
    out.append(" bytes)");
    out
}

} // verus!

//! The fixed part of a message.
use vstd::prelude::*;

verus! {

#[derive(Debug, Clone, Copy, PartialEq, Eq, Structural)]
pub struct Header {
    pub id: u16,
    pub response: bool,
    /// Opcode, 4 bits. 0 is QUERY; everything else is refused by a stub.
    pub opcode: u8,
    pub authoritative: bool,
    pub truncated: bool,
    pub recursion_desired: bool,
    pub recursion_available: bool,
    /// AD: the answer was DNSSEC-validated by the responder. It is never
    /// trusted from a plaintext upstream, but carried.
    pub authentic_data: bool,
    pub checking_disabled: bool,
    /// The low 4 bits; EDNS extends it.
    pub rcode: u8,
}

/// A bit of the flags.
pub open spec fn flag(b: bool, weight: int) -> int {
    if b {
        weight
    } else {
        0
    }
}

/// The first byte of the flags; of the opcode the low four bits.
pub open spec fn high_flags(h: Header) -> int {
    flag(h.response, 0x80) + (h.opcode % 16) * 8 + flag(h.authoritative, 4) + flag(h.truncated, 2) + flag(
        h.recursion_desired,
        1,
    )
}

/// The second byte of the flags; of the response code the low four bits.
pub open spec fn low_flags(h: Header) -> int {
    flag(h.recursion_available, 0x80) + flag(h.authentic_data, 0x20) + flag(h.checking_disabled, 0x10) + h.rcode
        % 16
}

pub open spec fn flags(h: Header) -> u16 {
    (high_flags(h) * 0x100 + low_flags(h)) as u16
}

/// The header with an id and flags.
pub open spec fn header_of(id: u16, f: u16) -> Header {
    let high = f / 0x100;
    let low = f % 0x100;
    Header {
        id,
        response: high / 0x80 % 2 == 1,
        opcode: (high / 8 % 16) as u8,
        authoritative: high / 4 % 2 == 1,
        truncated: high / 2 % 2 == 1,
        recursion_desired: high % 2 == 1,
        recursion_available: low / 0x80 % 2 == 1,
        authentic_data: low / 0x20 % 2 == 1,
        checking_disabled: low / 0x10 % 2 == 1,
        rcode: (low % 16) as u8,
    }
}

/// All clear.
pub open spec fn no_header() -> Header {
    header_of(0, 0)
}

impl Default for Header {
    fn default() -> (r: Header)
        ensures
            r == no_header(),
    {
        Header {
            id: 0,
            response: false,
            opcode: 0,
            authoritative: false,
            truncated: false,
            recursion_desired: false,
            recursion_available: false,
            authentic_data: false,
            checking_disabled: false,
            rcode: 0,
        }
    }
}

fn bit(b: bool, weight: u16) -> (r: u16)
    ensures
        r == flag(b, weight as int),
{
    if b {
        weight
    } else {
        0
    }
}

impl Header {
    pub(crate) fn flags(&self) -> (r: u16)
        ensures
            r == flags(*self),
    {
        let high: u16 = bit(self.response, 0x80) + (self.opcode % 16) as u16 * 8 + bit(self.authoritative, 4) + bit(
            self.truncated,
            2,
        ) + bit(self.recursion_desired, 1);
        let low: u16 = bit(self.recursion_available, 0x80) + bit(self.authentic_data, 0x20) + bit(
            self.checking_disabled,
            0x10,
        ) + (self.rcode % 16) as u16;
        high * 0x100 + low
    }

    pub(crate) fn from_flags(id: u16, f: u16) -> (r: Header)
        ensures
            r == header_of(id, f),
    {
        let high: u16 = f / 0x100;
        let low: u16 = f % 0x100;
        Header {
            id,
            response: high / 0x80 % 2 == 1,
            opcode: (high / 8 % 16) as u8,
            authoritative: high / 4 % 2 == 1,
            truncated: high / 2 % 2 == 1,
            recursion_desired: high % 2 == 1,
            recursion_available: low / 0x80 % 2 == 1,
            authentic_data: low / 0x20 % 2 == 1,
            checking_disabled: low / 0x10 % 2 == 1,
            rcode: (low % 16) as u8,
        }
    }
}

proof fn lemma_high(h: Header)
    requires
        h.opcode < 16,
    ensures
        ({
            let high = high_flags(h);
            &&& 0 <= high < 0x100
            &&& (high / 0x80 % 2 == 1) == h.response
            &&& high / 8 % 16 == h.opcode
            &&& (high / 4 % 2 == 1) == h.authoritative
            &&& (high / 2 % 2 == 1) == h.truncated
            &&& (high % 2 == 1) == h.recursion_desired
        }),
{
}

proof fn lemma_low(h: Header)
    requires
        h.rcode < 16,
    ensures
        ({
            let low = low_flags(h);
            &&& 0 <= low < 0x100
            &&& (low / 0x80 % 2 == 1) == h.recursion_available
            &&& (low / 0x20 % 2 == 1) == h.authentic_data
            &&& (low / 0x10 % 2 == 1) == h.checking_disabled
            &&& low % 16 == h.rcode
        }),
{
}

/// A header whose opcode and response code have four bits reads back from its
/// flags.
pub proof fn law_flags_round_trip(h: Header)
    requires
        h.opcode < 16,
        h.rcode < 16,
    ensures
        header_of(h.id, flags(h)) == h,
{
    lemma_high(h);
    lemma_low(h);
    let high = high_flags(h);
    let low = low_flags(h);
    let f = flags(h);
    assert(f == high * 0x100 + low);
    assert(f / 0x100 == high);
    assert(f % 0x100 == low);
}

/// What is read as a header has an opcode and a response code of four bits.
pub proof fn lemma_header_fits(id: u16, f: u16)
    ensures
        header_of(id, f).opcode < 16,
        header_of(id, f).rcode < 16,
{
}

} // verus!

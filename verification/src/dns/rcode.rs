//! Response codes.
use crate::text;
use vstd::prelude::*;

verus! {

pub const NOERROR: u8 = 0;

pub const FORMERR: u8 = 1;

pub const SERVFAIL: u8 = 2;

pub const NXDOMAIN: u8 = 3;

pub const NOTIMP: u8 = 4;

pub const REFUSED: u8 = 5;

pub open spec fn rcode_text(r: u8) -> Seq<char> {
    if r == NOERROR {
        "NOERROR"@
    } else if r == FORMERR {
        "FORMERR"@
    } else if r == SERVFAIL {
        "SERVFAIL"@
    } else if r == NXDOMAIN {
        "NXDOMAIN"@
    } else if r == NOTIMP {
        "NOTIMP"@
    } else if r == REFUSED {
        "REFUSED"@
    } else {
        "RCODE"@ + text::chars(text::dec(r as nat))
    }
}

pub fn name(r: u8) -> (s: String)
    ensures
        s@ == rcode_text(r),
{
    if r == NOERROR {
        "NOERROR".to_owned()
    } else if r == FORMERR {
        "FORMERR".to_owned()
    } else if r == SERVFAIL {
        "SERVFAIL".to_owned()
    } else if r == NXDOMAIN {
        "NXDOMAIN".to_owned()
    } else if r == NOTIMP {
        "NOTIMP".to_owned()
    } else if r == REFUSED {
        "REFUSED".to_owned()
    } else {
        "RCODE".to_owned().concat(text::dec_string(r as u64).as_str())
    }
}

} // verus!

//! What can be wrong with a message or a name, and the limits of the format.
use vstd::prelude::*;

verus! {

/// The ceiling on a UDP payload without EDNS. Every server must accept this.
pub const CLASSIC_UDP_SIZE: u16 = 512;

/// The EDNS buffer size that is advertised: what survives on the public
/// internet without fragmentation (DNS flag day 2020).
pub const EDNS_UDP_SIZE: u16 = 1232;

/// The largest DNS message; the TCP length prefix is 16 bits.
pub const MAX_MESSAGE_SIZE: usize = 65_535;

/// RFC 1035, section 2.3.4.
pub const MAX_NAME_LEN: usize = 255;

pub const MAX_LABEL_LEN: usize = 63;

#[derive(Debug, Clone, Copy, PartialEq, Eq, Structural)]
pub enum Error {
    /// The message ended before the field did.
    Truncated,
    /// A label longer than 63 octets, or a name longer than 255.
    NameTooLong,
    /// A label with the reserved 0x40/0x80 prefixes.
    BadLabel,
    /// A compression pointer forwards or to itself.
    BadPointer,
    /// A record's data length disagrees with its type's fixed size.
    BadRData,
    /// Bytes after the last section.
    TrailingBytes,
    /// A name that cannot be encoded (empty label, too long).
    BadName,
    /// The message would exceed 65535 bytes.
    TooLarge,
}

impl Error {
    pub open spec fn text(self) -> Seq<char> {
        match self {
            Error::Truncated => "truncated message"@,
            Error::NameTooLong => "name or label too long"@,
            Error::BadLabel => "reserved label type"@,
            Error::BadPointer => "bad compression pointer"@,
            Error::BadRData => "malformed record data"@,
            Error::TrailingBytes => "trailing bytes after the last section"@,
            Error::BadName => "name cannot be encoded"@,
            Error::TooLarge => "message too large"@,
        }
    }

    /// What went wrong, for people.
    pub fn as_str(self) -> (r: &'static str)
        ensures
            r@ == self.text(),
    {
        match self {
            Error::Truncated => "truncated message",
            Error::NameTooLong => "name or label too long",
            Error::BadLabel => "reserved label type",
            Error::BadPointer => "bad compression pointer",
            Error::BadRData => "malformed record data",
            Error::TrailingBytes => "trailing bytes after the last section",
            Error::BadName => "name cannot be encoded",
            Error::TooLarge => "message too large",
        }
    }
}

} // verus!

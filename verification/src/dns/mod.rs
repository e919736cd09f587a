//! The DNS wire format (RFC 1035, with EDNS0 from RFC 6891).
//!
//! This is the code that reads bytes a stranger on the network chose, which
//! shapes everything about it:
//!
//! - **Pure.** No sockets, no clocks, no allocation the input does not bound.
//!   A message decodes into owned records; nothing borrows the wire.
//! - **Total.** Every input either decodes or returns [`Error`]; every loop is
//!   bounded by the input length (compression pointers may only go backwards,
//!   so a chain terminates).
//! - **Small.** Only what a stub resolver needs: names, the header, questions,
//!   records with typed data for the handful of types callers act on, and raw
//!   bytes for the rest.
//!
//! Names are kept as they arrived, case preserved, and compared
//! case-insensitively, which is what RFC 4343 requires and what case
//! randomisation relies on.

pub mod class;
pub mod error;
pub mod header;
pub mod laws;
pub mod layout;
pub mod text_laws;
pub mod message;
pub mod name;
pub mod rcode;
pub mod record;
pub mod rtype;

pub use error::Error;
pub use error::{CLASSIC_UDP_SIZE, EDNS_UDP_SIZE, MAX_LABEL_LEN, MAX_MESSAGE_SIZE, MAX_NAME_LEN};
pub use header::Header;
pub use message::{Message, Question};
pub use record::{RData, Record};
pub use name::Name;

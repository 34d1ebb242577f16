//! Wire-format encoder for outbound DNS queries.
//!
//! The crate serializes a DNS message header and a single question record
//! into the exact byte layout the DNS protocol requires: big-endian 16-bit
//! header fields followed by a length-prefixed label encoding of the domain
//! name, terminated by a zero byte, and the fixed record type and class.

pub mod dns;

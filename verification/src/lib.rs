//! A minimal recursive DNS resolver library: wire-format codec for DNS
//! messages (fixed-size buffer with cursor, compression-aware name decoding,
//! bit-packed header, per-record-type payloads) and the delegation-following
//! resolution state machine. All message logic is verified; socket I/O lives
//! outside the library and drives the state machine with decoded packets.

pub mod buffer;
pub mod resultcode;
pub mod querytype;
pub mod dnsheader;
pub mod dnsquestion;
pub mod dnsrecord;
pub mod dnspacket;
pub mod resolver;

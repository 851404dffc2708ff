//! Client-side logic for the Quake III `getstatus` server-query protocol.
//!
//! The crate covers the two protocol halves that have real behaviour to get
//! right: a staged builder that turns an address and a port into a validated
//! endpoint configuration, and a decoder that parses a server's raw reply
//! bytes into a structured status record.  Socket I/O itself lives outside
//! the library; callers hand the received datagram bytes to the decoder.

pub mod channel;
pub mod codec;
pub mod error;
pub mod scan;

//! A DNS resolver core: wire-format codec for DNS messages (including
//! compressed-name decoding), the message data model, the iterative
//! delegation-chasing decision logic, and a query-keyed answer cache.
//!
//! All network I/O lives outside this crate; the library works on plain
//! byte buffers and message values and states what each operation does.

use vstd::prelude::*;

pub mod buffer;
pub mod dns;
pub mod laws;
pub mod resolver;
pub mod server;

verus! {

/// Everything that can go wrong while encoding, decoding or resolving.
#[derive(Clone, Copy, Debug, PartialEq, Eq, Structural)]
pub enum DnsError {
    /// A buffer cursor or range went past the fixed capacity.
    OutOfBounds,
    /// The compression-pointer chain exceeded the jump bound.
    TooManyJumps,
    /// A name label longer than 63 bytes was handed to the encoder.
    LabelTooLong,
    /// A record could not be decoded.
    MalformedRecord,
    /// A whole message could not be decoded.
    MalformedMessage,
    /// A socket operation failed (reported by the transport shim).
    TransportError,
    /// A nameserver probe exceeded its deadline (reported by the shim).
    Timeout,
}

} // verus!

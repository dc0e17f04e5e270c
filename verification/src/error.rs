//! The error taxonomy of the relay core: I/O failure, protocol violation
//! (unsupported version, invalid opcode, malformed body), timeout,
//! and the capacity violation of a body too large to frame.

use vstd::prelude::*;

verus! {

/// Everything that can go wrong in the relay core. Per-connection errors
/// carry enough detail to report; none of them is ever panicked on.
#[derive(Debug)]
pub enum ShadowPeerError {
    /// A socket read, write, connect or bind failed; the text is the
    /// operating system's description.
    Io(String),
    /// A frame carried an opcode this crate does not know, or a message
    /// arrived in a phase where it makes no sense.
    InvalidOperation(String),
    /// A listen socket stopped accepting; carries the transport name and port.
    ListenFail(String, u32),
    /// A frame body that should have been a protocol message was not.
    MalformedJson,
    /// A read deadline passed with no complete message.
    Timeout,
    /// A frame header named a protocol version other than the current one.
    UnsupportedVersion(u8),
}

} // verus!

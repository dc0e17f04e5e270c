//! The data carried by establish messages: socket addresses, the
//! establish token that correlates a visitor connection with the worker
//! connection a client opens for it, and the kinds of public listen
//! binding a server can own.
//!
//! Addresses are held as plain numbers (octets, segments, a port) so that
//! every comparison and every byte of their wire form is in view of the
//! verifier; whatever accepts or dials real sockets converts at the edge.

use vstd::prelude::*;

verus! {

/// A TCP/IP socket address: four octets or eight 16-bit segments, and a port.
/// The octets and segments are separate fields so that equality of two
/// addresses is plain equality of numbers.
#[derive(Clone, Copy, Debug, PartialEq, Eq, Hash, PartialOrd, Ord, Structural)]
pub enum SockAddr {
    V4 { a: u8, b: u8, c: u8, d: u8, port: u16 },
    V6 { s0: u16, s1: u16, s2: u16, s3: u16, s4: u16, s5: u16, s6: u16, s7: u16, port: u16 },
}

impl SockAddr {
    /// The port, whichever address family carries it.
    pub open spec fn spec_port(self) -> u16 {
        match self {
            SockAddr::V4 { port, .. } => port,
            SockAddr::V6 { port, .. } => port,
        }
    }

    pub fn port(&self) -> (p: u16)
        ensures
            p == self.spec_port(),
    {
        match self {
            SockAddr::V4 { port, .. } => *port,
            SockAddr::V6 { port, .. } => *port,
        }
    }
}

/// The correlation key of one tunnel-open attempt: the visitor's remote
/// peer address and the public address the visitor connected to. Both
/// sides must present it bit for bit the same; the client echoes it
/// verbatim and never rebuilds it from its own socket view.
#[derive(Clone, Copy, Debug, PartialEq, Eq, Hash, PartialOrd, Ord, Structural)]
pub struct TcpEstablish {
    pub src: SockAddr,
    pub dest: SockAddr,
}

/// The establish token; TCP is the only transport carried.
#[derive(Clone, Copy, Debug, PartialEq, Eq, Hash, PartialOrd, Ord, Structural)]
pub enum Establish {
    Tcp(TcpEstablish),
}

/// A public listen binding a server exposes on a client's behalf.
#[derive(Clone, Copy, Debug, PartialEq, Eq, Hash, Structural)]
pub enum Listen {
    Tcp(SockAddr),
}

} // verus!

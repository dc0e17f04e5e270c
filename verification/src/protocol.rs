//! The one message type exchanged on any connection in this system. Its
//! reading — control hello, tunnel-open request, worker identification or
//! heartbeat — depends on the phase of the connection that carries it.

use vstd::prelude::*;

use crate::net_proto::Establish;

verus! {

/// Version byte written in every frame header; the only version understood.
pub const CURRENT_VERSION: u8 = 0;

/// The opaque string identity a client presents in its hello.
pub type ClientId = String;

/// A control or rendezvous message.
#[derive(Clone, Debug, PartialEq, Eq)]
pub enum Protocol {
    /// Hello of a control connection: the client's identity.
    ClientId(String),
    /// Pushed to a client to request a tunnel; echoed by the worker
    /// connection that fulfils it.
    Establish(Establish),
    /// Heartbeat; carries the low 16 bits of the sender's Unix time.
    Ping(u16),
}

/// A message as contracts speak of it: the identity as its character
/// sequence, everything else as the plain values it already is.
pub enum ProtocolView {
    ClientId(Seq<char>),
    Establish(Establish),
    Ping(u16),
}

impl View for Protocol {
    type V = ProtocolView;

    open spec fn view(&self) -> ProtocolView {
        match self {
            Protocol::ClientId(s) => ProtocolView::ClientId(s@),
            Protocol::Establish(est) => ProtocolView::Establish(*est),
            Protocol::Ping(ts) => ProtocolView::Ping(*ts),
        }
    }
}

} // verus!

//! Decisions of the server's per-client control multiplexer: what the
//! first message on an inbound connection makes of it, and what the
//! controller loop does at each of its three wait points — the client's
//! outbound queue, the socket, and the heartbeat timer. The waiting
//! itself happens outside the library; every decision is here.

use vstd::prelude::*;

use crate::net_proto::Establish;
use crate::protocol::ClientId;
use crate::protocol::Protocol;
use crate::server::contains_id;
use crate::server::is_valid_client;
use crate::server::Registry;

verus! {

/// Seconds between proactive heartbeats on a control connection.
pub const PING_INTERVAL_SECS: u64 = 5;

/// Seconds an inbound connection has to present its first message, and
/// the deadline of each control-connection read cycle.
pub const HELLO_TIMEOUT_SECS: u64 = 10;

/// What the first framed message on a new client-listener connection
/// makes of that connection.
pub enum ConnInit {
    /// An authorized control hello: the identity is now registered;
    /// enter the controller loop for it.
    Control(ClientId),
    /// A worker connection fulfilling a prior rendezvous: do not
    /// register it, hand it to the claim path.
    Worker(Establish),
}

/// Classify an inbound connection by its first framed message. A hello
/// from an identity the listen bindings do not vouch for is rejected —
/// the registry is left exactly as it was, so a spoofed identity never
/// appears in it — and `None` tells the caller to close the connection
/// silently. A heartbeat as a first message is likewise rejected.
pub fn init(registry: &mut Registry, valid: &Vec<ClientId>, first: Protocol) -> (r: Option<
    ConnInit,
>)
    requires
        old(registry).wf(),
    ensures
        final(registry).wf(),
        match first {
            Protocol::ClientId(id) => if contains_id(valid@, id@) {
                r == Some(ConnInit::Control(id)) && final(registry)@ == old(registry)@.insert(
                    id@,
                    Seq::<Protocol>::empty(),
                )
            } else {
                r is None && final(registry)@ == old(registry)@
            },
            Protocol::Establish(est) => r == Some(ConnInit::Worker(est)) && final(registry)@ == old(
                registry,
            )@,
            Protocol::Ping(_) => r is None && final(registry)@ == old(registry)@,
        },
{
    match first {
        Protocol::ClientId(id) => {
            if is_valid_client(valid, &id) {
                registry.register(id.clone());
                Some(ConnInit::Control(id))
            } else {
                None
            }
        }
        Protocol::Establish(est) => Some(ConnInit::Worker(est)),
        Protocol::Ping(_) => None,
    }
}

/// The per-connection state of a controller loop: when the peer was
/// last heard from, as the low 16 bits of Unix seconds.
pub struct Controller {
    pub last_recv: u16,
}

impl Controller {
    pub fn new(now: u16) -> (c: Controller)
        ensures
            c.last_recv == now,
    {
        Controller { last_recv: now }
    }
}

/// Note inbound traffic on the control connection: whatever arrived
/// resets liveness; a heartbeat is acknowledged by the return value and
/// anything else is otherwise ignored.
pub fn handle_recv(c: &mut Controller, proto: &Protocol, now: u16) -> (r: bool)
    ensures
        final(c).last_recv == now,
        r == (proto is Ping),
{
    c.last_recv = now;
    match proto {
        Protocol::Ping(_) => true,
        _ => false,
    }
}

/// One wakeup of the controller loop.
pub enum CtrlEvent {
    /// The client's outbound queue yielded a message, or was closed.
    Outbound(Option<Protocol>),
    /// A framed message was read from the socket, or the read failed /
    /// the peer closed.
    Inbound(Option<Protocol>),
    /// The periodic heartbeat timer fired.
    Tick,
}

/// What the controller loop does in response.
#[derive(Debug)]
pub enum CtrlAction {
    /// Frame-encode this message and write it to the socket; a failed
    /// write ends the loop.
    Send(Protocol),
    /// Leave the loop; the caller then removes the client's record from
    /// the registry.
    Exit,
    /// Nothing to write; wait again.
    Continue,
}

/// The controller loop's decision at one wakeup, `now` being the low 16
/// bits of Unix seconds at the wakeup. A closed queue or a failed read
/// ends the loop; queued messages are forwarded; inbound traffic resets
/// liveness; the timer prompts a proactive heartbeat so intermediaries
/// keep the path open.
pub fn controller_step(c: &mut Controller, ev: CtrlEvent, now: u16) -> (act: CtrlAction)
    ensures
        match ev {
            CtrlEvent::Outbound(m) => *final(c) == *old(c) && match m {
                Some(p) => act == CtrlAction::Send(p),
                None => act == CtrlAction::Exit,
            },
            CtrlEvent::Inbound(m) => match m {
                Some(_) => final(c).last_recv == now && act == CtrlAction::Continue,
                None => *final(c) == *old(c) && act == CtrlAction::Exit,
            },
            CtrlEvent::Tick => *final(c) == *old(c) && act == CtrlAction::Send(Protocol::Ping(now)),
        },
{
    match ev {
        CtrlEvent::Outbound(m) => match m {
            Some(p) => CtrlAction::Send(p),
            None => CtrlAction::Exit,
        },
        CtrlEvent::Inbound(m) => match m {
            Some(p) => {
                let _ = handle_recv(c, &p, now);
                CtrlAction::Continue
            }
            None => CtrlAction::Exit,
        },
        CtrlEvent::Tick => CtrlAction::Send(Protocol::Ping(now)),
    }
}

} // verus!

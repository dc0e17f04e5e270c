//! The client side: its identity, the server it keeps a control
//! connection to, and the local port map. The dispatcher decides what
//! each message read on the control connection means: heartbeats are
//! echoed, establish requests are resolved through the port map —
//! silently ignored when the port is not offered — and anything else is
//! a protocol violation that ends the control loop.

use vstd::prelude::*;

use std::collections::HashMap;

use crate::error::ShadowPeerError;
use crate::net_proto::Establish;
use crate::net_proto::SockAddr;
use crate::net_proto::TcpEstablish;
use crate::protocol::ClientId;
use crate::protocol::Protocol;

verus! {

broadcast use vstd::std_specs::hash::group_hash_axioms;

/// Seconds the client waits after a failed control-connection run before
/// dialling the server again; it never gives up.
pub const RETRY_DELAY_SECS: u64 = 3;

/// The port map as a mathematical value: public port to local
/// destination, later entries winning.
pub open spec fn port_map_of(s: Seq<(u16, SockAddr)>) -> Map<u16, SockAddr>
    decreases s.len(),
{
    if s.len() == 0 {
        Map::empty()
    } else {
        port_map_of(s.drop_last()).insert(s.last().0, s.last().1)
    }
}

/// One port-map entry as configuration supplies it, all fields still
/// text: the public port and transport it answers for, and the local
/// destination and transport it forwards to. The configuration layer
/// parses these into the numbers `Client::new` takes.
pub struct PortMap {
    pub sproto: String,
    pub port: String,
    pub dproto: String,
    pub addr: String,
}

/// The client's standing configuration.
pub struct Client {
    pub client_id: ClientId,
    pub port_map: HashMap<u16, SockAddr>,
    pub server: SockAddr,
}

/// What the client does with one message read on its control connection.
#[derive(Debug)]
pub enum ClientAction {
    /// Write this message back on the control connection.
    Reply(Protocol),
    /// Spawn a worker: dial `dest` locally, dial the server again, and
    /// present the token verbatim on that second connection.
    Spawn { dest: SockAddr, est: TcpEstablish },
    /// An establish request for a port the map does not offer: ignored.
    Ignore,
}

impl Client {
    /// Keep the server address and identity, and index the port map.
    pub fn new(server: SockAddr, client_id: ClientId, port_map: Vec<(u16, SockAddr)>) -> (c:
        Client)
        ensures
            c.server == server,
            c.client_id == client_id,
            c.port_map@ == port_map_of(port_map@),
    {
        let mut m: HashMap<u16, SockAddr> = HashMap::new();
        let n = port_map.len();
        for i in 0..n
            invariant
                n == port_map@.len(),
                m@ == port_map_of(port_map@.take(i as int)),
        {
            let (port, dest) = port_map[i];
            m.insert(port, dest);
            proof {
                assert(port_map@.take(i + 1).drop_last() =~= port_map@.take(i as int));
                assert(port_map@.take(i + 1).last() == (port, dest));
            }
        }
        proof {
            assert(port_map@.take(n as int) =~= port_map@);
        }
        Client { client_id, port_map: m, server }
    }

    /// The control loop's decision for one inbound message. A heartbeat
    /// is echoed back unchanged; an establish request is resolved by the
    /// destination port of its token — unmapped means not offered, and
    /// no worker is attempted; a hello has no business arriving here and
    /// fails the run.
    pub fn dispatch(&self, proto: Protocol) -> (r: Result<ClientAction, ShadowPeerError>)
        ensures
            match proto {
                Protocol::Ping(ts) => r == Ok::<ClientAction, ShadowPeerError>(
                    ClientAction::Reply(Protocol::Ping(ts)),
                ),
                Protocol::Establish(Establish::Tcp(est)) => if self.port_map@.contains_key(
                    est.dest.spec_port(),
                ) {
                    r == Ok::<ClientAction, ShadowPeerError>(
                        ClientAction::Spawn { dest: self.port_map@[est.dest.spec_port()], est },
                    )
                } else {
                    r == Ok::<ClientAction, ShadowPeerError>(ClientAction::Ignore)
                },
                Protocol::ClientId(_) => r matches Err(ShadowPeerError::InvalidOperation(m))
                    && m@ == "unexpected message on control connection"@,
            },
    {
        match proto {
            Protocol::Ping(ts) => Ok(ClientAction::Reply(Protocol::Ping(ts))),
            Protocol::Establish(Establish::Tcp(est)) => {
                match self.port_map.get(&est.dest.port()) {
                    Some(dest) => Ok(ClientAction::Spawn { dest: *dest, est }),
                    None => Ok(ClientAction::Ignore),
                }
            }
            Protocol::ClientId(_) => Err(
                ShadowPeerError::InvalidOperation(
                    "unexpected message on control connection".to_owned(),
                ),
            ),
        }
    }
}

/// The hello a worker connection presents to the server: the establish
/// token exactly as it was received, never rebuilt from the client's own
/// view of its sockets.
pub fn worker_hello(est: TcpEstablish) -> (p: Protocol)
    ensures
        p == Protocol::Establish(Establish::Tcp(est)),
{
    Protocol::Establish(Establish::Tcp(est))
}

} // verus!

//! Decisions of the visitor path: build the establish token from the
//! visitor's addressing, and register the tunnel-open attempt — the
//! rendezvous entry strictly before the establish request is queued for
//! the client, so a fast-arriving worker always finds the entry.

use vstd::prelude::*;

use crate::net_proto::Establish;
use crate::net_proto::SockAddr;
use crate::net_proto::TcpEstablish;
use crate::protocol::ClientId;
use crate::protocol::Protocol;
use crate::reqmap::ReqMap;
use crate::reqmap::ReqStat;
use crate::server::Registry;

verus! {

/// Seconds a visitor's rendezvous wait may last before the attempt is
/// abandoned and its entry cleared.
pub const RENDEZVOUS_TIMEOUT_SECS: u64 = 10;

/// The token of one tunnel-open attempt: the visitor's remote peer
/// address and the public address it connected to, exactly as the
/// visitor listener observed them.
pub fn establish_token(src: SockAddr, dest: SockAddr) -> (est: Establish)
    ensures
        est == Establish::Tcp(TcpEstablish { src, dest }),
{
    Establish::Tcp(TcpEstablish { src, dest })
}

/// Register a visitor's tunnel-open attempt: if the owning identity is
/// registered, enter the pending slot in the rendezvous table and queue
/// `Establish(est)` on that client's control connection, in that order.
/// If the owner is offline — in particular, once its control connection
/// has dropped and its record is gone — nothing is touched and the
/// attempt is abandoned: the visitor's connection is simply closed, with
/// no rendezvous entry left behind.
pub fn visitor_register(
    registry: &mut Registry,
    req: &mut ReqMap,
    id: &ClientId,
    est: Establish,
    slot: ReqStat,
) -> (ok: bool)
    requires
        old(registry).wf(),
        old(req).wf(),
    ensures
        final(registry).wf(),
        final(req).wf(),
        ok == old(registry)@.contains_key(id@),
        ok ==> final(req)@ == old(req)@.insert(est, slot) && final(registry)@ == old(
            registry,
        )@.insert(id@, old(registry)@[id@].push(Protocol::Establish(est))),
        !ok ==> final(req)@ == old(req)@ && final(registry)@ == old(registry)@,
{
    if !registry.contains(id) {
        return false;
    }
    req.put(est, slot);
    let ok = registry.push_outbound(id, Protocol::Establish(est));
    ok
}

} // verus!

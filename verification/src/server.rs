//! The server's shared state: the registry of connected clients — each
//! with the queue of messages waiting to go out on its control
//! connection — and the server configuration: public listen bindings,
//! client-listener bindings, and the set of client identities those
//! bindings vouch for.

use vstd::prelude::*;

use crate::net_proto::Listen;
use crate::protocol::ClientId;
use crate::protocol::Protocol;

verus! {

/// One registered client: the outbound queue of messages to be written
/// to its control connection, in order.
pub struct Client {
    pub queue: Vec<Protocol>,
}

/// The registry: client identity to client record. Shared by the
/// client-listener (register on hello, remove on control-loop exit) and
/// by every visitor task (lookup, push of an establish request).
pub struct Registry {
    entries: Vec<(ClientId, Client)>,
}

/// The mathematical content of the registry: each registered identity,
/// as its character sequence, mapped to the contents of its outbound
/// queue, later registrations winning.
pub closed spec fn reg_view(s: Seq<(ClientId, Client)>) -> Map<Seq<char>, Seq<Protocol>>
    decreases s.len(),
{
    if s.len() == 0 {
        Map::empty()
    } else {
        reg_view(s.drop_last()).insert(s.last().0@, s.last().1.queue@)
    }
}

/// No identity occurs twice.
pub closed spec fn unique_ids(s: Seq<(ClientId, Client)>) -> bool {
    forall|i: int, j: int|
        0 <= i < j < s.len() ==> (#[trigger] s[i]).0@ != (#[trigger] s[j]).0@
}

proof fn lemma_reg_view_contains(s: Seq<(ClientId, Client)>, k: Seq<char>)
    ensures
        reg_view(s).contains_key(k) <==> exists|i: int| 0 <= i < s.len() && (#[trigger] s[i]).0@ == k,
    decreases s.len(),
{
    if s.len() > 0 {
        lemma_reg_view_contains(s.drop_last(), k);
        if s.last().0@ != k && reg_view(s).contains_key(k) {
            let i = choose|i: int|
                0 <= i < s.drop_last().len() && (#[trigger] s.drop_last()[i]).0@ == k;
            assert(s[i].0@ == k);
        }
        if exists|i: int| 0 <= i < s.len() && (#[trigger] s[i]).0@ == k {
            let i = choose|i: int| 0 <= i < s.len() && (#[trigger] s[i]).0@ == k;
            if i < s.len() - 1 {
                assert(s.drop_last()[i].0@ == k);
            }
        }
    }
}

proof fn lemma_reg_view_get(s: Seq<(ClientId, Client)>, i: int)
    requires
        unique_ids(s),
        0 <= i < s.len(),
    ensures
        reg_view(s).contains_key(s[i].0@),
        reg_view(s)[s[i].0@] == s[i].1.queue@,
    decreases s.len(),
{
    if i < s.len() - 1 {
        assert(s.drop_last()[i] == s[i]);
        lemma_reg_view_get(s.drop_last(), i);
    }
}

proof fn lemma_reg_view_update(s: Seq<(ClientId, Client)>, i: int, e: (ClientId, Client))
    requires
        unique_ids(s),
        0 <= i < s.len(),
        e.0@ == s[i].0@,
    ensures
        reg_view(s.update(i, e)) =~= reg_view(s).insert(e.0@, e.1.queue@),
        unique_ids(s.update(i, e)),
    decreases s.len(),
{
    let t = s.update(i, e);
    if i == s.len() - 1 {
        assert(t.drop_last() =~= s.drop_last());
    } else {
        assert(t.drop_last() =~= s.drop_last().update(i, e));
        lemma_reg_view_update(s.drop_last(), i, e);
        assert(forall|j: int| 0 <= j < s.len() - 1 ==> (#[trigger] s.drop_last()[j]) == s[j]);
        assert(s.last().0@ != s[i].0@);
    }
}

proof fn lemma_reg_view_remove(s: Seq<(ClientId, Client)>, i: int)
    requires
        unique_ids(s),
        0 <= i < s.len(),
    ensures
        reg_view(s.remove(i)) =~= reg_view(s).remove(s[i].0@),
        unique_ids(s.remove(i)),
    decreases s.len(),
{
    let t = s.remove(i);
    assert(forall|j: int| 0 <= j < i ==> (#[trigger] t[j]) == s[j]);
    assert(forall|j: int| i <= j < t.len() ==> (#[trigger] t[j]) == s[j + 1]);
    if i == s.len() - 1 {
        assert(t =~= s.drop_last());
        lemma_reg_view_contains(s.drop_last(), s[i].0@);
    } else {
        assert(t.drop_last() =~= s.drop_last().remove(i));
        lemma_reg_view_remove(s.drop_last(), i);
        assert(s.last().0@ != s[i].0@);
        assert(reg_view(t) =~= reg_view(s.drop_last().remove(i)).insert(
            s.last().0@,
            s.last().1.queue@,
        ));
    }
}

impl View for Registry {
    type V = Map<Seq<char>, Seq<Protocol>>;

    closed spec fn view(&self) -> Map<Seq<char>, Seq<Protocol>> {
        reg_view(self.entries@)
    }
}

impl Registry {
    /// Well-formedness: one record per identity. Constructors establish
    /// it and every method preserves it.
    pub closed spec fn wf(self) -> bool {
        unique_ids(self.entries@)
    }

    /// An empty registry.
    pub fn new() -> (r: Registry)
        ensures
            r.wf(),
            r@ == Map::<Seq<char>, Seq<Protocol>>::empty(),
    {
        Registry { entries: Vec::new() }
    }

    /// The index of the record for `id`, if one is registered.
    fn find(&self, id: &ClientId) -> (r: Option<usize>)
        requires
            self.wf(),
        ensures
            match r {
                Some(i) => i < self.entries@.len() && self.entries@[i as int].0@ == id@,
                None => !self@.contains_key(id@),
            },
    {
        let n = self.entries.len();
        for i in 0..n
            invariant
                n == self.entries@.len(),
                forall|j: int| 0 <= j < i ==> (#[trigger] self.entries@[j]).0@ != id@,
        {
            if self.entries[i].0 == *id {
                return Some(i);
            }
        }
        proof {
            lemma_reg_view_contains(self.entries@, id@);
        }
        None
    }

    /// Whether `id` is registered: the visitor path's lookup.
    pub fn contains(&self, id: &ClientId) -> (r: bool)
        requires
            self.wf(),
        ensures
            r == self@.contains_key(id@),
    {
        match self.find(id) {
            Some(i) => {
                proof {
                    lemma_reg_view_get(self.entries@, i as int);
                }
                true
            }
            None => false,
        }
    }

    /// Register `id` with a fresh, empty outbound queue. A record left by
    /// an earlier registration of the same identity is replaced: the last
    /// registration wins.
    pub fn register(&mut self, id: ClientId)
        requires
            old(self).wf(),
        ensures
            final(self).wf(),
            final(self)@ == old(self)@.insert(id@, Seq::<Protocol>::empty()),
    {
        let record = Client { queue: Vec::new() };
        match self.find(&id) {
            Some(i) => {
                proof {
                    lemma_reg_view_update(self.entries@, i as int, (id, record));
                }
                self.entries[i] = (id, record);
            }
            None => {
                proof {
                    let s = self.entries@.push((id, record));
                    assert(s.drop_last() =~= self.entries@);
                    lemma_reg_view_contains(self.entries@, id@);
                }
                self.entries.push((id, record));
            }
        }
    }

    /// Drop the record for `id`: the control loop has ended, and future
    /// rendezvous attempts against this identity must fail. Attempts
    /// already in flight resolve via their own timeout.
    pub fn remove(&mut self, id: &ClientId)
        requires
            old(self).wf(),
        ensures
            final(self).wf(),
            final(self)@ == old(self)@.remove(id@),
    {
        match self.find(id) {
            Some(i) => {
                proof {
                    lemma_reg_view_remove(self.entries@, i as int);
                }
                let _ = self.entries.remove(i);
            }
            None => {
                proof {
                    assert(self@.remove(id@) =~= self@);
                }
            }
        }
    }

    /// Queue `msg` for delivery on `id`'s control connection. Fails, with
    /// nothing changed, exactly when `id` is not registered: an absent or
    /// disconnected client makes the push fail, never block.
    pub fn push_outbound(&mut self, id: &ClientId, msg: Protocol) -> (ok: bool)
        requires
            old(self).wf(),
        ensures
            final(self).wf(),
            ok == old(self)@.contains_key(id@),
            ok ==> final(self)@ == old(self)@.insert(id@, old(self)@[id@].push(msg)),
            !ok ==> final(self)@ == old(self)@,
    {
        match self.find(id) {
            Some(i) => {
                let ghost s0 = self.entries@;
                proof {
                    lemma_reg_view_get(s0, i as int);
                    lemma_reg_view_remove(s0, i as int);
                }
                // Take the pair out, grow its queue, and reinsert it.
                let (cid, mut record) = self.entries.remove(i);
                record.queue.push(msg);
                proof {
                    let s = self.entries@.push((cid, record));
                    assert(s.drop_last() =~= self.entries@);
                    assert(forall|j: int|
                        0 <= j < s.len() - 1 ==> (#[trigger] s[j]) == s0.remove(i as int)[j]);
                    lemma_reg_view_contains(s0.remove(i as int), cid@);
                    assert(reg_view(s) =~= old(self)@.insert(id@, old(self)@[id@].push(msg)));
                }
                self.entries.push((cid, record));
                true
            }
            None => false,
        }
    }

    /// Dequeue the next message waiting for `id`'s control connection,
    /// if any: the controller loop's send source.
    pub fn pop_outbound(&mut self, id: &ClientId) -> (r: Option<Protocol>)
        requires
            old(self).wf(),
        ensures
            final(self).wf(),
            match r {
                Some(msg) => old(self)@.contains_key(id@) && old(self)@[id@].len() > 0 && msg
                    == old(self)@[id@][0] && final(self)@ == old(self)@.insert(
                    id@,
                    old(self)@[id@].drop_first(),
                ),
                None => final(self)@ == old(self)@ && (old(self)@.contains_key(id@) ==> old(
                    self,
                )@[id@].len() == 0),
            },
    {
        match self.find(id) {
            Some(i) => {
                proof {
                    lemma_reg_view_get(self.entries@, i as int);
                }
                if self.entries[i].1.queue.len() == 0 {
                    return None;
                }
                let ghost s0 = self.entries@;
                proof {
                    lemma_reg_view_remove(s0, i as int);
                }
                let (cid, mut record) = self.entries.remove(i);
                let msg = record.queue.remove(0);
                proof {
                    let s = self.entries@.push((cid, record));
                    assert(s.drop_last() =~= self.entries@);
                    assert(forall|j: int|
                        0 <= j < s.len() - 1 ==> (#[trigger] s[j]) == s0.remove(i as int)[j]);
                    lemma_reg_view_contains(s0.remove(i as int), cid@);
                    assert(record.queue@ =~= old(self)@[id@].drop_first());
                    assert(reg_view(s) =~= old(self)@.insert(id@, old(self)@[id@].drop_first()));
                }
                self.entries.push((cid, record));
                Some(msg)
            }
            None => {
                proof {
                    assert(!self@.contains_key(id@));
                }
                None
            }
        }
    }
}

/// Whether some identity in `ids` reads `id`.
pub open spec fn contains_id(ids: Seq<ClientId>, id: Seq<char>) -> bool {
    exists|i: int| 0 <= i < ids.len() && (#[trigger] ids[i])@ == id
}

/// Whether `id` is one of the identities the listen bindings vouch for.
pub fn is_valid_client(ids: &Vec<ClientId>, id: &ClientId) -> (r: bool)
    ensures
        r == contains_id(ids@, id@),
{
    let n = ids.len();
    for i in 0..n
        invariant
            n == ids@.len(),
            forall|j: int| 0 <= j < i ==> (#[trigger] ids@[j])@ != id@,
    {
        if ids[i] == *id {
            return true;
        }
    }
    false
}

/// The listen bindings as a mathematical value: each public binding
/// mapped to its owner's identity, later pairs winning on a duplicate
/// binding.
pub open spec fn listen_view(s: Seq<(Listen, ClientId)>) -> Map<Listen, Seq<char>>
    decreases s.len(),
{
    if s.len() == 0 {
        Map::empty()
    } else {
        listen_view(s.drop_last()).insert(s.last().0, s.last().1@)
    }
}

/// No public binding occurs twice.
pub open spec fn unique_listens(s: Seq<(Listen, ClientId)>) -> bool {
    forall|i: int, j: int|
        0 <= i < j < s.len() ==> (#[trigger] s[i]).0 != (#[trigger] s[j]).0
}

proof fn lemma_listen_view_contains(s: Seq<(Listen, ClientId)>, k: Listen)
    ensures
        listen_view(s).contains_key(k) <==> exists|i: int|
            0 <= i < s.len() && (#[trigger] s[i]).0 == k,
    decreases s.len(),
{
    if s.len() > 0 {
        lemma_listen_view_contains(s.drop_last(), k);
        if s.last().0 != k && listen_view(s).contains_key(k) {
            let i = choose|i: int|
                0 <= i < s.drop_last().len() && (#[trigger] s.drop_last()[i]).0 == k;
            assert(s[i].0 == k);
        }
        if exists|i: int| 0 <= i < s.len() && (#[trigger] s[i]).0 == k {
            let i = choose|i: int| 0 <= i < s.len() && (#[trigger] s[i]).0 == k;
            if i < s.len() - 1 {
                assert(s.drop_last()[i].0 == k);
            }
        }
    }
}

proof fn lemma_listen_view_update(s: Seq<(Listen, ClientId)>, i: int, e: (Listen, ClientId))
    requires
        unique_listens(s),
        0 <= i < s.len(),
        e.0 == s[i].0,
    ensures
        listen_view(s.update(i, e)) =~= listen_view(s).insert(e.0, e.1@),
        unique_listens(s.update(i, e)),
    decreases s.len(),
{
    let t = s.update(i, e);
    if i == s.len() - 1 {
        assert(t.drop_last() =~= s.drop_last());
    } else {
        assert(t.drop_last() =~= s.drop_last().update(i, e));
        lemma_listen_view_update(s.drop_last(), i, e);
        assert(forall|j: int| 0 <= j < s.len() - 1 ==> (#[trigger] s.drop_last()[j]) == s[j]);
        assert(s.last().0 != s[i].0);
    }
}

/// The index of the binding for `key`, if one is kept.
fn find_listen(entries: &Vec<(Listen, ClientId)>, key: &Listen) -> (r: Option<usize>)
    requires
        unique_listens(entries@),
    ensures
        match r {
            Some(i) => i < entries@.len() && entries@[i as int].0 == *key,
            None => !listen_view(entries@).contains_key(*key),
        },
{
    let n = entries.len();
    for i in 0..n
        invariant
            n == entries@.len(),
            forall|j: int| 0 <= j < i ==> (#[trigger] entries@[j]).0 != *key,
    {
        if entries[i].0 == *key {
            return Some(i);
        }
    }
    proof {
        lemma_listen_view_contains(entries@, *key);
    }
    None
}

/// A client-listener binding: where clients dial in to present their
/// hello or a worker connection.
#[derive(Clone, Copy, Debug, PartialEq, Eq, Hash, Structural)]
pub enum CliListen {
    Tcp(crate::net_proto::SockAddr),
}

/// The server's configuration and shared state.
pub struct Server {
    /// Where clients dial in.
    pub cli_listen: Vec<CliListen>,
    /// Public listen bindings, each owned by a client identity.
    pub listen: Vec<(Listen, ClientId)>,
    /// The registry of connected clients, initially empty.
    pub client: Registry,
    /// The identities the listen bindings vouch for: exactly the owners
    /// in `listen`, used to reject control hellos from unknown peers.
    pub valid_client: Vec<ClientId>,
}

impl Server {
    /// Assemble a server: keep the client-listener bindings, settle the
    /// public listen bindings into one entry per bind address — the last
    /// pair wins on a duplicate — derive the valid-client set from all
    /// the given pairs' owners, and start with no client registered.
    pub fn new(listen: Vec<(Listen, ClientId)>, cli_listen: Vec<CliListen>) -> (r: Server)
        ensures
            r.cli_listen@ == cli_listen@,
            unique_listens(r.listen@),
            listen_view(r.listen@) == listen_view(listen@),
            r.client.wf(),
            r.client@ == Map::<Seq<char>, Seq<Protocol>>::empty(),
            forall|id: Seq<char>|
                contains_id(r.valid_client@, id) <==> exists|i: int|
                    0 <= i < listen@.len() && (#[trigger] listen@[i]).1@ == id,
    {
        let mut valid_client: Vec<ClientId> = Vec::new();
        let n = listen.len();
        for i in 0..n
            invariant
                n == listen@.len(),
                forall|id: Seq<char>|
                    contains_id(valid_client@, id) <==> exists|j: int|
                        0 <= j < i && (#[trigger] listen@[j]).1@ == id,
        {
            let ghost vc0 = valid_client@;
            let id = listen[i].1.clone();
            let present = is_valid_client(&valid_client, &id);
            if !present {
                valid_client.push(id);
            }
            proof {
                assert forall|id_s: Seq<char>| contains_id(valid_client@, id_s) implies (exists|j: int|
                    0 <= j < i + 1 && (#[trigger] listen@[j]).1@ == id_s) by {
                    let k = choose|k: int|
                        0 <= k < valid_client@.len() && (#[trigger] valid_client@[k])@ == id_s;
                    if k < vc0.len() {
                        assert(vc0[k]@ == id_s);
                        assert(contains_id(vc0, id_s));
                    } else {
                        assert(listen@[i as int].1@ == id_s);
                    }
                }
                assert forall|id_s: Seq<char>|
                    (exists|j: int|
                        0 <= j < i + 1 && (#[trigger] listen@[j]).1@ == id_s) implies contains_id(
                    valid_client@,
                    id_s,
                ) by {
                    let j = choose|j: int| 0 <= j < i + 1 && (#[trigger] listen@[j]).1@ == id_s;
                    if j < i {
                        assert(contains_id(vc0, id_s));
                        let k = choose|k: int| 0 <= k < vc0.len() && (#[trigger] vc0[k])@ == id_s;
                        assert(valid_client@[k]@ == id_s);
                    } else {
                        if present {
                            let k = choose|k: int|
                                0 <= k < vc0.len() && (#[trigger] vc0[k])@ == id@;
                            assert(valid_client@[k]@ == id_s);
                        } else {
                            assert(valid_client@.last()@ == id_s);
                        }
                    }
                }
            }
        }
        let mut bindings: Vec<(Listen, ClientId)> = Vec::new();
        for i in 0..n
            invariant
                n == listen@.len(),
                unique_listens(bindings@),
                listen_view(bindings@) == listen_view(listen@.take(i as int)),
        {
            let (key, id) = (listen[i].0, listen[i].1.clone());
            proof {
                assert(listen@.take(i + 1).drop_last() =~= listen@.take(i as int));
                assert(listen@.take(i + 1).last() == listen@[i as int]);
            }
            match find_listen(&bindings, &key) {
                Some(k) => {
                    proof {
                        lemma_listen_view_update(bindings@, k as int, (key, id));
                    }
                    bindings[k] = (key, id);
                }
                None => {
                    proof {
                        let b = bindings@.push((key, id));
                        assert(b.drop_last() =~= bindings@);
                        lemma_listen_view_contains(bindings@, key);
                    }
                    bindings.push((key, id));
                }
            }
        }
        proof {
            assert(listen@.take(n as int) =~= listen@);
        }
        Server { cli_listen, listen: bindings, client: Registry::new(), valid_client }
    }
}

} // verus!

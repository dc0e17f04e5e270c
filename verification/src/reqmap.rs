//! The rendezvous table: one logical actor owns the mapping from an
//! establish token to the pending fulfilment slot of a tunnel-open
//! attempt, and processes `Put` / `Take` / `Unset` strictly in arrival
//! order, which makes the three operations atomic with respect to each
//! other. A slot is consumed exactly once: either a worker connection
//! claims it with `Take`, or the visitor side abandons the wait and
//! clears it with `Unset`.

use vstd::prelude::*;

use crate::net_proto::Establish;

verus! {

/// The pending fulfilment slot of one tunnel-open attempt. The number is
/// the handle of the single-use delivery channel on which the worker
/// socket travels; the channel itself lives with whatever owns the
/// sockets.
#[derive(Clone, Copy, Debug, PartialEq, Eq, Structural)]
pub enum ReqStat {
    Syn(u64),
}

/// One operation on the rendezvous table.
#[derive(Clone, Copy, Debug, PartialEq, Eq, Structural)]
pub enum ReqMapMessage {
    /// Insert a pending entry, overwriting any stale one for the token.
    Put(ReqStat),
    /// Atomically remove and hand out the entry, if present.
    Take,
    /// Remove without handing out; visitor-side cleanup after timeout or
    /// cancellation, so a late worker cannot resurrect a dead wait.
    Unset,
}

/// The table itself: establish token to pending slot, keys unique.
pub struct ReqMap {
    entries: Vec<(Establish, ReqStat)>,
}

/// The mathematical content of a list of entries: the map that sends each
/// key to the value of its entry, later entries winning.
pub closed spec fn assoc_view(s: Seq<(Establish, ReqStat)>) -> Map<Establish, ReqStat>
    decreases s.len(),
{
    if s.len() == 0 {
        Map::empty()
    } else {
        assoc_view(s.drop_last()).insert(s.last().0, s.last().1)
    }
}

/// No key occurs twice.
pub closed spec fn unique_keys(s: Seq<(Establish, ReqStat)>) -> bool {
    forall|i: int, j: int|
        0 <= i < j < s.len() ==> (#[trigger] s[i]).0 != (#[trigger] s[j]).0
}

proof fn lemma_assoc_view_contains(s: Seq<(Establish, ReqStat)>, k: Establish)
    ensures
        assoc_view(s).contains_key(k) <==> exists|i: int| 0 <= i < s.len() && (#[trigger] s[i]).0 == k,
    decreases s.len(),
{
    if s.len() > 0 {
        lemma_assoc_view_contains(s.drop_last(), k);
        if s.last().0 != k && assoc_view(s).contains_key(k) {
            let i = choose|i: int| 0 <= i < s.drop_last().len() && (#[trigger] s.drop_last()[i]).0 == k;
            assert(s[i].0 == k);
        }
        if exists|i: int| 0 <= i < s.len() && (#[trigger] s[i]).0 == k {
            let i = choose|i: int| 0 <= i < s.len() && (#[trigger] s[i]).0 == k;
            if i < s.len() - 1 {
                assert(s.drop_last()[i].0 == k);
            }
        }
    }
}

proof fn lemma_assoc_view_get(s: Seq<(Establish, ReqStat)>, i: int)
    requires
        unique_keys(s),
        0 <= i < s.len(),
    ensures
        assoc_view(s).contains_key(s[i].0),
        assoc_view(s)[s[i].0] == s[i].1,
    decreases s.len(),
{
    if i < s.len() - 1 {
        assert(s.drop_last()[i] == s[i]);
        lemma_assoc_view_get(s.drop_last(), i);
    }
}

proof fn lemma_assoc_view_update(s: Seq<(Establish, ReqStat)>, i: int, v: ReqStat)
    requires
        unique_keys(s),
        0 <= i < s.len(),
    ensures
        assoc_view(s.update(i, (s[i].0, v))) =~= assoc_view(s).insert(s[i].0, v),
        unique_keys(s.update(i, (s[i].0, v))),
    decreases s.len(),
{
    let t = s.update(i, (s[i].0, v));
    if i == s.len() - 1 {
        assert(t.drop_last() =~= s.drop_last());
    } else {
        assert(t.drop_last() =~= s.drop_last().update(i, (s[i].0, v)));
        lemma_assoc_view_update(s.drop_last(), i, v);
        lemma_assoc_view_contains(s.drop_last(), s[i].0);
        assert(forall|j: int| 0 <= j < s.len() - 1 ==> (#[trigger] s.drop_last()[j]) == s[j]);
        assert(s.last().0 != s[i].0);
    }
}

proof fn lemma_assoc_view_remove(s: Seq<(Establish, ReqStat)>, i: int)
    requires
        unique_keys(s),
        0 <= i < s.len(),
    ensures
        assoc_view(s.remove(i)) =~= assoc_view(s).remove(s[i].0),
        unique_keys(s.remove(i)),
    decreases s.len(),
{
    let t = s.remove(i);
    assert(forall|j: int| 0 <= j < i ==> (#[trigger] t[j]) == s[j]);
    assert(forall|j: int| i <= j < t.len() ==> (#[trigger] t[j]) == s[j + 1]);
    if i == s.len() - 1 {
        assert(t =~= s.drop_last());
        lemma_assoc_view_contains(s.drop_last(), s[i].0);
    } else {
        assert(t.drop_last() =~= s.drop_last().remove(i));
        lemma_assoc_view_remove(s.drop_last(), i);
        assert(s.last().0 != s[i].0);
        assert(assoc_view(t) =~= assoc_view(s.drop_last().remove(i)).insert(s.last().0, s.last().1));
    }
}

proof fn lemma_assoc_view_absent_remove(s: Seq<(Establish, ReqStat)>, k: Establish)
    requires
        !assoc_view(s).contains_key(k),
    ensures
        assoc_view(s).remove(k) =~= assoc_view(s),
{
}

impl View for ReqMap {
    type V = Map<Establish, ReqStat>;

    closed spec fn view(&self) -> Map<Establish, ReqStat> {
        assoc_view(self.entries@)
    }
}

impl ReqMap {
    /// Well-formedness: no token has two pending entries. Constructors
    /// establish it and every method preserves it.
    pub closed spec fn wf(self) -> bool {
        unique_keys(self.entries@)
    }

    /// An empty table.
    pub fn new() -> (r: ReqMap)
        ensures
            r.wf(),
            r@ == Map::<Establish, ReqStat>::empty(),
    {
        ReqMap { entries: Vec::new() }
    }

    /// The index of the entry for `est`, if one is pending.
    fn find(&self, est: &Establish) -> (r: Option<usize>)
        requires
            self.wf(),
        ensures
            match r {
                Some(i) => i < self.entries@.len() && self.entries@[i as int].0 == *est,
                None => !self@.contains_key(*est),
            },
    {
        let n = self.entries.len();
        for i in 0..n
            invariant
                n == self.entries@.len(),
                forall|j: int| 0 <= j < i ==> (#[trigger] self.entries@[j]).0 != *est,
        {
            if self.entries[i].0 == *est {
                return Some(i);
            }
        }
        proof {
            lemma_assoc_view_contains(self.entries@, *est);
        }
        None
    }

    /// Insert a pending entry; a stale entry for the same token is
    /// overwritten, since each attempt's token embeds the visitor's
    /// ephemeral port and is expected unique.
    pub fn put(&mut self, est: Establish, stat: ReqStat)
        requires
            old(self).wf(),
        ensures
            final(self).wf(),
            final(self)@ == old(self)@.insert(est, stat),
    {
        match self.find(&est) {
            Some(i) => {
                proof {
                    lemma_assoc_view_update(self.entries@, i as int, stat);
                }
                self.entries[i] = (est, stat);
            }
            None => {
                proof {
                    let s = self.entries@.push((est, stat));
                    assert(s.drop_last() =~= self.entries@);
                    lemma_assoc_view_contains(self.entries@, est);
                }
                self.entries.push((est, stat));
            }
        }
    }

    /// Atomically remove and return the pending entry, if present: the
    /// claim a worker connection makes. A second claim of the same token
    /// finds nothing.
    pub fn take(&mut self, est: &Establish) -> (r: Option<ReqStat>)
        requires
            old(self).wf(),
        ensures
            final(self).wf(),
            r == if old(self)@.contains_key(*est) {
                Some(old(self)@[*est])
            } else {
                None::<ReqStat>
            },
            final(self)@ == old(self)@.remove(*est),
    {
        match self.find(est) {
            Some(i) => {
                proof {
                    lemma_assoc_view_get(self.entries@, i as int);
                    lemma_assoc_view_remove(self.entries@, i as int);
                }
                let (_, stat) = self.entries.remove(i);
                Some(stat)
            }
            None => {
                proof {
                    lemma_assoc_view_absent_remove(self.entries@, *est);
                }
                None
            }
        }
    }

    /// Remove without returning: visitor-side cleanup, so the table never
    /// retains state for an abandoned wait.
    pub fn unset(&mut self, est: &Establish)
        requires
            old(self).wf(),
        ensures
            final(self).wf(),
            final(self)@ == old(self)@.remove(*est),
    {
        let _ = self.take(est);
    }
}

/// What one message does to the table, and what it answers: the new map,
/// and `Some(reply)` exactly when the message was a `Take`.
pub open spec fn spec_step(
    m: Map<Establish, ReqStat>,
    est: Establish,
    msg: ReqMapMessage,
) -> (Map<Establish, ReqStat>, Option<Option<ReqStat>>) {
    match msg {
        ReqMapMessage::Put(stat) => (m.insert(est, stat), None),
        ReqMapMessage::Take => (
            m.remove(est),
            Some(if m.contains_key(est) { Some(m[est]) } else { None }),
        ),
        ReqMapMessage::Unset => (m.remove(est), None),
    }
}

/// The actor's whole run over an inbox, strictly in arrival order:
/// the final table and the replies to the `Take`s, in order.
pub open spec fn spec_run(
    m: Map<Establish, ReqStat>,
    events: Seq<(Establish, ReqMapMessage)>,
) -> (Map<Establish, ReqStat>, Seq<Option<ReqStat>>)
    decreases events.len(),
{
    if events.len() == 0 {
        (m, Seq::empty())
    } else {
        let (m1, rep) = spec_step(m, events[0].0, events[0].1);
        let (m2, reps) = spec_run(m1, events.drop_first());
        match rep {
            Some(r) => (m2, seq![r] + reps),
            None => (m2, reps),
        }
    }
}

/// Apply one inbox message to the table; the caller delivers the returned
/// reply, if any, to whoever sent the `Take`.
pub fn actor_step(map: &mut ReqMap, est: Establish, msg: ReqMapMessage) -> (reply: Option<
    Option<ReqStat>,
>)
    requires
        old(map).wf(),
    ensures
        final(map).wf(),
        (final(map)@, reply) == spec_step(old(map)@, est, msg),
{
    match msg {
        ReqMapMessage::Put(stat) => {
            map.put(est, stat);
            None
        }
        ReqMapMessage::Take => Some(map.take(&est)),
        ReqMapMessage::Unset => {
            map.unset(&est);
            None
        }
    }
}

/// Process a whole inbox in arrival order, starting from an empty table:
/// returns the final table and the replies to the `Take`s, in order.
pub fn actor(events: Vec<(Establish, ReqMapMessage)>) -> (r: (ReqMap, Vec<Option<ReqStat>>))
    ensures
        (r.0@, r.1@) == spec_run(Map::<Establish, ReqStat>::empty(), events@),
{
    let mut map = ReqMap::new();
    let mut replies: Vec<Option<ReqStat>> = Vec::new();
    let n = events.len();
    proof {
        assert(events@.skip(0) =~= events@);
        let rem = spec_run(map@, events@);
        assert(replies@ + rem.1 =~= rem.1);
    }
    for i in 0..n
        invariant
            n == events@.len(),
            map.wf(),
            spec_run(Map::<Establish, ReqStat>::empty(), events@) == {
                let (mf, rf) = spec_run(map@, events@.skip(i as int));
                (mf, replies@ + rf)
            },
    {
        let (est, msg) = events[i];
        proof {
            assert(events@.skip(i as int)[0] == (est, msg));
            assert(events@.skip(i as int).drop_first() =~= events@.skip(i as int + 1));
        }
        let reply = actor_step(&mut map, est, msg);
        proof {
            let rem = spec_run(map@, events@.skip(i as int + 1));
            match reply {
                Some(rv) => {
                    assert(replies@.push(rv) + rem.1 =~= replies@ + (seq![rv] + rem.1));
                }
                None => {}
            }
        }
        if let Some(rv) = reply {
            replies.push(rv);
        }
    }
    proof {
        assert(events@.skip(n as int) =~= Seq::<(Establish, ReqMapMessage)>::empty());
        assert(replies@ + Seq::<Option<ReqStat>>::empty() =~= replies@);
    }
    (map, replies)
}

/// Exactly-once delivery: one `Set` of a token followed by two `Take`s of
/// it, in whichever order the actor's inbox serialized them, answers the
/// first `Take` with the slot and the second with nothing, and leaves the
/// token absent.
pub proof fn lemma_rendezvous_exactly_once(
    m0: Map<Establish, ReqStat>,
    est: Establish,
    stat: ReqStat,
)
    ensures
        ({
            let events = seq![
                (est, ReqMapMessage::Put(stat)),
                (est, ReqMapMessage::Take),
                (est, ReqMapMessage::Take),
            ];
            let (m, replies) = spec_run(m0, events);
            replies =~= seq![Some(stat), None] && !m.contains_key(est)
        }),
{
    reveal_with_fuel(spec_run, 4);
    let events = seq![
        (est, ReqMapMessage::Put(stat)),
        (est, ReqMapMessage::Take),
        (est, ReqMapMessage::Take),
    ];
    let tail1 = events.drop_first();
    let tail2 = tail1.drop_first();
    assert(tail2.drop_first() =~= Seq::empty());
    assert(tail2[0] == (est, ReqMapMessage::Take));
    assert(tail1[0] == (est, ReqMapMessage::Take));
}

/// Cleanup on timeout: a `Set` whose wait is abandoned is followed by an
/// `Unset`; a `Take` arriving after that finds nothing, and the token is
/// absent from the table.
pub proof fn lemma_cleanup_on_timeout(m0: Map<Establish, ReqStat>, est: Establish, stat: ReqStat)
    ensures
        ({
            let events = seq![
                (est, ReqMapMessage::Put(stat)),
                (est, ReqMapMessage::Unset),
                (est, ReqMapMessage::Take),
            ];
            let (m, replies) = spec_run(m0, events);
            replies =~= seq![None] && !m.contains_key(est)
        }),
{
    reveal_with_fuel(spec_run, 4);
    let events = seq![
        (est, ReqMapMessage::Put(stat)),
        (est, ReqMapMessage::Unset),
        (est, ReqMapMessage::Take),
    ];
    let tail1 = events.drop_first();
    let tail2 = tail1.drop_first();
    assert(tail2.drop_first() =~= Seq::empty());
    assert(tail2[0] == (est, ReqMapMessage::Take));
    assert(tail1[0] == (est, ReqMapMessage::Unset));
}

} // verus!

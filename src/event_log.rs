//! The event log: accepts events from any source and hands them on in causal
//! order, holding back those whose dependencies have not arrived.
use vstd::prelude::*;
use crate::ids::{EpochId, EventId, ObjectId, ServerId, id_lt};
use crate::clock::{EventClock, clock_contains, clock_le, clock_updated};
use crate::event::{Event, EventDetails};

verus! {

/// The clock `start` after recording, in order, the ids of `evs`.
pub open spec fn seen_after(start: Map<ServerId, EventId>, evs: Seq<Event>) -> Map<ServerId, EventId>
    decreases evs.len(),
{
    if evs.len() == 0 {
        start
    } else {
        clock_updated(seen_after(start, evs.drop_last()), evs.last().id)
    }
}

/// `e` is new after `prefix` was delivered from `start`, and its
/// dependencies are among what was delivered.
#[verifier::opaque]
pub open spec fn deliverable_after(start: Map<ServerId, EventId>, prefix: Seq<Event>, e: Event) -> bool {
    &&& clock_le(e.clock@, seen_after(start, prefix))
    &&& !clock_contains(seen_after(start, prefix), e.id)
}

/// Each event of `evs` is new and its dependencies were all delivered, from
/// `start`, before it.
pub open spec fn causally_ordered(start: Map<ServerId, EventId>, evs: Seq<Event>) -> bool {
    forall|i: int| 0 <= i < evs.len() ==> deliverable_after(start, evs.take(i), #[trigger] evs[i])
}

/// `x` is among `out` from index `from` on.
pub open spec fn delivered_since(out: Seq<Event>, from: int, x: Event) -> bool {
    exists|i: int| from <= i < out.len() && out[i] == x
}

/// From index `from` on, an event ready when the one before it was
/// delivered has no smaller id than that one: among ready events the
/// smallest id goes first.
pub open spec fn smallest_first(start: Map<ServerId, EventId>, out: Seq<Event>, from: int) -> bool {
    forall|i: int|
        from < i < out.len() && ready(seen_after(start, out.take(i - 1)), #[trigger] out[i]) ==> !id_lt(
            out[i].id,
            out[i - 1].id,
        )
}

/// The event can be delivered once `seen` covers its clock.
pub open spec fn ready(seen: Map<ServerId, EventId>, e: Event) -> bool {
    clock_le(e.clock@, seen)
}

/// The pending list after pending `e` under the bound `limit`: the oldest
/// entry leaves when the list would grow past it.
pub open spec fn pended(pending: Seq<Event>, e: Event, limit: nat) -> Seq<Event> {
    if pending.len() + 1 > limit {
        pending.push(e).drop_first()
    } else {
        pending.push(e)
    }
}

proof fn lemma_seen_after_push(start: Map<ServerId, EventId>, s: Seq<Event>, e: Event)
    ensures
        seen_after(start, s.push(e)) == clock_updated(seen_after(start, s), e.id),
{
    assert(s.push(e).drop_last() =~= s);
}

proof fn lemma_causal_push(start: Map<ServerId, EventId>, s: Seq<Event>, e: Event)
    requires
        causally_ordered(start, s),
        clock_le(e.clock@, seen_after(start, s)),
        !clock_contains(seen_after(start, s), e.id),
    ensures
        causally_ordered(start, s.push(e)),
{
    reveal(deliverable_after);
    let t = s.push(e);
    assert forall|i: int| 0 <= i < t.len() implies deliverable_after(start, t.take(i), #[trigger] t[i]) by {
        if i < s.len() {
            assert(t.take(i) =~= s.take(i));
            assert(t[i] == s[i]);
            assert(deliverable_after(start, s.take(i), s[i]));
        } else {
            assert(t.take(i) =~= s);
            assert(t[i] == e);
        }
    }
}

/// Whatever `start` holds, and every id of `evs`, is held after `evs`.
pub proof fn lemma_seen_after_contains(start: Map<ServerId, EventId>, evs: Seq<Event>, x: EventId)
    ensures
        clock_contains(start, x) ==> clock_contains(seen_after(start, evs), x),
        forall|i: int| 0 <= i < evs.len() ==> clock_contains(seen_after(start, evs), #[trigger] evs[i].id),
    decreases evs.len(),
{
    if evs.len() > 0 {
        let t = evs.drop_last();
        lemma_seen_after_contains(start, t, x);
        let m = seen_after(start, t);
        assert forall|i: int| 0 <= i < evs.len() implies clock_contains(
            seen_after(start, evs),
            #[trigger] evs[i].id,
        ) by {
            if i < evs.len() - 1 {
                assert(evs[i] == t[i]);
                lemma_seen_after_contains(start, t, evs[i].id);
            }
        }
    }
}

/// The causal-delivery log of one server.
#[derive(Debug)]
pub struct EventLog {
    /// The server that this log originates events for.
    pub server: ServerId,
    /// Epoch of locally originated events.
    pub epoch: EpochId,
    /// Sequence number of the next local event.
    pub next_seq: u64,
    /// Every delivered event.
    pub seen: EventClock,
    /// Events waiting for their dependencies, oldest first.
    pub pending: Vec<Event>,
    /// Most events that `pending` may hold.
    pub pending_limit: usize,
    /// How often the oldest pending event was dropped for lack of room.
    pub overflow_count: u64,
}

impl EventLog {
    pub open spec fn wf(&self) -> bool {
        &&& self.seen.wf()
        &&& self.pending_limit >= 1
        &&& self.pending@.len() <= self.pending_limit
        &&& forall|i: int| 0 <= i < self.pending@.len() ==> (#[trigger] self.pending@[i]).wf()
        &&& forall|i: int|
            0 <= i < self.pending@.len() ==> !ready(self.seen@, #[trigger] self.pending@[i])
                && !clock_contains(self.seen@, self.pending@[i].id)
    }

    /// An event of this server from an epoch before the current one.
    pub open spec fn is_stale(&self, id: EventId) -> bool {
        id.server == self.server && id.epoch < self.epoch
    }

    /// Would `add` drop this event without effect?
    pub open spec fn is_duplicate(&self, e: Event) -> bool {
        ||| clock_contains(self.seen@, e.id)
        ||| self.is_stale(e.id)
        ||| exists|i: int| 0 <= i < self.pending@.len() && (#[trigger] self.pending@[i]).id == e.id
    }

    /// An empty log for `server` at `epoch`, pending at most `pending_limit` events.
    pub fn new(server: ServerId, epoch: EpochId, pending_limit: usize) -> (r: EventLog)
        requires
            pending_limit >= 1,
        ensures
            r.wf(),
            r.server == server,
            r.epoch == epoch,
            r.next_seq == 1,
            r.seen@ == Map::<ServerId, EventId>::empty(),
            r.pending@.len() == 0,
            r.pending_limit == pending_limit,
            r.overflow_count == 0,
    {
        EventLog {
            server,
            epoch,
            next_seq: 1,
            seen: EventClock::new(),
            pending: Vec::new(),
            pending_limit,
            overflow_count: 0,
        }
    }

    fn pending_has(&self, id: &EventId) -> (r: bool)
        ensures
            r == exists|i: int| 0 <= i < self.pending@.len() && (#[trigger] self.pending@[i]).id == *id,
    {
        let mut i: usize = 0;
        while i < self.pending.len()
            invariant
                i <= self.pending@.len(),
                forall|j: int| 0 <= j < i ==> (#[trigger] self.pending@[j]).id != *id,
            decreases self.pending@.len() - i,
        {
            if self.pending[i].id == *id {
                return true;
            }
            i = i + 1;
        }
        false
    }

    /// Would `add` take this event in, rather than drop it as a duplicate or
    /// a stale event of this server?
    pub fn accepts(&self, e: &Event) -> (r: bool)
        requires
            self.wf(),
        ensures
            r == !self.is_duplicate(*e),
    {
        !(self.seen.contains(&e.id) || (e.id.server == self.server && e.id.epoch < self.epoch) || self.pending_has(&e.id))
    }

    /// Drops the pending events that `seen` already holds.
    fn purge_seen(&mut self)
        requires
            old(self).seen.wf(),
            forall|i: int| 0 <= i < old(self).pending@.len() ==> (#[trigger] old(self).pending@[i]).wf(),
        ensures
            final(self).seen == old(self).seen,
            final(self).server == old(self).server,
            final(self).epoch == old(self).epoch,
            final(self).next_seq == old(self).next_seq,
            final(self).pending_limit == old(self).pending_limit,
            final(self).overflow_count == old(self).overflow_count,
            final(self).pending@.len() <= old(self).pending@.len(),
            forall|i: int|
                0 <= i < final(self).pending@.len() ==> (#[trigger] final(self).pending@[i]).wf()
                    && !clock_contains(final(self).seen@, final(self).pending@[i].id)
                    && old(self).pending@.contains(final(self).pending@[i]),
            forall|i: int|
                0 <= i < old(self).pending@.len() && !clock_contains(old(self).seen@, (#[trigger] old(self).pending@[i]).id)
                    ==> final(self).pending@.contains(old(self).pending@[i]),
    {
        let mut old_pending: Vec<Event> = Vec::new();
        std::mem::swap(&mut old_pending, &mut self.pending);
        let ghost orig = old_pending@;
        let mut kept: Vec<Event> = Vec::new();
        while old_pending.len() > 0
            invariant
                self.seen.wf(),
                self.seen == old(self).seen,
                self.server == old(self).server,
                self.epoch == old(self).epoch,
                self.next_seq == old(self).next_seq,
                self.pending_limit == old(self).pending_limit,
                self.overflow_count == old(self).overflow_count,
                orig == old(self).pending@,
                kept@.len() + old_pending@.len() <= orig.len(),
                forall|i: int| 0 <= i < old_pending@.len() ==> orig.contains(#[trigger] old_pending@[i]),
                forall|i: int|
                    0 <= i < kept@.len() ==> (#[trigger] kept@[i]).wf() && !clock_contains(
                        self.seen@,
                        kept@[i].id,
                    ) && orig.contains(kept@[i]),
                forall|i: int| 0 <= i < orig.len() ==> (#[trigger] orig[i]).wf(),
                old_pending@ == orig.skip(orig.len() - old_pending@.len()),
                forall|i: int|
                    0 <= i < orig.len() - old_pending@.len() && !clock_contains(self.seen@, (#[trigger] orig[i]).id)
                        ==> kept@.contains(orig[i]),
            decreases old_pending@.len(),
        {
            let ghost before = old_pending@;
            let ghost kb = kept@;
            let ghost done = orig.len() - before.len();
            let e = old_pending.remove(0);
            assert(before[0] == e);
            assert(e == orig[done]);
            assert(forall|i: int| 0 <= i < old_pending@.len() ==> old_pending@[i] == before[i + 1]);
            assert(old_pending@ =~= orig.skip(orig.len() - old_pending@.len()));
            if !self.seen.contains(&e.id) {
                let ghost j = choose|j: int| 0 <= j < orig.len() && orig[j] == e;
                assert(orig[j].wf());
                kept.push(e);
                assert forall|i: int|
                    0 <= i < done + 1 && !clock_contains(self.seen@, (#[trigger] orig[i]).id) implies kept@.contains(
                    orig[i]) by {
                    if i < done {
                        let a = choose|a: int| 0 <= a < kb.len() && kb[a] == orig[i];
                        assert(kept@[a] == orig[i]);
                    } else {
                        assert(kept@[kept@.len() - 1] == orig[i]);
                    }
                }
            }
        }
        assert(orig.skip(orig.len() as int) =~= Seq::<Event>::empty());
        self.pending = kept;
    }

    /// Index of the pending event with the smallest id among those ready.
    fn first_ready(&self) -> (r: Option<usize>)
        requires
            self.seen.wf(),
            forall|i: int| 0 <= i < self.pending@.len() ==> (#[trigger] self.pending@[i]).wf(),
        ensures
            match r {
                Some(j) => j < self.pending@.len() && ready(self.seen@, self.pending@[j as int])
                    && forall|k: int|
                    0 <= k < self.pending@.len() && ready(self.seen@, #[trigger] self.pending@[k])
                        ==> !id_lt(self.pending@[k].id, self.pending@[j as int].id),
                None => forall|k: int|
                    0 <= k < self.pending@.len() ==> !ready(self.seen@, #[trigger] self.pending@[k]),
            },
    {
        let mut best: Option<usize> = None;
        let mut i: usize = 0;
        while i < self.pending.len()
            invariant
                self.seen.wf(),
                forall|k: int| 0 <= k < self.pending@.len() ==> (#[trigger] self.pending@[k]).wf(),
                i <= self.pending@.len(),
                match best {
                    Some(j) => j < i && ready(self.seen@, self.pending@[j as int]) && forall|k: int|
                        0 <= k < i && ready(self.seen@, #[trigger] self.pending@[k]) ==> !id_lt(
                            self.pending@[k].id,
                            self.pending@[j as int].id,
                        ),
                    None => forall|k: int| 0 <= k < i ==> !ready(self.seen@, #[trigger] self.pending@[k]),
                },
            decreases self.pending@.len() - i,
        {
            if self.pending[i].clock.le(&self.seen) {
                match best {
                    None => {
                        best = Some(i);
                    },
                    Some(j) => {
                        if self.pending[i].id.precedes(&self.pending[j].id) {
                            best = Some(i);
                        }
                    },
                }
            }
            i = i + 1;
        }
        best
    }

    /// Delivers every pending event that has become ready, smallest id first
    /// among those ready at each step, and drops those already seen.
    fn promote(&mut self, out: &mut Vec<Event>, Ghost(start): Ghost<Map<ServerId, EventId>>)
        requires
            old(self).seen.wf(),
            old(self).pending_limit >= 1,
            old(self).pending@.len() <= old(self).pending_limit,
            forall|i: int| 0 <= i < old(self).pending@.len() ==> (#[trigger] old(self).pending@[i]).wf(),
            old(self).seen@ == seen_after(start, old(out)@),
            causally_ordered(start, old(out)@),
        ensures
            final(self).wf(),
            final(self).server == old(self).server,
            final(self).epoch == old(self).epoch,
            final(self).next_seq == old(self).next_seq,
            final(self).pending_limit == old(self).pending_limit,
            final(self).overflow_count == old(self).overflow_count,
            final(self).seen@ == seen_after(start, final(out)@),
            causally_ordered(start, final(out)@),
            final(out)@.take(old(out)@.len() as int) == old(out)@,
            final(out)@.len() >= old(out)@.len(),
            forall|i: int|
                old(out)@.len() <= i < final(out)@.len() ==> old(self).pending@.contains(
                    #[trigger] final(out)@[i],
                ),
            forall|i: int|
                0 <= i < final(self).pending@.len() ==> old(self).pending@.contains(
                    #[trigger] final(self).pending@[i],
                ),
            forall|k: int|
                0 <= k < old(self).pending@.len() ==> final(self).pending@.contains(#[trigger] old(self).pending@[k])
                    || delivered_since(final(out)@, old(out)@.len() as int, old(self).pending@[k]) || clock_contains(
                    final(self).seen@,
                    old(self).pending@[k].id,
                ),
            smallest_first(start, final(out)@, old(out)@.len() as int),
    {
        let ghost orig = self.pending@;
        let ghost out0 = out@;
        loop
            invariant
                self.seen.wf(),
                self.server == old(self).server,
                self.epoch == old(self).epoch,
                self.next_seq == old(self).next_seq,
                self.pending_limit == old(self).pending_limit,
                self.overflow_count == old(self).overflow_count,
                self.pending_limit >= 1,
                self.pending@.len() <= self.pending_limit,
                orig == old(self).pending@,
                out0 == old(out)@,
                forall|i: int| 0 <= i < self.pending@.len() ==> (#[trigger] self.pending@[i]).wf(),
                forall|i: int| 0 <= i < self.pending@.len() ==> orig.contains(#[trigger] self.pending@[i]),
                self.seen@ == seen_after(start, out@),
                causally_ordered(start, out@),
                out@.take(out0.len() as int) == out0,
                out@.len() >= out0.len(),
                forall|i: int| out0.len() <= i < out@.len() ==> orig.contains(#[trigger] out@[i]),
                forall|k: int|
                    0 <= k < orig.len() ==> self.pending@.contains(#[trigger] orig[k]) || delivered_since(
                        out@,
                        out0.len() as int,
                        orig[k],
                    ) || clock_contains(self.seen@, orig[k].id),
                smallest_first(start, out@, out0.len() as int),
                out@.len() > out0.len() ==> forall|p: Event|
                    #[trigger] self.pending@.contains(p) && ready(seen_after(start, out@.drop_last()), p) ==> !id_lt(
                        p.id,
                        out@.last().id,
                    ),
            ensures
                forall|i: int|
                    0 <= i < self.pending@.len() ==> !ready(self.seen@, #[trigger] self.pending@[i])
                        && !clock_contains(self.seen@, self.pending@[i].id),
            decreases self.pending@.len(),
        {
            let ghost pre = self.pending@;
            self.purge_seen();
            proof {
                assert forall|k: int| 0 <= k < orig.len() implies self.pending@.contains(#[trigger] orig[k])
                    || delivered_since(out@, out0.len() as int, orig[k]) || clock_contains(self.seen@, orig[k].id) by {
                    if pre.contains(orig[k]) && !clock_contains(self.seen@, orig[k].id) {
                        let a = choose|a: int| 0 <= a < pre.len() && pre[a] == orig[k];
                        assert(!clock_contains(self.seen@, pre[a].id));
                    }
                }
                if out@.len() > out0.len() {
                    assert forall|p: Event|
                        #[trigger] self.pending@.contains(p) && ready(seen_after(start, out@.drop_last()), p) implies !id_lt(
                        p.id,
                        out@.last().id,
                    ) by {
                        let a = choose|a: int| 0 <= a < self.pending@.len() && self.pending@[a] == p;
                        assert(pre.contains(self.pending@[a]));
                    }
                }
            }
            match self.first_ready() {
                None => {
                    break;
                },
                Some(j) => {
                    let ghost before = self.pending@;
                    let ghost out_before = out@;
                    let e = self.pending.remove(j);
                    assert(before[j as int] == e);
                    assert(forall|i: int| 0 <= i < self.pending@.len() ==> (#[trigger] self.pending@[i])
                        == before[if i < j { i } else { i + 1 }]);
                    proof {
                        lemma_causal_push(start, out@, e);
                        lemma_seen_after_push(start, out@, e);
                    }
                    let ghost seen_before = self.seen@;
                    self.seen.update(e.id);
                    out.push(e);
                    assert(out@.take(out0.len() as int) =~= out_before.take(out0.len() as int));
                    assert(out@.last() == e);
                    proof {
                        assert(out@.drop_last() =~= out_before);
                        assert forall|k: int| 0 <= k < orig.len() implies self.pending@.contains(#[trigger] orig[k])
                            || delivered_since(out@, out0.len() as int, orig[k]) || clock_contains(self.seen@, orig[k].id) by {
                            let x = orig[k];
                            if clock_contains(seen_before, x.id) {
                                assert(clock_contains(self.seen@, x.id));
                            } else if delivered_since(out_before, out0.len() as int, x) {
                                let a = choose|a: int| out0.len() <= a < out_before.len() && out_before[a] == x;
                                assert(out@[a] == x);
                            } else {
                                assert(before.contains(x));
                                let a = choose|a: int| 0 <= a < before.len() && before[a] == x;
                                if a == j {
                                    assert(out@[out@.len() - 1] == x);
                                } else if a < j {
                                    assert(self.pending@[a] == x);
                                } else {
                                    assert(self.pending@[a - 1] == x);
                                }
                            }
                        }
                        assert forall|p: Event|
                            #[trigger] self.pending@.contains(p) && ready(seen_after(start, out@.drop_last()), p) implies !id_lt(
                            p.id,
                            out@.last().id,
                        ) by {
                            let a = choose|a: int| 0 <= a < self.pending@.len() && self.pending@[a] == p;
                            let b = if a < j { a } else { a + 1 };
                            assert(before[b] == p);
                        }
                        assert forall|i: int|
                            out0.len() < i < out@.len() && ready(seen_after(start, out@.take(i - 1)), #[trigger] out@[i])
                            implies !id_lt(out@[i].id, out@[i - 1].id) by {
                            if i < out@.len() - 1 {
                                assert(out@.take(i - 1) =~= out_before.take(i - 1));
                                assert(out@[i] == out_before[i] && out@[i - 1] == out_before[i - 1]);
                            } else {
                                assert(out@.take(i - 1) =~= out_before.drop_last());
                                assert(out@[i - 1] == out_before.last());
                                assert(before.contains(e));
                            }
                        }
                    }
                    assert forall|i: int| out0.len() <= i < out@.len() implies orig.contains(
                        #[trigger] out@[i],
                    ) by {
                        if i < out@.len() - 1 {
                            assert(out@[i] == out_before[i]);
                        }
                    }
                },
            }
        }
    }

    /// Accepts an event from any source and returns the events delivered as a
    /// result, in delivery order. A duplicate, or a stale event of this
    /// server, is dropped. An event whose clock the log covers is delivered at
    /// once, followed by every pending event that became ready; any other
    /// event is pended, and when the pending list would outgrow its bound the
    /// oldest entry leaves and `overflow_count` is bumped.
    pub fn add(&mut self, e: Event) -> (r: Vec<Event>)
        requires
            old(self).wf(),
            e.wf(),
        ensures
            final(self).wf(),
            final(self).server == old(self).server,
            final(self).epoch == old(self).epoch,
            final(self).next_seq == old(self).next_seq,
            final(self).pending_limit == old(self).pending_limit,
            final(self).seen@ == seen_after(old(self).seen@, r@),
            causally_ordered(old(self).seen@, r@),
            forall|i: int| 0 <= i < r@.len() ==> clock_contains(final(self).seen@, #[trigger] r@[i].id),
            old(self).is_duplicate(e) ==> {
                &&& r@.len() == 0
                &&& final(self).pending@ == old(self).pending@
                &&& final(self).overflow_count == old(self).overflow_count
            },
            !old(self).is_duplicate(e) && ready(old(self).seen@, e) ==> {
                &&& r@.len() >= 1
                &&& r@[0] == e
                &&& final(self).overflow_count == old(self).overflow_count
                &&& forall|i: int| 1 <= i < r@.len() ==> old(self).pending@.contains(#[trigger] r@[i])
                &&& forall|i: int|
                    0 <= i < final(self).pending@.len() ==> old(self).pending@.contains(
                        #[trigger] final(self).pending@[i],
                    )
                &&& forall|k: int|
                    0 <= k < old(self).pending@.len() ==> final(self).pending@.contains(#[trigger] old(self).pending@[k])
                        || r@.contains(old(self).pending@[k]) || clock_contains(final(self).seen@, old(self).pending@[k].id)
                &&& smallest_first(old(self).seen@, r@, 1)
            },
            !old(self).is_duplicate(e) && !ready(old(self).seen@, e) ==> {
                &&& r@.len() == 0
                &&& final(self).pending@ == pended(old(self).pending@, e, old(self).pending_limit as nat)
                &&& final(self).overflow_count == (if old(self).pending@.len() + 1
                    > old(self).pending_limit {
                    bumped(old(self).overflow_count)
                } else {
                    old(self).overflow_count
                })
            },
    {
        let ghost start = self.seen@;
        let mut out: Vec<Event> = Vec::new();
        if self.seen.contains(&e.id) || (e.id.server == self.server && e.id.epoch < self.epoch)
            || self.pending_has(&e.id) {
            proof {
                lemma_seen_after_contains(start, out@, e.id);
            }
            return out;
        }
        if e.clock.le(&self.seen) {
            proof {
                lemma_causal_push(start, out@, e);
                lemma_seen_after_push(start, out@, e);
            }
            self.seen.update(e.id);
            out.push(e);
            self.promote(&mut out, Ghost(start));
            proof {
                assert forall|k: int| 0 <= k < old(self).pending@.len() implies self.pending@.contains(
                    #[trigger] old(self).pending@[k],
                ) || out@.contains(old(self).pending@[k]) || clock_contains(self.seen@, old(self).pending@[k].id) by {
                    if delivered_since(out@, 1, old(self).pending@[k]) {
                        let a = choose|a: int| 1 <= a < out@.len() && out@[a] == old(self).pending@[k];
                        assert(out@[a] == old(self).pending@[k]);
                    }
                }
                assert(out@.take(1) =~= seq![e]);
                assert(out@[0] == out@.take(1)[0]);
            }
        } else {
            let ghost before = self.pending@;
            self.pending.push(e);
            if self.pending.len() > self.pending_limit {
                self.pending.remove(0);
                if self.overflow_count < u64::MAX {
                    self.overflow_count = self.overflow_count + 1;
                }
            }
            proof {
                assert(self.pending@ =~= pended(before, e, self.pending_limit as nat));
            }
        }
        proof {
            lemma_seen_after_contains(start, out@, e.id);
        }
        out
    }

    /// Moves this server to a later epoch: pending events of this server from
    /// older epochs are dropped, and local sequence numbers start again at 1.
    /// An epoch not above the current one leaves the log as it is.
    pub fn update_epoch(&mut self, new_epoch: EpochId)
        requires
            old(self).wf(),
        ensures
            final(self).wf(),
            final(self).server == old(self).server,
            final(self).seen@ == old(self).seen@,
            final(self).pending_limit == old(self).pending_limit,
            final(self).overflow_count == old(self).overflow_count,
            new_epoch <= old(self).epoch ==> final(self).epoch == old(self).epoch && final(self).next_seq
                == old(self).next_seq && final(self).pending@ == old(self).pending@,
            new_epoch > old(self).epoch ==> {
                &&& final(self).epoch == new_epoch
                &&& final(self).next_seq == 1
                &&& forall|i: int|
                    0 <= i < final(self).pending@.len() ==> old(self).pending@.contains(
                        #[trigger] final(self).pending@[i],
                    ) && !final(self).is_stale(final(self).pending@[i].id)
                &&& forall|i: int|
                    0 <= i < old(self).pending@.len() && !final(self).is_stale(
                        #[trigger] old(self).pending@[i].id,
                    ) ==> final(self).pending@.contains(old(self).pending@[i])
            },
    {
        if new_epoch <= self.epoch {
            return;
        }
        self.epoch = new_epoch;
        self.next_seq = 1;
        let mut rest: Vec<Event> = Vec::new();
        std::mem::swap(&mut rest, &mut self.pending);
        let ghost orig = rest@;
        let mut kept: Vec<Event> = Vec::new();
        while rest.len() > 0
            invariant
                self.seen.wf(),
                self.epoch == new_epoch,
                self.server == old(self).server,
                self.seen == old(self).seen,
                orig == old(self).pending@,
                rest@.len() <= orig.len(),
                rest@ == orig.subrange(orig.len() - rest@.len(), orig.len() as int),
                kept@.len() <= orig.len() - rest@.len(),
                forall|k: int| 0 <= k < orig.len() ==> (#[trigger] orig[k]).wf() && !ready(self.seen@, orig[k])
                    && !clock_contains(self.seen@, orig[k].id),
                forall|k: int|
                    0 <= k < kept@.len() ==> orig.contains(#[trigger] kept@[k]) && !self.is_stale(
                        kept@[k].id,
                    ),
                forall|k: int|
                    0 <= k < orig.len() - rest@.len() && !self.is_stale(#[trigger] orig[k].id)
                        ==> kept@.contains(orig[k]),
            decreases rest@.len(),
        {
            let ghost kept_before = kept@;
            let ghost done = orig.len() - rest@.len();
            let e = rest.remove(0);
            assert(e == orig[done]);
            assert(rest@ =~= orig.subrange(orig.len() - rest@.len(), orig.len() as int));
            if !(e.id.server == self.server && e.id.epoch < new_epoch) {
                kept.push(e);
                assert forall|k: int|
                    0 <= k < done + 1 && !self.is_stale(#[trigger] orig[k].id) implies kept@.contains(
                    orig[k]) by {
                    if k < done {
                        let m = choose|m: int| 0 <= m < kept_before.len() && kept_before[m] == orig[k];
                        assert(kept@[m] == orig[k]);
                    } else {
                        assert(kept@[kept@.len() - 1] == orig[k]);
                    }
                }
                assert(forall|k: int| 0 <= k < kept_before.len() ==> kept@[k] == kept_before[k]);
            }
        }
        assert forall|k: int| 0 <= k < kept@.len() implies (#[trigger] kept@[k]).wf() && !ready(self.seen@, kept@[k])
            && !clock_contains(self.seen@, kept@[k].id) by {
            let m = choose|m: int| 0 <= m < orig.len() && orig[m] == kept@[k];
        }
        self.pending = kept;
    }

    /// The epoch to restart at without saved state: one past the highest
    /// epoch of this server that the log has seen (1 where it has seen
    /// none), or `None` where that would overflow.
    pub fn restart_epoch(&self) -> (r: Option<EpochId>)
        requires
            self.wf(),
        ensures
            self.seen@.contains_key(self.server) ==> r == (if self.seen@[self.server].epoch < u64::MAX {
                Some((self.seen@[self.server].epoch + 1) as u64)
            } else {
                None::<u64>
            }),
            !self.seen@.contains_key(self.server) ==> r == Some(1u64),
    {
        match self.seen.get(self.server) {
            Some(last) => if last.epoch < u64::MAX {
                Some(last.epoch + 1)
            } else {
                None
            },
            None => Some(1),
        }
    }

    /// Originates an event of this server: its id is `(server, epoch,
    /// next_seq)`, its clock what the log has seen. It then goes through `add`.
    pub fn new_event(&mut self, target: ObjectId, details: EventDetails, timestamp: i64) -> (r: Vec<Event>)
        requires
            old(self).wf(),
            old(self).next_seq < u64::MAX,
        ensures
            final(self).wf(),
            final(self).server == old(self).server,
            final(self).epoch == old(self).epoch,
            final(self).next_seq == old(self).next_seq + 1,
            final(self).pending_limit == old(self).pending_limit,
            final(self).seen@ == seen_after(old(self).seen@, r@),
            causally_ordered(old(self).seen@, r@),
            forall|i: int| 0 <= i < r@.len() ==> clock_contains(final(self).seen@, #[trigger] r@[i].id),
            ({
                let id = EventId { server: old(self).server, epoch: old(self).epoch, seq: old(self).next_seq };
                !clock_contains(old(self).seen@, id) && !(exists|i: int|
                    0 <= i < old(self).pending@.len() && (#[trigger] old(self).pending@[i]).id == id)
                    ==> r@.len() >= 1 && r@[0].id == id && r@[0].timestamp == timestamp
                    && r@[0].clock@ == old(self).seen@ && r@[0].target == target
                    && r@[0].details == details
            }),
    {
        let id = EventId { server: self.server, epoch: self.epoch, seq: self.next_seq };
        self.next_seq = self.next_seq + 1;
        let clock = self.seen.copy();
        proof {
            self.seen.lemma_keys();
            assert(clock_le(clock@, self.seen@));
        }
        let e = Event { id, timestamp, clock, target, details };
        self.add(e)
    }
}

/// The overflow counter after one more drop; it stops at its maximum.
pub open spec fn bumped(c: u64) -> u64 {
    if c < u64::MAX {
        (c + 1) as u64
    } else {
        c
    }
}

} // verus!

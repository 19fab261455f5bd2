//! A server node: runs events through the event log, the network state and
//! the history log, and decides who is told of each change.
use vstd::prelude::*;
use crate::ids::{ChannelId, EpochId, EventId, MembershipId, ObjectId, ServerId, UserId};
use crate::clock::clock_contains;
use crate::event::{Event, EventDetails, EventLogUpdate};
use crate::event_log::{EventLog, seen_after, causally_ordered, lemma_seen_after_contains};
use crate::network::{Network, creates_user, creates_channel, has_user, has_channel, lemma_effect_creates};
use crate::change::{Change, MessageTarget, NetworkStateChange, TargetView};
use crate::history::{HistoryLog, details_of, last_cap, lemma_last_cap_append, members_of, unique_ids};
use crate::change::changes_view;

verus! {

/// Every user and channel of `net` was created by an event that `seen` holds.
pub open spec fn objects_seen(net: Network, seen: Map<ServerId, EventId>) -> bool {
    &&& forall|i: int| 0 <= i < net.users@.len() ==> clock_contains(seen, (#[trigger] net.users@[i]).id.0)
    &&& forall|i: int| 0 <= i < net.channels@.len() ==> clock_contains(seen, (#[trigger] net.channels@[i]).id.0)
}

/// A creation event names the object after itself.
pub open spec fn creation_ok(e: Event) -> bool {
    match e.details {
        EventDetails::NewUser { .. } => e.target == ObjectId::User(UserId(e.id)),
        EventDetails::NewChannel { .. } => e.target == ObjectId::Channel(ChannelId(e.id)),
        _ => true,
    }
}

/// What processing one delivered event does to the network state: its
/// effect, or nothing where a creation event does not name its object after
/// itself.
pub open spec fn step_effect(old: Network, new: Network, e: Event, ch: Seq<Change>) -> bool {
    if creation_ok(e) {
        crate::network::event_effect(old, new, e, ch)
    } else {
        crate::network::dropped(old, new, e.id, ch)
    }
}

/// The chain that `applied_seq` asks for: `states[i]` is the state before
/// event `i`, and its changes are `chs[cuts[i]..cuts[i + 1]]`.
pub open spec fn applied_chain(
    old: Network,
    evs: Seq<Event>,
    new: Network,
    chs: Seq<Change>,
    states: Seq<Network>,
    cuts: Seq<int>,
) -> bool {
    &&& states.len() == evs.len() + 1
    &&& cuts.len() == evs.len() + 1
    &&& states[0] == old
    &&& states.last() == new
    &&& cuts[0] == 0
    &&& cuts.last() == chs.len()
    &&& forall|i: int| 0 <= i <= evs.len() ==> 0 <= #[trigger] cuts[i] <= chs.len()
    &&& forall|i: int|
        0 <= i < evs.len() ==> cuts[i] <= cuts[i + 1] && step_effect(
            states[i],
            states[i + 1],
            #[trigger] evs[i],
            chs.subrange(cuts[i], cuts[i + 1]),
        )
}

/// `new` and the changes `chs` come from processing `evs` in order from
/// `old`, the changes of each event following those of the events before.
pub open spec fn applied_seq(old: Network, evs: Seq<Event>, new: Network, chs: Seq<Change>) -> bool {
    exists|states: Seq<Network>, cuts: Seq<int>| #[trigger] applied_chain(old, evs, new, chs, states, cuts)
}

/// The history log `new` is `old` with the changes `chs` recorded in order,
/// the oldest entries dropped to stay within `cap`.
pub open spec fn recorded(old: HistoryLog, new: HistoryLog, chs: Seq<Change>) -> bool {
    &&& new.capacity == old.capacity
    &&& details_of(new.entries@) == last_cap(details_of(old.entries@) + chs, old.capacity as int)
}

/// A server node.
#[derive(Debug)]
pub struct Server {
    pub my_id: ServerId,
    pub name: Vec<u8>,
    pub epoch: EpochId,
    pub net: Network,
    pub event_log: EventLog,
    pub history_log: HistoryLog,
    /// How many delivered events had no effect for want of the state they
    /// refer to; it stops at its maximum.
    pub dropped_events: u64,
}

/// Saved state of a `Server` for later resumption.
#[derive(Debug)]
pub struct ServerState {
    pub id: ServerId,
    pub name: Vec<u8>,
    pub epoch: EpochId,
    pub net: Network,
    pub event_log: EventLog,
    pub history_log: HistoryLog,
    pub dropped_events: u64,
}

/// `state` holds exactly what `s` held.
pub open spec fn saved_from(s: Server, state: ServerState) -> bool {
    &&& state.id == s.my_id
    &&& state.name == s.name
    &&& state.epoch == s.epoch
    &&& state.net == s.net
    &&& state.event_log == s.event_log
    &&& state.history_log == s.history_log
    &&& state.dropped_events == s.dropped_events
}

/// `s` is built from exactly what `state` held.
pub open spec fn restored_from(state: ServerState, s: Server) -> bool {
    &&& s.my_id == state.id
    &&& s.name == state.name
    &&& s.epoch == state.epoch
    &&& s.net == state.net
    &&& s.event_log == state.event_log
    &&& s.history_log == state.history_log
    &&& s.dropped_events == state.dropped_events
}

/// The two servers hold the same state, field for field.
pub open spec fn same_server(a: Server, b: Server) -> bool {
    &&& a.my_id == b.my_id
    &&& a.name@ == b.name@
    &&& a.epoch == b.epoch
    &&& a.net.users@ == b.net.users@
    &&& a.net.channels@ == b.net.channels@
    &&& a.net.memberships@ == b.net.memberships@
    &&& a.net.servers@ == b.net.servers@
    &&& a.event_log.seen@ == b.event_log.seen@
    &&& a.event_log.pending@ == b.event_log.pending@
    &&& a.event_log.next_seq == b.event_log.next_seq
    &&& a.history_log.entries@ == b.history_log.entries@
    &&& a.dropped_events == b.dropped_events
}

/// Restoring what was saved gives back a server in the same state.
pub proof fn lemma_save_restore(s: Server, state: ServerState, t: Server)
    requires
        saved_from(s, state),
        restored_from(state, t),
    ensures
        same_server(s, t),
        s.wf() ==> t.wf(),
{
}

/// Who is told of change `c`, given the state `net` after it: a new user
/// itself; on a join every member of the channel, the joiner included; on a
/// part the members and the one who left; on a quit the users that shared a
/// channel with the one who left; a channel message every member but the
/// sender; a private message its recipient. A message whose sender, or
/// private recipient, is not a user reaches nobody.
pub open spec fn notified(net: Network, c: Change, u: UserId) -> bool {
    match c {
        Change::NewUser { user, .. } => u == user,
        Change::ChannelJoin { membership, .. } => net.memberships@.contains(
            MembershipId { user: u, channel: membership.channel },
        ) || u == membership.user,
        Change::ChannelPart { membership, .. } => u == membership.user || net.memberships@.contains(
            MembershipId { user: u, channel: membership.channel },
        ),
        Change::UserQuit { common, .. } => common.contains(u),
        Change::NewMessage { source, target, .. } => has_user(net.users@, source) && match target {
            TargetView::User(v, _) => u == v && has_user(net.users@, v),
            TargetView::Channel(ch, _) => u != source && net.memberships@.contains(
                MembershipId { user: u, channel: ch },
            ),
        },
        _ => false,
    }
}

/// In a well-formed server no user or channel has an id beyond what the
/// event log has seen from the server that created it.
pub proof fn lemma_no_object_ahead(s: Server)
    requires
        s.wf(),
    ensures
        forall|i: int| 0 <= i < s.net.users@.len() ==> {
            let id = (#[trigger] s.net.users@[i]).id.0;
            s.event_log.seen@.contains_key(id.server) && crate::ids::local_le(id, s.event_log.seen@[id.server])
        },
        forall|i: int| 0 <= i < s.net.channels@.len() ==> {
            let id = (#[trigger] s.net.channels@[i]).id.0;
            s.event_log.seen@.contains_key(id.server) && crate::ids::local_le(id, s.event_log.seen@[id.server])
        },
{
}

impl Server {
    pub open spec fn wf(&self) -> bool {
        &&& self.net.wf()
        &&& self.event_log.wf()
        &&& self.history_log.wf()
        &&& self.event_log.server == self.my_id
        &&& self.event_log.epoch == self.epoch
        &&& objects_seen(self.net, self.event_log.seen@)
    }

    /// A server with an empty state.
    pub fn new(my_id: ServerId, name: Vec<u8>, epoch: EpochId, pending_limit: usize, history_capacity: usize) -> (r: Server)
        requires
            pending_limit >= 1,
            history_capacity >= 1,
        ensures
            r.wf(),
            r.my_id == my_id,
            r.name == name,
            r.epoch == epoch,
            r.event_log.epoch == epoch,
            r.event_log.pending_limit == pending_limit,
            r.history_log.capacity == history_capacity,
            r.net.users@.len() == 0,
            r.history_log.entries@.len() == 0,
            r.dropped_events == 0,
    {
        Server {
            my_id,
            name,
            epoch,
            net: Network::new(),
            event_log: EventLog::new(my_id, epoch, pending_limit),
            history_log: HistoryLog::new(history_capacity),
            dropped_events: 0,
        }
    }

    /// Save the server's state for later resumption.
    pub fn save_state(self) -> (r: ServerState)
        ensures
            saved_from(self, r),
    {
        ServerState {
            id: self.my_id,
            name: self.name,
            epoch: self.epoch,
            net: self.net,
            event_log: self.event_log,
            history_log: self.history_log,
            dropped_events: self.dropped_events,
        }
    }

    /// Restore from a previously saved state.
    pub fn restore_from(state: ServerState) -> (r: Server)
        ensures
            restored_from(state, r),
    {
        Server {
            my_id: state.id,
            name: state.name,
            epoch: state.epoch,
            net: state.net,
            event_log: state.event_log,
            history_log: state.history_log,
            dropped_events: state.dropped_events,
        }
    }

    /// Applies one delivered event: to the network state, then each resulting
    /// change to the history log. A creation event that does not name its
    /// object after itself is dropped.
    pub fn process_event(&mut self, e: &Event) -> (r: Vec<NetworkStateChange>)
        requires
            old(self).wf(),
            clock_contains(old(self).event_log.seen@, e.id),
        ensures
            final(self).wf(),
            final(self).event_log == old(self).event_log,
            final(self).my_id == old(self).my_id,
            final(self).epoch == old(self).epoch,
            creation_ok(*e) ==> crate::network::event_effect(old(self).net, final(self).net, *e, crate::change::changes_view(r@)),
            !creation_ok(*e) ==> crate::network::dropped(old(self).net, final(self).net, e.id, crate::change::changes_view(r@)),
            final(self).history_log.capacity == old(self).history_log.capacity,
            step_effect(old(self).net, final(self).net, *e, changes_view(r@)),
            recorded(old(self).history_log, final(self).history_log, changes_view(r@)),
            final(self).dropped_events == (if crate::change::changes_view(r@) == seq![Change::EventDropped { event: e.id }] {
                crate::event_log::bumped(old(self).dropped_events)
            } else {
                old(self).dropped_events
            }),
    {
        let ok = match (&e.details, e.target) {
            (EventDetails::NewUser { .. }, ObjectId::User(u)) => u.0 == e.id,
            (EventDetails::NewUser { .. }, _) => false,
            (EventDetails::NewChannel { .. }, ObjectId::Channel(c)) => c.0 == e.id,
            (EventDetails::NewChannel { .. }, _) => false,
            _ => true,
        };
        assert(ok == creation_ok(*e));
        let changes = if ok {
            let ghost before = self.net;
            let changes = self.net.apply(e);
            proof {
                lemma_effect_creates(before, self.net, *e, crate::change::changes_view(changes@));
                let seen = self.event_log.seen@;
                assert forall|i: int| 0 <= i < self.net.users@.len() implies clock_contains(seen, (#[trigger] self.net.users@[i]).id.0) by {
                    let id = self.net.users@[i].id;
                    assert(has_user(self.net.users@, id));
                    if has_user(before.users@, id) {
                        let j = choose|j: int| 0 <= j < before.users@.len() && (#[trigger] before.users@[j]).id == id;
                        assert(clock_contains(seen, before.users@[j].id.0));
                    } else {
                        assert(creates_user(*e, id));
                        assert(id.0 == e.id);
                    }
                }
                assert forall|i: int| 0 <= i < self.net.channels@.len() implies clock_contains(seen, (#[trigger] self.net.channels@[i]).id.0) by {
                    let id = self.net.channels@[i].id;
                    assert(has_channel(self.net.channels@, id));
                    if has_channel(before.channels@, id) {
                        let j = choose|j: int| 0 <= j < before.channels@.len() && (#[trigger] before.channels@[j]).id == id;
                        assert(clock_contains(seen, before.channels@[j].id.0));
                    } else {
                        assert(creates_channel(*e, id));
                        assert(id.0 == e.id);
                    }
                }
            }
            changes
        } else {
            let r = vec![NetworkStateChange::EventDropped { event: e.id }];
            assert(crate::change::changes_view(r@) =~= seq![Change::EventDropped { event: e.id }]);
            r
        };
        let is_drop = changes.len() == 1 && match &changes[0] {
            NetworkStateChange::EventDropped { event } => *event == e.id,
            _ => false,
        };
        proof {
            if is_drop {
                assert(crate::change::changes_view(changes@) =~= seq![Change::EventDropped { event: e.id }]);
            } else {
                assert(crate::change::changes_view(changes@).len() == changes@.len());
                if changes@.len() == 1 {
                    assert(crate::change::changes_view(changes@)[0] == changes@[0]@);
                    assert(seq![Change::EventDropped { event: e.id }][0] == Change::EventDropped { event: e.id });
                }
            }
        }
        if is_drop && self.dropped_events < u64::MAX {
            self.dropped_events = self.dropped_events + 1;
        }
        let ghost dropped = self.dropped_events;
        let ghost mid = self.net;
        let ghost h0 = self.history_log;
        let mut i: usize = 0;
        while i < changes.len()
            invariant
                self.wf(),
                i <= changes@.len(),
                recorded(h0, self.history_log, changes_view(changes@.take(i as int))),
                h0.capacity == old(self).history_log.capacity,
                self.dropped_events == dropped,
                self.net == mid,
                self.event_log == old(self).event_log,
                self.my_id == old(self).my_id,
                self.epoch == old(self).epoch,
                self.history_log.capacity == old(self).history_log.capacity,
            decreases changes@.len() - i,
        {
            let ghost hb = self.history_log;
            self.history_log.add(&self.net, changes[i].copy(), e.timestamp, e.id);
            proof {
                let cv = changes_view(changes@.take(i as int));
                assert(changes_view(changes@.take(i + 1)) =~= cv.push(changes@[i as int]@));
                lemma_last_cap_append(details_of(h0.entries@) + cv, seq![changes@[i as int]@], h0.capacity as int);
                assert(details_of(h0.entries@) + cv + seq![changes@[i as int]@] =~= details_of(h0.entries@) + cv.push(
                    changes@[i as int]@,
                ));
                assert(details_of(hb.entries@).push(changes@[i as int]@) =~= details_of(hb.entries@) + seq![changes@[i as int]@]);
            }
            i = i + 1;
        }
        assert(changes@.take(changes@.len() as int) =~= changes@);
        changes
    }

    /// Runs delivered events, in order, through `process_event`.
    fn process_all(&mut self, evs: &Vec<Event>) -> (r: Vec<NetworkStateChange>)
        requires
            old(self).wf(),
            forall|i: int| 0 <= i < evs@.len() ==> clock_contains(old(self).event_log.seen@, (#[trigger] evs@[i]).id),
        ensures
            final(self).wf(),
            final(self).event_log == old(self).event_log,
            final(self).my_id == old(self).my_id,
            final(self).epoch == old(self).epoch,
            applied_seq(old(self).net, evs@, final(self).net, changes_view(r@)),
            recorded(old(self).history_log, final(self).history_log, changes_view(r@)),
    {
        let mut out: Vec<NetworkStateChange> = Vec::new();
        let ghost n0 = self.net;
        let ghost h0 = self.history_log;
        assert(changes_view(out@) =~= Seq::<Change>::empty());
        assert(evs@.take(0) =~= Seq::<Event>::empty());
        assert(applied_chain(n0, evs@.take(0), n0, changes_view(out@), seq![n0], seq![0int]));
        assert(details_of(h0.entries@) + Seq::<Change>::empty() =~= details_of(h0.entries@));
        assert(h0.entries@.len() <= h0.capacity);
        let ghost mut states: Seq<Network> = seq![n0];
        let ghost mut cuts: Seq<int> = seq![0int];
        let mut i: usize = 0;
        while i < evs.len()
            invariant
                i <= evs@.len(),
                n0 == old(self).net,
                h0 == old(self).history_log,
                applied_chain(n0, evs@.take(i as int), self.net, changes_view(out@), states, cuts),
                recorded(h0, self.history_log, changes_view(out@)),
                self.wf(),
                self.event_log == old(self).event_log,
                self.my_id == old(self).my_id,
                self.epoch == old(self).epoch,
                forall|k: int| 0 <= k < evs@.len() ==> clock_contains(old(self).event_log.seen@, (#[trigger] evs@[k]).id),
            decreases evs@.len() - i,
        {
            let ghost mid = self.net;
            let ghost hm = self.history_log;
            let ghost prev = changes_view(out@);
            let mut changes = self.process_event(&evs[i]);
            let ghost cv = changes_view(changes@);
            out.append(&mut changes);
            proof {
                let all = changes_view(out@);
                assert(all =~= prev + cv);
                let k = prev.len() as int;
                assert(all.take(k) =~= prev);
                assert(all.skip(k) =~= cv);
                let t = evs@.take(i + 1);
                let old_cuts = cuts;
                states = states.push(self.net);
                cuts = cuts.push(all.len() as int);
                assert forall|j: int| 0 <= j < t.len() implies cuts[j] <= cuts[j + 1] && step_effect(
                    states[j],
                    states[j + 1],
                    #[trigger] t[j],
                    all.subrange(cuts[j], cuts[j + 1]),
                ) by {
                    if j < i {
                        assert(t[j] == evs@.take(i as int)[j]);
                        assert(old_cuts[j] <= prev.len() && old_cuts[j + 1] <= prev.len());
                        assert(all.subrange(cuts[j], cuts[j + 1]) =~= prev.subrange(old_cuts[j], old_cuts[j + 1]));
                    } else {
                        assert(t[j] == evs@[i as int]);
                        assert(all.subrange(k, all.len() as int) =~= cv);
                    }
                }
                assert forall|j: int| 0 <= j < t.len() implies #[trigger] cuts[j] <= cuts[j + 1] by {
                    if j < i {
                        assert(evs@.take(i as int)[j] == t[j]);
                        assert(old_cuts[j] <= old_cuts[j + 1]);
                    } else {
                        assert(old_cuts.last() == prev.len());
                    }
                }
                assert(t.len() == i + 1);
                assert(states.len() == t.len() + 1);
                assert(cuts.len() == t.len() + 1);
                assert(states[0] == n0);
                assert(states.last() == self.net);
                assert(cuts[0] == 0);
                assert(cuts.last() == all.len());
                assert forall|j: int| 0 <= j <= t.len() implies 0 <= #[trigger] cuts[j] <= all.len() by {
                    if j < t.len() {
                        assert(cuts[j] == old_cuts[j]);
                        assert(0 <= old_cuts[j] <= prev.len());
                    }
                }
                assert(applied_chain(n0, t, self.net, all, states, cuts));
                lemma_last_cap_append(details_of(h0.entries@) + prev, cv, h0.capacity as int);
                assert(details_of(h0.entries@) + prev + cv =~= details_of(h0.entries@) + all);
            }
            i = i + 1;
        }
        assert(evs@.take(evs@.len() as int) =~= evs@);
        assert(applied_chain(n0, evs@, self.net, changes_view(out@), states, cuts));
        out
    }

    /// Objects that `seen` holds stay held when `seen` grows.
    proof fn lemma_objects_seen_grow(net: Network, seen: Map<ServerId, EventId>, evs: Seq<Event>)
        requires
            objects_seen(net, seen),
        ensures
            objects_seen(net, seen_after(seen, evs)),
    {
        assert forall|i: int| 0 <= i < net.users@.len() implies clock_contains(seen_after(seen, evs), (#[trigger] net.users@[i]).id.0) by {
            lemma_seen_after_contains(seen, evs, net.users@[i].id.0);
        }
        assert forall|i: int| 0 <= i < net.channels@.len() implies clock_contains(seen_after(seen, evs), (#[trigger] net.channels@[i]).id.0) by {
            lemma_seen_after_contains(seen, evs, net.channels@[i].id.0);
        }
    }

    /// Accepts an event from a peer: the log delivers what is ready, in
    /// causal order, and each delivered event is applied. Returns the
    /// delivered events and the resulting changes, in order.
    pub fn receive(&mut self, e: Event) -> (r: (Vec<Event>, Vec<NetworkStateChange>))
        requires
            old(self).wf(),
            e.wf(),
        ensures
            final(self).wf(),
            final(self).my_id == old(self).my_id,
            final(self).epoch == old(self).epoch,
            final(self).event_log.seen@ == seen_after(old(self).event_log.seen@, r.0@),
            causally_ordered(old(self).event_log.seen@, r.0@),
            forall|i: int| 0 <= i < r.0@.len() ==> clock_contains(final(self).event_log.seen@, #[trigger] r.0@[i].id),
            old(self).event_log.is_duplicate(e) ==> r.0@.len() == 0 && final(self).event_log.pending@
                == old(self).event_log.pending@,
            !old(self).event_log.is_duplicate(e) && crate::event_log::ready(old(self).event_log.seen@, e) ==> r.0@.len()
                >= 1 && r.0@[0] == e,
            !old(self).event_log.is_duplicate(e) && !crate::event_log::ready(old(self).event_log.seen@, e) ==> r.0@.len()
                == 0 && final(self).event_log.pending@ == crate::event_log::pended(
                old(self).event_log.pending@,
                e,
                old(self).event_log.pending_limit as nat,
            ),
            applied_seq(old(self).net, r.0@, final(self).net, changes_view(r.1@)),
            recorded(old(self).history_log, final(self).history_log, changes_view(r.1@)),
    {
        let ghost seen0 = self.event_log.seen@;
        let delivered = self.event_log.add(e);
        proof {
            Self::lemma_objects_seen_grow(self.net, seen0, delivered@);
        }
        let changes = self.process_all(&delivered);
        (delivered, changes)
    }

    /// Originates an event at this server and applies what the log delivers.
    /// Returns the delivered events, the new one first, for sending to peers,
    /// and the resulting changes.
    pub fn submit(&mut self, target: ObjectId, details: EventDetails, timestamp: i64) -> (r: (Vec<Event>, Vec<NetworkStateChange>))
        requires
            old(self).wf(),
            old(self).event_log.next_seq < u64::MAX,
        ensures
            final(self).wf(),
            final(self).my_id == old(self).my_id,
            final(self).epoch == old(self).epoch,
            final(self).event_log.next_seq == old(self).event_log.next_seq + 1,
            forall|i: int| 0 <= i < r.0@.len() ==> clock_contains(final(self).event_log.seen@, #[trigger] r.0@[i].id),
            ({
                let id = EventId { server: old(self).my_id, epoch: old(self).epoch, seq: old(self).event_log.next_seq };
                !clock_contains(old(self).event_log.seen@, id) && !(exists|i: int|
                    0 <= i < old(self).event_log.pending@.len() && (#[trigger] old(self).event_log.pending@[i]).id == id)
                    ==> r.0@.len() >= 1 && r.0@[0].id == id && r.0@[0].timestamp == timestamp && r.0@[0].target == target
                    && r.0@[0].details == details
            }),
            applied_seq(old(self).net, r.0@, final(self).net, changes_view(r.1@)),
            recorded(old(self).history_log, final(self).history_log, changes_view(r.1@)),
    {
        let ghost seen0 = self.event_log.seen@;
        let delivered = self.event_log.new_event(target, details, timestamp);
        proof {
            Self::lemma_objects_seen_grow(self.net, seen0, delivered@);
        }
        let changes = self.process_all(&delivered);
        (delivered, changes)
    }

    /// Applies an update of the event log: a new local event, or a new epoch.
    pub fn handle_update(&mut self, update: EventLogUpdate, timestamp: i64) -> (r: (Vec<Event>, Vec<NetworkStateChange>))
        requires
            old(self).wf(),
            update is NewEvent ==> old(self).event_log.next_seq < u64::MAX,
        ensures
            final(self).wf(),
            final(self).my_id == old(self).my_id,
            update matches EventLogUpdate::EpochUpdate(ep) ==> {
                &&& r.0@.len() == 0
                &&& r.1@.len() == 0
                &&& final(self).net == old(self).net
                &&& final(self).history_log == old(self).history_log
                &&& final(self).event_log.seen@ == old(self).event_log.seen@
                &&& (ep > old(self).epoch ==> final(self).epoch == ep && final(self).event_log.epoch == ep
                    && final(self).event_log.next_seq == 1)
                &&& (ep <= old(self).epoch ==> final(self).epoch == old(self).epoch)
            },
            update matches EventLogUpdate::NewEvent(target, details) ==> {
                &&& final(self).epoch == old(self).epoch
                &&& final(self).event_log.next_seq == old(self).event_log.next_seq + 1
                &&& applied_seq(old(self).net, r.0@, final(self).net, changes_view(r.1@))
                &&& recorded(old(self).history_log, final(self).history_log, changes_view(r.1@))
                &&& forall|i: int| 0 <= i < r.0@.len() ==> clock_contains(final(self).event_log.seen@, #[trigger] r.0@[i].id)
                &&& ({
                    let id = EventId { server: old(self).my_id, epoch: old(self).epoch, seq: old(self).event_log.next_seq };
                    !clock_contains(old(self).event_log.seen@, id) && !(exists|i: int|
                        0 <= i < old(self).event_log.pending@.len() && (#[trigger] old(self).event_log.pending@[i]).id == id)
                        ==> r.0@.len() >= 1 && r.0@[0].id == id && r.0@[0].timestamp == timestamp && r.0@[0].target == target
                        && r.0@[0].details == details
                })
            },
    {
        match update {
            EventLogUpdate::NewEvent(target, details) => self.submit(target, details, timestamp),
            EventLogUpdate::EpochUpdate(ep) => {
                self.event_log.update_epoch(ep);
                if ep > self.epoch {
                    self.epoch = ep;
                }
                (Vec::new(), Vec::new())
            },
        }
    }
}

impl Server {
    /// The users to tell of change `c`, given the state after it, each once.
    pub fn handle_event(&self, c: &NetworkStateChange) -> (r: Vec<UserId>)
        requires
            self.net.wf(),
        ensures
            r@.no_duplicates(),
            forall|u: UserId| #[trigger] r@.contains(u) <==> notified(self.net, c@, u),
    {
        match c {
            NetworkStateChange::NewUser { user, .. } => self.handle_new_user(*user),
            NetworkStateChange::ChannelJoin { membership, .. } => self.handle_join(*membership),
            NetworkStateChange::ChannelPart { membership, .. } => self.handle_part(*membership),
            NetworkStateChange::UserQuit { common, .. } => self.handle_quit(common),
            NetworkStateChange::NewMessage { source, target, .. } => self.handle_new_message(*source, target),
            NetworkStateChange::NewChannel { channel, .. } => self.handle_new_channel(*channel),
            _ => Vec::new(),
        }
    }

    /// A new user is welcomed.
    pub fn handle_new_user(&self, user: UserId) -> (r: Vec<UserId>)
        ensures
            r@ == seq![user],
            r@.no_duplicates(),
            forall|u: UserId| #[trigger] r@.contains(u) <==> u == user,
    {
        let r = vec![user];
        assert(r@ =~= seq![user]);
        assert forall|u: UserId| #[trigger] r@.contains(u) <==> u == user by {
            if u == user {
                assert(r@[0] == u);
            }
        }
        r
    }

    /// Nobody is told of a new channel until somebody joins it.
    pub fn handle_new_channel(&self, channel: ChannelId) -> (r: Vec<UserId>)
        ensures
            r@.len() == 0,
            r@.no_duplicates(),
    {
        Vec::new()
    }

    /// A join is told, once each, to every member of the channel, the joiner
    /// included.
    pub fn handle_join(&self, m: MembershipId) -> (r: Vec<UserId>)
        ensures
            r@.no_duplicates(),
            forall|u: UserId| #[trigger] r@.contains(u) <==> u == m.user || self.net.memberships@.contains(
                MembershipId { user: u, channel: m.channel },
            ),
    {
        let mut all = vec![m.user];
        let ghost first = all@;
        members_of(&self.net, m.channel, &mut all);
        let r = unique_ids(&all);
        proof {
            assert forall|u: UserId| #[trigger] r@.contains(u) <==> u == m.user || self.net.memberships@.contains(
                MembershipId { user: u, channel: m.channel },
            ) by {
                if u == m.user {
                    assert(first[0] == u);
                    assert(all@.contains(u));
                }
            }
        }
        r
    }

    /// A part is told, once each, to the members of the channel and to the one
    /// who left.
    pub fn handle_part(&self, m: MembershipId) -> (r: Vec<UserId>)
        ensures
            r@.no_duplicates(),
            forall|u: UserId| #[trigger] r@.contains(u) <==> u == m.user || self.net.memberships@.contains(
                MembershipId { user: u, channel: m.channel },
            ),
    {
        self.handle_join(m)
    }

    /// A quit is told, once each, to the users that shared a channel with the
    /// one who left, as the quit reported them.
    pub fn handle_quit(&self, common: &Vec<UserId>) -> (r: Vec<UserId>)
        ensures
            r@.no_duplicates(),
            forall|u: UserId| #[trigger] r@.contains(u) <==> common@.contains(u),
    {
        unique_ids(common)
    }

    /// A channel message goes, once each, to every member but its sender; a
    /// private one to its recipient. Nobody is told where the sender, or the
    /// private recipient, is not a user.
    pub fn handle_new_message(&self, source: UserId, target: &MessageTarget) -> (r: Vec<UserId>)
        requires
            self.net.wf(),
        ensures
            r@.no_duplicates(),
            forall|u: UserId| #[trigger] r@.contains(u) <==> has_user(self.net.users@, source) && match target@ {
                TargetView::User(v, _) => u == v && has_user(self.net.users@, v),
                TargetView::Channel(ch, _) => u != source && self.net.memberships@.contains(
                    MembershipId { user: u, channel: ch },
                ),
            },
    {
        if self.net.find_user(source).is_none() {
            return Vec::new();
        }
        match target {
            MessageTarget::User(v, _) => {
                if self.net.find_user(*v).is_none() {
                    return Vec::new();
                }
                self.handle_new_user(*v)
            },
            MessageTarget::Channel(ch, _) => {
                let mut members: Vec<UserId> = Vec::new();
                members_of(&self.net, *ch, &mut members);
                let mut picked: Vec<UserId> = Vec::new();
                let mut i: usize = 0;
                while i < members.len()
                    invariant
                        i <= members@.len(),
                        forall|u: UserId| #[trigger] picked@.contains(u) <==> u != source && exists|j: int|
                            0 <= j < i && members@[j] == u,
                    decreases members@.len() - i,
                {
                    let x = members[i];
                    let ghost before = picked@;
                    if x != source {
                        picked.push(x);
                    }
                    proof {
                        assert forall|u: UserId| #[trigger] picked@.contains(u) <==> u != source && exists|j: int|
                            0 <= j < i + 1 && members@[j] == u by {
                            if picked@.contains(u) && !(x != source && u == x) {
                                let a = choose|a: int| 0 <= a < picked@.len() && picked@[a] == u;
                                assert(before[a] == u);
                                assert(before.contains(u));
                            }
                            if x != source && u == x {
                                assert(picked@[picked@.len() - 1] == u);
                                assert(members@[i as int] == u);
                            }
                            if u != source && exists|j: int| 0 <= j < i + 1 && members@[j] == u {
                                let j = choose|j: int| 0 <= j < i + 1 && members@[j] == u;
                                if j < i {
                                    assert(before.contains(u));
                                    let a = choose|a: int| 0 <= a < before.len() && before[a] == u;
                                    assert(picked@[a] == u);
                                } else {
                                    assert(picked@[picked@.len() - 1] == u);
                                }
                            }
                        }
                    }
                    i = i + 1;
                }
                let r = unique_ids(&picked);
                proof {
                    assert forall|u: UserId| #[trigger] r@.contains(u) <==> u != source && self.net.memberships@.contains(
                        MembershipId { user: u, channel: *ch },
                    ) by {
                        if u != source && members@.contains(u) {
                            let j = choose|j: int| 0 <= j < members@.len() && members@[j] == u;
                        }
                        if picked@.contains(u) {
                            let j = choose|j: int| 0 <= j < members@.len() && members@[j] == u;
                            assert(members@.contains(u));
                        }
                    }
                }
                r
            },
        }
    }
}

} // verus!

//! The history log: a bounded list of recent state changes, each with the
//! users it was visible to when it was recorded.
use vstd::prelude::*;
use crate::ids::{EventId, MembershipId, UserId};
use crate::change::{Change, NetworkStateChange, TargetView};
use crate::network::{Network, shares_channel};

verus! {

/// Could user `u` see change `c` in state `net`? Messages are seen by their
/// source and recipient, or by the members of the channel; joins and parts by
/// the user and the channel's members; a quit by the user and those it shared
/// channels with; a nick change by the user and those it shares channels
/// with; a new user by itself.
pub open spec fn visible_to(net: Network, c: Change, u: UserId) -> bool {
    match c {
        Change::NewMessage { source, target, .. } => u == source || match target {
            TargetView::User(v, _) => u == v,
            TargetView::Channel(ch, _) => net.memberships@.contains(MembershipId { user: u, channel: ch }),
        },
        Change::ChannelJoin { membership, .. } => u == membership.user || net.memberships@.contains(
            MembershipId { user: u, channel: membership.channel },
        ),
        Change::ChannelPart { membership, .. } => u == membership.user || net.memberships@.contains(
            MembershipId { user: u, channel: membership.channel },
        ),
        Change::UserQuit { user, common, .. } => u == user || common.contains(u),
        Change::UserNickChange { user, .. } => u == user || shares_channel(net, user, u),
        Change::NewUser { user, .. } => u == user,
        _ => false,
    }
}

/// One recorded change.
#[derive(Debug)]
pub struct HistoryLogEntry {
    pub id: u64,
    pub timestamp: i64,
    pub source_event: EventId,
    pub details: NetworkStateChange,
    /// The users the change was visible to when it was recorded.
    pub users: Vec<UserId>,
}

/// The entry at index `i` is visible to `u`.
pub open spec fn entry_visible(entries: Seq<HistoryLogEntry>, i: int, u: UserId) -> bool {
    entries[i].users@.contains(u)
}

/// The bounded history log, oldest entry first.
#[derive(Debug)]
pub struct HistoryLog {
    pub entries: Vec<HistoryLogEntry>,
    pub capacity: usize,
    pub next_id: u64,
}

/// The members of channel `c`.
pub(crate) fn members_of(net: &Network, c: crate::ids::ChannelId, out: &mut Vec<UserId>)
    ensures
        forall|u: UserId| #[trigger] final(out)@.contains(u) <==> old(out)@.contains(u) || net.memberships@.contains(
            MembershipId { user: u, channel: c },
        ),
{
    let ghost start = out@;
    let mut i: usize = 0;
    while i < net.memberships.len()
        invariant
            i <= net.memberships@.len(),
            start == old(out)@,
            forall|u: UserId| #[trigger] out@.contains(u) <==> start.contains(u) || (exists|j: int|
                0 <= j < i && net.memberships@[j] == MembershipId { user: u, channel: c }),
        decreases net.memberships@.len() - i,
    {
        let m = net.memberships[i];
        let ghost before = out@;
        if m.channel == c {
            out.push(m.user);
            proof {
                assert forall|u: UserId| #[trigger] out@.contains(u) <==> start.contains(u) || (exists|j: int|
                    0 <= j < i + 1 && net.memberships@[j] == (MembershipId { user: u, channel: c })) by {
                    if u == m.user {
                        assert(out@[out@.len() - 1] == u);
                        assert(net.memberships@[i as int] == (MembershipId { user: u, channel: c }));
                    } else {
                        if out@.contains(u) {
                            let a = choose|a: int| 0 <= a < out@.len() && out@[a] == u;
                            assert(before[a] == u);
                            assert(before.contains(u));
                        }
                        if exists|j: int| 0 <= j < i + 1 && net.memberships@[j] == (MembershipId { user: u, channel: c }) {
                            let j = choose|j: int| 0 <= j < i + 1 && net.memberships@[j] == (MembershipId { user: u, channel: c });
                            assert(j != i);
                            assert(before.contains(u));
                        }
                        if start.contains(u) {
                            assert(before.contains(u));
                        }
                        if before.contains(u) {
                            let a = choose|a: int| 0 <= a < before.len() && before[a] == u;
                            assert(out@[a] == u);
                        }
                    }
                }
            }
        } else {
            proof {
                assert forall|u: UserId| #[trigger] out@.contains(u) <==> start.contains(u) || (exists|j: int|
                    0 <= j < i + 1 && net.memberships@[j] == (MembershipId { user: u, channel: c })) by {
                    if exists|j: int| 0 <= j < i + 1 && net.memberships@[j] == (MembershipId { user: u, channel: c }) {
                        let j = choose|j: int| 0 <= j < i + 1 && net.memberships@[j] == (MembershipId { user: u, channel: c });
                        assert(j != i);
                    }
                }
            }
        }
        i = i + 1;
    }
    proof {
        assert forall|u: UserId| net.memberships@.contains(MembershipId { user: u, channel: c }) implies exists|j: int|
            0 <= j < net.memberships@.len() && net.memberships@[j] == MembershipId { user: u, channel: c } by {
        }
    }
}

/// Appends `xs` to `out`.
fn push_ids(out: &mut Vec<UserId>, xs: &Vec<UserId>)
    ensures
        forall|u: UserId| #[trigger] final(out)@.contains(u) <==> old(out)@.contains(u) || xs@.contains(u),
{
    let ghost start = out@;
    let mut i: usize = 0;
    while i < xs.len()
        invariant
            i <= xs@.len(),
            start == old(out)@,
            out@ == start + xs@.take(i as int),
        decreases xs@.len() - i,
    {
        out.push(xs[i]);
        i = i + 1;
        assert(out@ =~= start + xs@.take(i as int));
    }
    assert(xs@.take(xs@.len() as int) =~= xs@);
    assert forall|u: UserId| #[trigger] out@.contains(u) <==> start.contains(u) || xs@.contains(u) by {
        if out@.contains(u) {
            let a = choose|a: int| 0 <= a < out@.len() && out@[a] == u;
            if a < start.len() {
                assert(start[a] == u);
            } else {
                assert(xs@[a - start.len()] == u);
            }
        }
        if xs@.contains(u) {
            let a = choose|a: int| 0 <= a < xs@.len() && xs@[a] == u;
            assert(out@[start.len() + a] == u);
        }
        if start.contains(u) {
            let a = choose|a: int| 0 <= a < start.len() && start[a] == u;
            assert(out@[a] == u);
        }
    }
}

/// The users that change `c` is visible to in state `net`.
pub fn affected_users(net: &Network, c: &NetworkStateChange) -> (r: Vec<UserId>)
    requires
        net.wf(),
    ensures
        forall|u: UserId| #[trigger] r@.contains(u) <==> visible_to(*net, c@, u),
{
    let mut r: Vec<UserId> = Vec::new();
    match c {
        NetworkStateChange::NewMessage { source, target, .. } => {
            r.push(*source);
            match target {
                crate::change::MessageTarget::User(v, _) => {
                    r.push(*v);
                    proof {
                        assert forall|u: UserId| #[trigger] r@.contains(u) <==> visible_to(*net, c@, u) by {
                            if u == *source {
                                assert(r@[0] == u);
                            }
                            if u == *v {
                                assert(r@[1] == u);
                            }
                        }
                    }
                },
                crate::change::MessageTarget::Channel(ch, _) => {
                    let ghost first = r@;
                    members_of(net, *ch, &mut r);
                    proof {
                        assert forall|u: UserId| #[trigger] r@.contains(u) <==> visible_to(*net, c@, u) by {
                            if u == *source {
                                assert(first[0] == u);
                            }
                        }
                    }
                },
            }
        },
        NetworkStateChange::ChannelJoin { membership, .. } => {
            r.push(membership.user);
            let ghost first = r@;
            members_of(net, membership.channel, &mut r);
            proof {
                assert forall|u: UserId| #[trigger] r@.contains(u) <==> visible_to(*net, c@, u) by {
                    if u == membership.user {
                        assert(first[0] == u);
                    }
                }
            }
        },
        NetworkStateChange::ChannelPart { membership, .. } => {
            r.push(membership.user);
            let ghost first = r@;
            members_of(net, membership.channel, &mut r);
            proof {
                assert forall|u: UserId| #[trigger] r@.contains(u) <==> visible_to(*net, c@, u) by {
                    if u == membership.user {
                        assert(first[0] == u);
                    }
                }
            }
        },
        NetworkStateChange::UserQuit { user, common, .. } => {
            r.push(*user);
            let ghost first = r@;
            push_ids(&mut r, common);
            proof {
                assert forall|u: UserId| #[trigger] r@.contains(u) <==> visible_to(*net, c@, u) by {
                    if u == *user {
                        assert(first[0] == u);
                    }
                }
            }
        },
        NetworkStateChange::UserNickChange { user, .. } => {
            r.push(*user);
            let ghost first = r@;
            let common = net.common_users_of(*user);
            push_ids(&mut r, &common);
            proof {
                assert forall|u: UserId| #[trigger] r@.contains(u) <==> visible_to(*net, c@, u) by {
                    if u == *user {
                        assert(first[0] == u);
                    }
                    if shares_channel(*net, *user, u) && u != *user {
                        assert(common@.contains(u));
                    }
                }
            }
        },
        NetworkStateChange::NewUser { user, .. } => {
            r.push(*user);
            proof {
                assert forall|u: UserId| #[trigger] r@.contains(u) <==> visible_to(*net, c@, u) by {
                    if u == *user {
                        assert(r@[0] == u);
                    }
                }
            }
        },
        _ => {},
    }
    r
}

/// An entry is found by `entries_for_user(u)` exactly when `u` could see its
/// change when it was recorded: `log` has just recorded change `c` in state
/// `net`, and `found` is what `entries_for_user(u)` returned.
pub proof fn lemma_history_visibility(log: HistoryLog, net: Network, c: Change, u: UserId, found: Seq<usize>)
    requires
        1 <= log.entries@.len() <= usize::MAX,
        forall|v: UserId| log.entries@.last().users@.contains(v) <==> visible_to(net, c, v),
        forall|k: int| 0 <= k < found.len() ==> found[k] < log.entries@.len() && entry_visible(log.entries@, found[k] as int, u),
        forall|i: int| 0 <= i < log.entries@.len() && entry_visible(log.entries@, i, u) ==> found.contains(i as usize),
    ensures
        found.contains((log.entries@.len() - 1) as usize) <==> visible_to(net, c, u),
{
    let last = log.entries@.len() - 1;
    assert(log.entries@.last() == log.entries@[last]);
    if found.contains(last as usize) {
        let k = choose|k: int| 0 <= k < found.len() && found[k] == last as usize;
        assert(entry_visible(log.entries@, found[k] as int, u));
    }
    if visible_to(net, c, u) {
        assert(entry_visible(log.entries@, last, u));
    }
}

/// The changes that the entries record, oldest first.
pub open spec fn details_of(entries: Seq<HistoryLogEntry>) -> Seq<Change> {
    entries.map_values(|e: HistoryLogEntry| e.details@)
}

/// The last `cap` elements of `s` (all, where there are fewer).
pub open spec fn last_cap<A>(s: Seq<A>, cap: int) -> Seq<A> {
    if s.len() > cap {
        s.skip(s.len() - cap)
    } else {
        s
    }
}

/// Cutting to the last `cap` before appending changes nothing once the
/// result is cut again.
pub proof fn lemma_last_cap_append<A>(s: Seq<A>, t: Seq<A>, cap: int)
    requires
        cap >= 0,
    ensures
        last_cap(last_cap(s, cap) + t, cap) == last_cap(s + t, cap),
{
    if s.len() > cap {
        let s2 = s.skip(s.len() - cap);
        let a = last_cap(s2 + t, cap);
        let b = last_cap(s + t, cap);
        assert(a.len() == b.len());
        assert forall|i: int| 0 <= i < a.len() implies a[i] == b[i] by {
            let d = (s + t).len() - cap;
            let d2 = (s2 + t).len() - cap;
            if d2 > 0 {
                assert(a[i] == (s2 + t)[d2 + i]);
            }
            assert(b[i] == (s + t)[d + i]);
            if d2 + i < s2.len() {
                assert((s2 + t)[d2 + i] == s2[d2 + i]);
            }
        }
        assert(a =~= b);
    }
}

impl HistoryLog {
    pub open spec fn wf(&self) -> bool {
        &&& self.capacity >= 1
        &&& self.entries@.len() <= self.capacity
    }

    /// An empty log holding at most `capacity` entries.
    pub fn new(capacity: usize) -> (r: HistoryLog)
        requires
            capacity >= 1,
        ensures
            r.wf(),
            r.entries@.len() == 0,
            r.capacity == capacity,
            r.next_id == 1,
    {
        HistoryLog { entries: Vec::new(), capacity, next_id: 1 }
    }

    /// Records change `c` of event `source_event`, made visible to the users
    /// that could see it in `net`, the state after the event. When the log is
    /// full the oldest entry leaves.
    pub fn add(&mut self, net: &Network, c: NetworkStateChange, timestamp: i64, source_event: EventId)
        requires
            old(self).wf(),
            net.wf(),
        ensures
            final(self).wf(),
            final(self).capacity == old(self).capacity,
            final(self).next_id == (if old(self).next_id < u64::MAX {
                old(self).next_id + 1
            } else {
                old(self).next_id as int
            }),
            final(self).entries@.drop_last() == (if old(self).entries@.len() == old(self).capacity {
                old(self).entries@.drop_first()
            } else {
                old(self).entries@
            }),
            final(self).entries@.len() >= 1,
            final(self).entries@.last().id == old(self).next_id,
            final(self).entries@.last().timestamp == timestamp,
            final(self).entries@.last().source_event == source_event,
            final(self).entries@.last().details@ == c@,
            forall|u: UserId| final(self).entries@.last().users@.contains(u) <==> visible_to(*net, c@, u),
            details_of(final(self).entries@) == last_cap(details_of(old(self).entries@).push(c@), old(self).capacity as int),
    {
        let users = affected_users(net, &c);
        let ghost before = self.entries@;
        if self.entries.len() == self.capacity {
            self.entries.remove(0);
        }
        let ghost mid = self.entries@;
        assert(mid == (if before.len() == self.capacity { before.drop_first() } else { before }));
        self.entries.push(HistoryLogEntry { id: self.next_id, timestamp, source_event, details: c, users });
        assert(self.entries@.drop_last() =~= mid);
        proof {
            let d0 = details_of(before);
            let d1 = details_of(self.entries@);
            let want = last_cap(d0.push(c@), self.capacity as int);
            assert(d1.len() == want.len());
            assert forall|i: int| 0 <= i < d1.len() implies d1[i] == want[i] by {
                if i < d1.len() - 1 {
                    assert(self.entries@[i] == mid[i]);
                    if before.len() == self.capacity {
                        assert(mid[i] == before[i + 1]);
                    } else {
                        assert(mid[i] == before[i]);
                    }
                }
            }
            assert(d1 =~= want);
        }
        if self.next_id < u64::MAX {
            self.next_id = self.next_id + 1;
        }
    }

    /// Drops, oldest first, the entries older than `cutoff`: the first entry
    /// left, if any, is at least that recent.
    pub fn expire(&mut self, cutoff: i64)
        requires
            old(self).wf(),
        ensures
            final(self).wf(),
            final(self).capacity == old(self).capacity,
            final(self).next_id == old(self).next_id,
            final(self).entries@.len() <= old(self).entries@.len(),
            final(self).entries@ == old(self).entries@.skip(old(self).entries@.len() - final(self).entries@.len()),
            forall|i: int|
                0 <= i < old(self).entries@.len() - final(self).entries@.len() ==> (#[trigger] old(self).entries@[i]).timestamp
                    < cutoff,
            final(self).entries@.len() > 0 ==> final(self).entries@[0].timestamp >= cutoff,
    {
        let ghost orig = self.entries@;
        while self.entries.len() > 0 && self.entries[0].timestamp < cutoff
            invariant
                self.wf(),
                self.capacity == old(self).capacity,
                self.next_id == old(self).next_id,
                orig == old(self).entries@,
                self.entries@.len() <= orig.len(),
                self.entries@ == orig.skip(orig.len() - self.entries@.len()),
                forall|i: int| 0 <= i < orig.len() - self.entries@.len() ==> (#[trigger] orig[i]).timestamp < cutoff,
            decreases self.entries@.len(),
        {
            let ghost before = self.entries@;
            self.entries.remove(0);
            assert(self.entries@ =~= orig.skip(orig.len() - self.entries@.len()));
            assert(before[0] == orig[orig.len() - before.len()]);
        }
    }

    /// Indices of the entries visible to `u`, oldest first.
    pub fn entries_for_user(&self, u: UserId) -> (r: Vec<usize>)
        ensures
            forall|k: int| 0 <= k < r@.len() ==> r@[k] < self.entries@.len() && entry_visible(self.entries@, r@[k] as int, u),
            forall|a: int, b: int| 0 <= a < b < r@.len() ==> r@[a] < r@[b],
            forall|i: int| 0 <= i < self.entries@.len() && entry_visible(self.entries@, i, u) ==> r@.contains(i as usize),
    {
        let mut r: Vec<usize> = Vec::new();
        let mut i: usize = 0;
        while i < self.entries.len()
            invariant
                i <= self.entries@.len(),
                forall|k: int| 0 <= k < r@.len() ==> r@[k] < i && entry_visible(self.entries@, r@[k] as int, u),
                forall|a: int, b: int| 0 <= a < b < r@.len() ==> r@[a] < r@[b],
                forall|j: int| 0 <= j < i && entry_visible(self.entries@, j, u) ==> r@.contains(j as usize),
            decreases self.entries@.len() - i,
        {
            if contains_id(&self.entries[i].users, u) {
                let ghost before = r@;
                r.push(i);
                proof {
                    assert forall|j: int| 0 <= j < i + 1 && entry_visible(self.entries@, j, u) implies r@.contains(j as usize) by {
                        if j < i {
                            let a = choose|a: int| 0 <= a < before.len() && before[a] == j as usize;
                            assert(r@[a] == j as usize);
                        } else {
                            assert(r@[r@.len() - 1] == i);
                        }
                    }
                }
            }
            i = i + 1;
        }
        r
    }

    /// Indices of the entries visible to `u`, newest first.
    pub fn entries_for_user_reverse(&self, u: UserId) -> (r: Vec<usize>)
        ensures
            forall|k: int| 0 <= k < r@.len() ==> r@[k] < self.entries@.len() && entry_visible(self.entries@, r@[k] as int, u),
            forall|a: int, b: int| 0 <= a < b < r@.len() ==> r@[a] > r@[b],
            forall|i: int| 0 <= i < self.entries@.len() && entry_visible(self.entries@, i, u) ==> r@.contains(i as usize),
    {
        let fwd = self.entries_for_user(u);
        let mut r: Vec<usize> = Vec::new();
        let mut k: usize = fwd.len();
        while k > 0
            invariant
                k <= fwd@.len(),
                r@.len() == fwd@.len() - k,
                forall|a: int| 0 <= a < r@.len() ==> r@[a] == fwd@[fwd@.len() - 1 - a],
            decreases k,
        {
            k = k - 1;
            r.push(fwd[k]);
        }
        proof {
            assert forall|i: int| 0 <= i < self.entries@.len() && entry_visible(self.entries@, i, u) implies r@.contains(i as usize) by {
                let a = choose|a: int| 0 <= a < fwd@.len() && fwd@[a] == i as usize;
                assert(r@[fwd@.len() - 1 - a] == fwd@[a]);
            }
        }
        r
    }
}

/// Appends `u` unless `out` already holds it.
pub fn push_unique(out: &mut Vec<UserId>, u: UserId)
    requires
        old(out)@.no_duplicates(),
    ensures
        final(out)@.no_duplicates(),
        forall|v: UserId| #[trigger] final(out)@.contains(v) <==> old(out)@.contains(v) || v == u,
{
    if !contains_id(out, u) {
        let ghost before = out@;
        out.push(u);
        proof {
            assert forall|a: int, b: int| 0 <= a < b < out@.len() implies out@[a] != out@[b] by {
                if b == out@.len() - 1 {
                    assert(out@[a] == before[a]);
                    assert(before.contains(before[a]));
                } else {
                    assert(out@[a] == before[a] && out@[b] == before[b]);
                }
            }
            assert forall|v: UserId| #[trigger] out@.contains(v) <==> before.contains(v) || v == u by {
                if out@.contains(v) && v != u {
                    let k = choose|k: int| 0 <= k < out@.len() && out@[k] == v;
                    assert(before[k] == v);
                }
                if before.contains(v) {
                    let k = choose|k: int| 0 <= k < before.len() && before[k] == v;
                    assert(out@[k] == v);
                }
                if v == u {
                    assert(out@[out@.len() - 1] == u);
                }
            }
        }
    }
}

/// The ids of `xs`, each once, in the order of their first appearance.
pub fn unique_ids(xs: &Vec<UserId>) -> (r: Vec<UserId>)
    ensures
        r@.no_duplicates(),
        forall|v: UserId| #[trigger] r@.contains(v) <==> xs@.contains(v),
{
    let mut r: Vec<UserId> = Vec::new();
    let mut i: usize = 0;
    while i < xs.len()
        invariant
            i <= xs@.len(),
            r@.no_duplicates(),
            forall|v: UserId| #[trigger] r@.contains(v) <==> xs@.take(i as int).contains(v),
        decreases xs@.len() - i,
    {
        push_unique(&mut r, xs[i]);
        proof {
            assert forall|v: UserId| #[trigger] r@.contains(v) <==> xs@.take(i + 1).contains(v) by {
                if xs@.take(i + 1).contains(v) {
                    let k = choose|k: int| 0 <= k < i + 1 && #[trigger] xs@.take(i + 1)[k] == v;
                    if k < i {
                        assert(xs@.take(i as int)[k] == v);
                    }
                }
                if xs@.take(i as int).contains(v) {
                    let k = choose|k: int| 0 <= k < i && #[trigger] xs@.take(i as int)[k] == v;
                    assert(xs@.take(i + 1)[k] == v);
                }
                if v == xs@[i as int] {
                    assert(xs@.take(i + 1)[i as int] == v);
                }
            }
        }
        i = i + 1;
    }
    assert(xs@.take(xs@.len() as int) =~= xs@);
    r
}

/// Is `u` in `xs`?
pub fn contains_id(xs: &Vec<UserId>, u: UserId) -> (r: bool)
    ensures
        r == xs@.contains(u),
{
    let mut i: usize = 0;
    while i < xs.len()
        invariant
            i <= xs@.len(),
            forall|j: int| 0 <= j < i ==> xs@[j] != u,
        decreases xs@.len() - i,
    {
        if xs[i] == u {
            assert(xs@[i as int] == u);
            return true;
        }
        i = i + 1;
    }
    false
}

} // verus!

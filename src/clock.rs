//! The vector clock `EventClock`: for each server, the highest event id seen
//! from it.
use vstd::prelude::*;
use crate::ids::{EventId, ServerId, local_le};

verus! {

/// The map that a sequence of entries stands for; a later entry for the same
/// server overrides an earlier one.
pub open spec fn map_of(s: Seq<EventId>) -> Map<ServerId, EventId>
    decreases s.len(),
{
    if s.len() == 0 {
        Map::empty()
    } else {
        map_of(s.drop_last()).insert(s.last().server, s.last())
    }
}

/// No two entries name the same server.
pub open spec fn servers_unique(s: Seq<EventId>) -> bool {
    forall|i: int, j: int| 0 <= i < j < s.len() ==> s[i].server != s[j].server
}

/// `clock` has seen `id`: its entry for `id.server` is at least `id`.
pub open spec fn clock_contains(clock: Map<ServerId, EventId>, id: EventId) -> bool {
    clock.contains_key(id.server) && local_le(id, clock[id.server])
}

/// `clock` after recording `id`: the entry for its server becomes the larger of
/// the two.
pub open spec fn clock_updated(clock: Map<ServerId, EventId>, id: EventId) -> Map<ServerId, EventId> {
    if clock_contains(clock, id) {
        clock
    } else {
        clock.insert(id.server, id)
    }
}

/// Every entry of `a` is covered by `b`.
pub open spec fn clock_le(a: Map<ServerId, EventId>, b: Map<ServerId, EventId>) -> bool {
    forall|k: ServerId| a.contains_key(k) ==> clock_contains(b, #[trigger] a[k])
}

/// Pointwise maximum.
pub open spec fn clock_merged(a: Map<ServerId, EventId>, b: Map<ServerId, EventId>) -> Map<ServerId, EventId> {
    Map::new(
        |k: ServerId| a.contains_key(k) || b.contains_key(k),
        |k: ServerId|
            if !a.contains_key(k) {
                b[k]
            } else if !b.contains_key(k) || local_le(b[k], a[k]) {
                a[k]
            } else {
                b[k]
            },
    )
}

pub proof fn lemma_map_of(s: Seq<EventId>)
    requires
        servers_unique(s),
    ensures
        forall|i: int|
            0 <= i < s.len() ==> map_of(s).contains_key(#[trigger] s[i].server) && map_of(s)[s[i].server]
                == s[i],
        forall|k: ServerId|
            #[trigger] map_of(s).contains_key(k) ==> exists|i: int| 0 <= i < s.len() && s[i].server == k,
        forall|k: ServerId| #[trigger] map_of(s).contains_key(k) ==> map_of(s)[k].server == k,
    decreases s.len(),
{
    if s.len() > 0 {
        let t = s.drop_last();
        lemma_map_of(t);
        assert forall|k: ServerId| #[trigger] map_of(s).contains_key(k) implies exists|i: int|
            0 <= i < s.len() && s[i].server == k by {
            if k != s.last().server {
                assert(map_of(s) == map_of(t).insert(s.last().server, s.last()));
                assert(map_of(t).contains_key(k));
                let i = choose|i: int| 0 <= i < t.len() && t[i].server == k;
                assert(t[i] == s[i]);
                assert(s[i].server == k);
            } else {
                assert(s[s.len() - 1].server == k);
            }
        }
        assert forall|i: int| 0 <= i < s.len() implies map_of(s).contains_key(#[trigger] s[i].server)
            && map_of(s)[s[i].server] == s[i] by {
            if i < s.len() - 1 {
                assert(s[i] == t[i]);
            }
        }
    }
}

proof fn lemma_map_of_set(s: Seq<EventId>, i: int, x: EventId)
    requires
        servers_unique(s),
        0 <= i < s.len(),
        s[i].server == x.server,
    ensures
        servers_unique(s.update(i, x)),
        map_of(s.update(i, x)) == map_of(s).insert(x.server, x),
{
    let t = s.update(i, x);
    assert(servers_unique(t));
    lemma_map_of(s);
    lemma_map_of(t);
    let m = map_of(s).insert(x.server, x);
    assert forall|k: ServerId| map_of(t).contains_key(k) <==> m.contains_key(k) by {
        if map_of(t).contains_key(k) {
            let j = choose|j: int| 0 <= j < t.len() && t[j].server == k;
            assert(s[j].server == k);
        }
        if map_of(s).contains_key(k) {
            let j = choose|j: int| 0 <= j < s.len() && s[j].server == k;
            assert(t[j].server == k);
        }
    }
    assert forall|k: ServerId| map_of(t).contains_key(k) implies map_of(t)[k] == m[k] by {
        let j = choose|j: int| 0 <= j < t.len() && t[j].server == k;
        assert(s[j].server == k);
    }
    assert(map_of(t) =~= m);
}

/// How two clocks relate.
#[derive(Clone, Copy, Debug, PartialEq, Eq, Structural)]
pub enum ClockOrder {
    Equal,
    Before,
    After,
    Concurrent,
}

/// `a` before `b`: covered by it and not equal; after: the other way round;
/// otherwise, unless equal, concurrent.
pub open spec fn clock_order(a: Map<ServerId, EventId>, b: Map<ServerId, EventId>) -> ClockOrder {
    if clock_le(a, b) && clock_le(b, a) {
        ClockOrder::Equal
    } else if clock_le(a, b) {
        ClockOrder::Before
    } else if clock_le(b, a) {
        ClockOrder::After
    } else {
        ClockOrder::Concurrent
    }
}

/// A vector clock. Entries are held one per server.
#[derive(Debug)]
pub struct EventClock {
    entries: Vec<EventId>,
}

impl View for EventClock {
    type V = Map<ServerId, EventId>;

    closed spec fn view(&self) -> Map<ServerId, EventId> {
        map_of(self.entries@)
    }
}

impl EventClock {
    /// Well-formedness: one entry per server.
    pub closed spec fn wf(&self) -> bool {
        servers_unique(self.entries@)
    }

    /// The entries, one per server, in the order they were first recorded.
    pub closed spec fn entries_view(&self) -> Seq<EventId> {
        self.entries@
    }

    /// The view is the map of the entries, and well-formedness means one
    /// entry per server.
    pub proof fn lemma_entries(&self)
        ensures
            self@ == map_of(self.entries_view()),
            self.wf() == servers_unique(self.entries_view()),
    {
    }

    /// The entries, in order.
    pub fn entries(&self) -> (r: &Vec<EventId>)
        ensures
            r@ == self.entries_view(),
    {
        &self.entries
    }

    /// Every entry of the view is keyed by its own server.
    pub proof fn lemma_keys(&self)
        requires
            self.wf(),
        ensures
            forall|k: ServerId| #[trigger] self@.contains_key(k) ==> self@[k].server == k,
    {
        lemma_map_of(self.entries@);
    }

    /// The empty clock.
    pub fn new() -> (r: EventClock)
        ensures
            r.wf(),
            r@ == Map::<ServerId, EventId>::empty(),
            r.entries_view().len() == 0,
    {
        EventClock { entries: Vec::new() }
    }

    /// A copy of this clock.
    pub fn copy(&self) -> (r: EventClock)
        requires
            self.wf(),
        ensures
            r.wf(),
            r@ == self@,
    {
        let mut entries: Vec<EventId> = Vec::new();
        let mut i: usize = 0;
        while i < self.entries.len()
            invariant
                i <= self.entries@.len(),
                entries@ == self.entries@.subrange(0, i as int),
            decreases self.entries@.len() - i,
        {
            entries.push(self.entries[i]);
            i = i + 1;
            assert(entries@ =~= self.entries@.subrange(0, i as int));
        }
        assert(entries@ =~= self.entries@);
        EventClock { entries }
    }

    fn index_of(&self, server: ServerId) -> (r: Option<usize>)
        requires
            self.wf(),
        ensures
            match r {
                Some(i) => i < self.entries@.len() && self.entries@[i as int].server == server,
                None => forall|j: int| 0 <= j < self.entries@.len() ==> self.entries@[j].server != server,
            },
    {
        let mut i: usize = 0;
        while i < self.entries.len()
            invariant
                i <= self.entries@.len(),
                forall|j: int| 0 <= j < i ==> self.entries@[j].server != server,
            decreases self.entries@.len() - i,
        {
            if self.entries[i].server == server {
                return Some(i);
            }
            i = i + 1;
        }
        None
    }

    /// The entry for `server`, if any.
    pub fn get(&self, server: ServerId) -> (r: Option<EventId>)
        requires
            self.wf(),
        ensures
            r == (if self@.contains_key(server) {
                Some(self@[server])
            } else {
                None::<EventId>
            }),
    {
        proof {
            lemma_map_of(self.entries@);
        }
        match self.index_of(server) {
            Some(i) => Some(self.entries[i]),
            None => None,
        }
    }

    /// Has this clock seen `id`?
    pub fn contains(&self, id: &EventId) -> (r: bool)
        requires
            self.wf(),
        ensures
            r == clock_contains(self@, *id),
    {
        match self.get(id.server) {
            Some(e) => id.local_le(&e),
            None => false,
        }
    }

    /// Records `id`: the entry for its server becomes the larger of the two.
    pub fn update(&mut self, id: EventId)
        requires
            old(self).wf(),
        ensures
            final(self).wf(),
            final(self)@ == clock_updated(old(self)@, id),
            !old(self)@.contains_key(id.server) ==> final(self).entries_view() == old(self).entries_view().push(id),
    {
        proof {
            lemma_map_of(self.entries@);
        }
        let ghost before = self.entries@;
        match self.index_of(id.server) {
            Some(i) => {
                assert(map_of(before).contains_key(id.server));
                if !id.local_le(&self.entries[i]) {
                    self.entries.set(i, id);
                    proof {
                        let after = self.entries@;
                        assert(after == before.update(i as int, id));
                        assert(servers_unique(after));
                        lemma_map_of_set(before, i as int, id);
                    }
                }
            },
            None => {
                self.entries.push(id);
                proof {
                    let after = self.entries@;
                    assert(after.drop_last() =~= before);
                    assert(servers_unique(after));
                }
            },
        }
    }

    /// Is every entry of this clock covered by `other`?
    pub fn le(&self, other: &EventClock) -> (r: bool)
        requires
            self.wf(),
            other.wf(),
        ensures
            r == clock_le(self@, other@),
    {
        proof {
            lemma_map_of(self.entries@);
        }
        let mut i: usize = 0;
        while i < self.entries.len()
            invariant
                self.wf(),
                other.wf(),
                i <= self.entries@.len(),
                forall|j: int| 0 <= j < i ==> clock_contains(other@, #[trigger] self.entries@[j]),
            decreases self.entries@.len() - i,
        {
            if !other.contains(&self.entries[i]) {
                proof {
                    lemma_map_of(self.entries@);
                    let k = self.entries@[i as int].server;
                    assert(self@.contains_key(k) && self@[k] == self.entries@[i as int]);
                }
                return false;
            }
            i = i + 1;
        }
        proof {
            assert forall|k: ServerId| self@.contains_key(k) implies clock_contains(
                other@,
                #[trigger] self@[k],
            ) by {
                let j = choose|j: int| 0 <= j < self.entries@.len() && self.entries@[j].server == k;
                assert(self@[k] == self.entries@[j]);
            }
        }
        true
    }

    /// Pointwise maximum of the two clocks.
    pub fn merge(&mut self, other: &EventClock)
        requires
            old(self).wf(),
            other.wf(),
        ensures
            final(self).wf(),
            final(self)@ == clock_merged(old(self)@, other@),
    {
        let ghost start = self@;
        let mut i: usize = 0;
        while i < other.entries.len()
            invariant
                self.wf(),
                other.wf(),
                i <= other.entries@.len(),
                self@ == clock_merged(start, map_of(other.entries@.subrange(0, i as int))),
            decreases other.entries@.len() - i,
        {
            let ghost pre = other.entries@.subrange(0, i as int);
            let ghost post = other.entries@.subrange(0, i + 1);
            let e = other.entries[i];
            self.update(e);
            proof {
                assert(post.drop_last() =~= pre);
                assert(servers_unique(pre));
                lemma_map_of(pre);
                assert(!map_of(pre).contains_key(e.server)) by {
                    if map_of(pre).contains_key(e.server) {
                        let j = choose|j: int| 0 <= j < pre.len() && pre[j].server == e.server;
                        assert(other.entries@[j].server == other.entries@[i as int].server);
                    }
                }
                assert(self@ =~= clock_merged(start, map_of(post)));
            }
            i = i + 1;
        }
        assert(other.entries@.subrange(0, other.entries@.len() as int) =~= other.entries@);
    }

    /// How this clock relates to `other`.
    pub fn compare(&self, other: &EventClock) -> (r: ClockOrder)
        requires
            self.wf(),
            other.wf(),
        ensures
            r == clock_order(self@, other@),
    {
        let le = self.le(other);
        let ge = other.le(self);
        if le && ge {
            ClockOrder::Equal
        } else if le {
            ClockOrder::Before
        } else if ge {
            ClockOrder::After
        } else {
            ClockOrder::Concurrent
        }
    }
}

} // verus!

//! Typed identifiers. Every event and object id has the shape
//! `(server, epoch, seq)` and is totally ordered lexicographically.
use vstd::prelude::*;

verus! {

/// A node of the network.
pub type ServerId = u64;

/// Incarnation counter of one node, bumped on restart without saved state.
pub type EpochId = u64;

/// Globally unique event identifier.
#[derive(Clone, Copy, Debug, PartialEq, Eq, Structural)]
pub struct EventId {
    pub server: ServerId,
    pub epoch: EpochId,
    pub seq: u64,
}

/// `(epoch, seq)` of `a` is at most that of `b` (the server is not compared).
pub open spec fn local_le(a: EventId, b: EventId) -> bool {
    a.epoch < b.epoch || (a.epoch == b.epoch && a.seq <= b.seq)
}

/// Lexicographic order on `(server, epoch, seq)`, strict.
pub open spec fn id_lt(a: EventId, b: EventId) -> bool {
    a.server < b.server || (a.server == b.server && (a.epoch < b.epoch || (a.epoch == b.epoch
        && a.seq < b.seq)))
}

impl EventId {
    pub fn new(server: ServerId, epoch: EpochId, seq: u64) -> (r: EventId)
        ensures
            r == (EventId { server, epoch, seq }),
    {
        EventId { server, epoch, seq }
    }

    /// Strict lexicographic comparison on `(server, epoch, seq)`.
    pub fn precedes(&self, other: &EventId) -> (r: bool)
        ensures
            r == id_lt(*self, *other),
    {
        self.server < other.server || (self.server == other.server && (self.epoch < other.epoch
            || (self.epoch == other.epoch && self.seq < other.seq)))
    }

    /// Comparison of `(epoch, seq)` only.
    pub fn local_le(&self, other: &EventId) -> (r: bool)
        ensures
            r == local_le(*self, *other),
    {
        self.epoch < other.epoch || (self.epoch == other.epoch && self.seq <= other.seq)
    }
}

/// A user, named by the id of the event that created it.
#[derive(Clone, Copy, Debug, PartialEq, Eq, Structural)]
pub struct UserId(pub EventId);

/// A channel, named by the id of the event that created it.
#[derive(Clone, Copy, Debug, PartialEq, Eq, Structural)]
pub struct ChannelId(pub EventId);

/// A message, named by the id of the event that created it.
#[derive(Clone, Copy, Debug, PartialEq, Eq, Structural)]
pub struct MessageId(pub EventId);

/// A membership is the pair of its user and its channel.
#[derive(Clone, Copy, Debug, PartialEq, Eq, Structural)]
pub struct MembershipId {
    pub user: UserId,
    pub channel: ChannelId,
}

/// Target of an event.
#[derive(Clone, Copy, Debug, PartialEq, Eq, Structural)]
pub enum ObjectId {
    User(UserId),
    Channel(ChannelId),
    Membership(MembershipId),
    Message(MessageId),
    Server(ServerId),
}

} // verus!

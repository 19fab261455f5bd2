//! Events: the records that change network state.
use vstd::prelude::*;
use crate::ids::{ChannelId, EpochId, EventId, ObjectId, UserId};
use crate::clock::EventClock;

verus! {

/// What an event does. Names and texts are raw bytes, as on the wire.
#[derive(Debug)]
pub enum EventDetails {
    /// Creates the target user with the given nickname.
    NewUser { nickname: Vec<u8> },
    /// Renames the target user.
    UserNickChange { new_nick: Vec<u8> },
    /// Removes the target user and its memberships.
    UserQuit { message: Vec<u8> },
    /// Creates the target channel.
    NewChannel { name: Vec<u8> },
    /// Creates the target membership.
    ChannelJoin { user: UserId, channel: ChannelId },
    /// Removes the target membership.
    ChannelPart { message: Vec<u8> },
    /// A message from a user to a user or a channel.
    NewMessage { source: UserId, target: ObjectId, text: Vec<u8> },
    /// The target server joined the network at the given epoch.
    NewServer { epoch: EpochId },
    /// The target server, at the given epoch, left the network.
    ServerQuit { epoch: EpochId },
}

/// One state-mutating record.
#[derive(Debug)]
pub struct Event {
    pub id: EventId,
    pub timestamp: i64,
    /// The events that the originator had seen.
    pub clock: EventClock,
    pub target: ObjectId,
    pub details: EventDetails,
}

/// The mathematical form of `EventDetails`.
pub enum DetailsView {
    NewUser { nickname: Seq<u8> },
    UserNickChange { new_nick: Seq<u8> },
    UserQuit { message: Seq<u8> },
    NewChannel { name: Seq<u8> },
    ChannelJoin { user: UserId, channel: ChannelId },
    ChannelPart { message: Seq<u8> },
    NewMessage { source: UserId, target: ObjectId, text: Seq<u8> },
    NewServer { epoch: EpochId },
    ServerQuit { epoch: EpochId },
}

impl View for EventDetails {
    type V = DetailsView;

    open spec fn view(&self) -> DetailsView {
        match self {
            EventDetails::NewUser { nickname } => DetailsView::NewUser { nickname: nickname@ },
            EventDetails::UserNickChange { new_nick } => DetailsView::UserNickChange { new_nick: new_nick@ },
            EventDetails::UserQuit { message } => DetailsView::UserQuit { message: message@ },
            EventDetails::NewChannel { name } => DetailsView::NewChannel { name: name@ },
            EventDetails::ChannelJoin { user, channel } => DetailsView::ChannelJoin { user: *user, channel: *channel },
            EventDetails::ChannelPart { message } => DetailsView::ChannelPart { message: message@ },
            EventDetails::NewMessage { source, target, text } => DetailsView::NewMessage {
                source: *source,
                target: *target,
                text: text@,
            },
            EventDetails::NewServer { epoch } => DetailsView::NewServer { epoch: *epoch },
            EventDetails::ServerQuit { epoch } => DetailsView::ServerQuit { epoch: *epoch },
        }
    }
}

/// The mathematical form of an `Event`; the clock is given by its entries.
pub struct EventView {
    pub id: EventId,
    pub timestamp: i64,
    pub clock: Seq<EventId>,
    pub target: ObjectId,
    pub details: DetailsView,
}

impl View for Event {
    type V = EventView;

    open spec fn view(&self) -> EventView {
        EventView {
            id: self.id,
            timestamp: self.timestamp,
            clock: self.clock.entries_view(),
            target: self.target,
            details: self.details@,
        }
    }
}

impl Event {
    pub open spec fn wf(&self) -> bool {
        self.clock.wf()
    }
}

/// An update to be applied by the event log.
#[derive(Debug)]
pub enum EventLogUpdate {
    /// Create and apply a new event; the log stamps id, clock and time.
    NewEvent(ObjectId, EventDetails),
    /// Future events of this server carry the new epoch.
    EpochUpdate(EpochId),
}

} // verus!

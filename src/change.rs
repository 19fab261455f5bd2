//! `NetworkStateChange`: the notifications that applying an event produces.
use vstd::prelude::*;
use crate::ids::{ChannelId, EpochId, EventId, MembershipId, MessageId, ServerId, UserId};
use crate::text::copy_bytes;

verus! {

/// Where a message went, with the name of the recipient at the time.
#[derive(Debug)]
pub enum MessageTarget {
    User(UserId, Vec<u8>),
    Channel(ChannelId, Vec<u8>),
}

/// An observable effect of an event.
#[derive(Debug)]
pub enum NetworkStateChange {
    NewUser { user: UserId, nick: Vec<u8> },
    UserNickChange { user: UserId, old_nick: Vec<u8>, new_nick: Vec<u8> },
    /// `common` lists, once each, the other users that shared a channel with
    /// the one that left.
    UserQuit { user: UserId, nick: Vec<u8>, message: Vec<u8>, common: Vec<UserId> },
    BulkUserQuit { users: Vec<UserId> },
    NewChannel { channel: ChannelId, name: Vec<u8> },
    ChannelJoin { membership: MembershipId, nick: Vec<u8>, channel_name: Vec<u8> },
    ChannelPart { membership: MembershipId, nick: Vec<u8>, channel_name: Vec<u8>, message: Vec<u8> },
    NewMessage {
        message: MessageId,
        source: UserId,
        source_nick: Vec<u8>,
        target: MessageTarget,
        text: Vec<u8>,
    },
    NewServer { server: ServerId, epoch: EpochId },
    ServerQuit { server: ServerId, epoch: EpochId },
    /// The event referred to missing or conflicting state and had no effect.
    EventDropped { event: EventId },
}

/// The mathematical form of a `MessageTarget`.
pub enum TargetView {
    User(UserId, Seq<u8>),
    Channel(ChannelId, Seq<u8>),
}

/// The mathematical form of a `NetworkStateChange`.
pub enum Change {
    NewUser { user: UserId, nick: Seq<u8> },
    UserNickChange { user: UserId, old_nick: Seq<u8>, new_nick: Seq<u8> },
    UserQuit { user: UserId, nick: Seq<u8>, message: Seq<u8>, common: Seq<UserId> },
    BulkUserQuit { users: Seq<UserId> },
    NewChannel { channel: ChannelId, name: Seq<u8> },
    ChannelJoin { membership: MembershipId, nick: Seq<u8>, channel_name: Seq<u8> },
    ChannelPart { membership: MembershipId, nick: Seq<u8>, channel_name: Seq<u8>, message: Seq<u8> },
    NewMessage { message: MessageId, source: UserId, source_nick: Seq<u8>, target: TargetView, text: Seq<u8> },
    NewServer { server: ServerId, epoch: EpochId },
    ServerQuit { server: ServerId, epoch: EpochId },
    EventDropped { event: EventId },
}

impl View for MessageTarget {
    type V = TargetView;

    open spec fn view(&self) -> TargetView {
        match self {
            MessageTarget::User(u, n) => TargetView::User(*u, n@),
            MessageTarget::Channel(c, n) => TargetView::Channel(*c, n@),
        }
    }
}

impl View for NetworkStateChange {
    type V = Change;

    open spec fn view(&self) -> Change {
        match self {
            NetworkStateChange::NewUser { user, nick } => Change::NewUser { user: *user, nick: nick@ },
            NetworkStateChange::UserNickChange { user, old_nick, new_nick } => Change::UserNickChange {
                user: *user,
                old_nick: old_nick@,
                new_nick: new_nick@,
            },
            NetworkStateChange::UserQuit { user, nick, message, common } => Change::UserQuit {
                user: *user,
                nick: nick@,
                message: message@,
                common: common@,
            },
            NetworkStateChange::BulkUserQuit { users } => Change::BulkUserQuit { users: users@ },
            NetworkStateChange::NewChannel { channel, name } => Change::NewChannel {
                channel: *channel,
                name: name@,
            },
            NetworkStateChange::ChannelJoin { membership, nick, channel_name } => Change::ChannelJoin {
                membership: *membership,
                nick: nick@,
                channel_name: channel_name@,
            },
            NetworkStateChange::ChannelPart { membership, nick, channel_name, message } =>
                Change::ChannelPart {
                membership: *membership,
                nick: nick@,
                channel_name: channel_name@,
                message: message@,
            },
            NetworkStateChange::NewMessage { message, source, source_nick, target, text } =>
                Change::NewMessage {
                message: *message,
                source: *source,
                source_nick: source_nick@,
                target: target@,
                text: text@,
            },
            NetworkStateChange::NewServer { server, epoch } => Change::NewServer {
                server: *server,
                epoch: *epoch,
            },
            NetworkStateChange::ServerQuit { server, epoch } => Change::ServerQuit {
                server: *server,
                epoch: *epoch,
            },
            NetworkStateChange::EventDropped { event } => Change::EventDropped { event: *event },
        }
    }
}

/// The views of a list of changes.
pub open spec fn changes_view(s: Seq<NetworkStateChange>) -> Seq<Change> {
    s.map_values(|c: NetworkStateChange| c@)
}


/// A copy of a list of user ids.
pub fn copy_ids(v: &Vec<UserId>) -> (r: Vec<UserId>)
    ensures
        r@ == v@,
{
    let mut r: Vec<UserId> = Vec::new();
    let mut i: usize = 0;
    while i < v.len()
        invariant
            i <= v@.len(),
            r@ == v@.take(i as int),
        decreases v@.len() - i,
    {
        r.push(v[i]);
        i = i + 1;
        assert(r@ =~= v@.take(i as int));
    }
    assert(v@.take(v@.len() as int) =~= v@);
    r
}

impl MessageTarget {
    pub fn copy(&self) -> (r: MessageTarget)
        ensures
            r@ == self@,
    {
        match self {
            MessageTarget::User(u, n) => MessageTarget::User(*u, copy_bytes(n.as_slice())),
            MessageTarget::Channel(c, n) => MessageTarget::Channel(*c, copy_bytes(n.as_slice())),
        }
    }
}

impl NetworkStateChange {
    /// A copy of this change.
    pub fn copy(&self) -> (r: NetworkStateChange)
        ensures
            r@ == self@,
    {
        match self {
            NetworkStateChange::NewUser { user, nick } => NetworkStateChange::NewUser { user: *user, nick: copy_bytes(nick.as_slice()) },
            NetworkStateChange::UserNickChange { user, old_nick, new_nick } => NetworkStateChange::UserNickChange {
                user: *user,
                old_nick: copy_bytes(old_nick.as_slice()),
                new_nick: copy_bytes(new_nick.as_slice()),
            },
            NetworkStateChange::UserQuit { user, nick, message, common } => NetworkStateChange::UserQuit {
                user: *user,
                nick: copy_bytes(nick.as_slice()),
                message: copy_bytes(message.as_slice()),
                common: copy_ids(common),
            },
            NetworkStateChange::BulkUserQuit { users } => NetworkStateChange::BulkUserQuit { users: copy_ids(users) },
            NetworkStateChange::NewChannel { channel, name } => NetworkStateChange::NewChannel {
                channel: *channel,
                name: copy_bytes(name.as_slice()),
            },
            NetworkStateChange::ChannelJoin { membership, nick, channel_name } => NetworkStateChange::ChannelJoin {
                membership: *membership,
                nick: copy_bytes(nick.as_slice()),
                channel_name: copy_bytes(channel_name.as_slice()),
            },
            NetworkStateChange::ChannelPart { membership, nick, channel_name, message } =>
                NetworkStateChange::ChannelPart {
                membership: *membership,
                nick: copy_bytes(nick.as_slice()),
                channel_name: copy_bytes(channel_name.as_slice()),
                message: copy_bytes(message.as_slice()),
            },
            NetworkStateChange::NewMessage { message, source, source_nick, target, text } =>
                NetworkStateChange::NewMessage {
                message: *message,
                source: *source,
                source_nick: copy_bytes(source_nick.as_slice()),
                target: target.copy(),
                text: copy_bytes(text.as_slice()),
            },
            NetworkStateChange::NewServer { server, epoch } => NetworkStateChange::NewServer { server: *server, epoch: *epoch },
            NetworkStateChange::ServerQuit { server, epoch } => NetworkStateChange::ServerQuit { server: *server, epoch: *epoch },
            NetworkStateChange::EventDropped { event } => NetworkStateChange::EventDropped { event: *event },
        }
    }
}

} // verus!

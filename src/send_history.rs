//! Replay of history entries as client protocol messages.
use vstd::prelude::*;
use crate::ids::UserId;
use crate::change::{Change, MessageTarget, NetworkStateChange, TargetView};
use crate::history::HistoryLogEntry;
use crate::text::copy_bytes;

verus! {

/// A client protocol message replayed from history.
#[derive(Debug)]
pub enum ClientMessage {
    Nick { source: UserId, new_nick: Vec<u8> },
    Quit { source: UserId, message: Vec<u8> },
    Join { source: UserId, channel_name: Vec<u8> },
    Part { source: UserId, channel_name: Vec<u8>, message: Vec<u8> },
    Message { source: UserId, target: MessageTarget, text: Vec<u8> },
}

/// A replayed message, tagged with the time of its entry. One marked
/// `echo` reaches the client only where it asked for its own messages back.
#[derive(Debug)]
pub struct Replayed {
    pub message: ClientMessage,
    pub time: i64,
    pub echo: bool,
}

/// The mathematical form of a `ClientMessage`.
pub enum ClientMessageView {
    Nick { source: UserId, new_nick: Seq<u8> },
    Quit { source: UserId, message: Seq<u8> },
    Join { source: UserId, channel_name: Seq<u8> },
    Part { source: UserId, channel_name: Seq<u8>, message: Seq<u8> },
    Message { source: UserId, target: TargetView, text: Seq<u8> },
}

impl View for ClientMessage {
    type V = ClientMessageView;

    open spec fn view(&self) -> ClientMessageView {
        match self {
            ClientMessage::Nick { source, new_nick } => ClientMessageView::Nick { source: *source, new_nick: new_nick@ },
            ClientMessage::Quit { source, message } => ClientMessageView::Quit { source: *source, message: message@ },
            ClientMessage::Join { source, channel_name } => ClientMessageView::Join {
                source: *source,
                channel_name: channel_name@,
            },
            ClientMessage::Part { source, channel_name, message } => ClientMessageView::Part {
                source: *source,
                channel_name: channel_name@,
                message: message@,
            },
            ClientMessage::Message { source, target, text } => ClientMessageView::Message {
                source: *source,
                target: target@,
                text: text@,
            },
        }
    }
}

/// What a change replays as, to user `u`: nick changes, quits, joins, parts
/// and messages have a message each; the rest replay as nothing. A message
/// that `u` sent to someone else is an echo.
pub open spec fn replay_of(c: Change, u: UserId) -> Option<(ClientMessageView, bool)> {
    match c {
        Change::UserNickChange { user, new_nick, .. } => Some((ClientMessageView::Nick { source: user, new_nick }, false)),
        Change::UserQuit { user, message, .. } => Some((ClientMessageView::Quit { source: user, message }, false)),
        Change::ChannelJoin { membership, channel_name, .. } => Some((
            ClientMessageView::Join { source: membership.user, channel_name },
            false,
        )),
        Change::ChannelPart { membership, channel_name, message, .. } => Some((
            ClientMessageView::Part { source: membership.user, channel_name, message },
            false,
        )),
        Change::NewMessage { source, target, text, .. } => Some((
            ClientMessageView::Message { source, target, text },
            u == source && !(target matches TargetView::User(v, _) && v == source),
        )),
        _ => None,
    }
}

impl HistoryLogEntry {
    /// The message that replays this entry to user `for_user`, if any.
    pub fn send_to(&self, for_user: UserId) -> (r: Option<Replayed>)
        ensures
            match (r, replay_of(self.details@, for_user)) {
                (Some(m), Some((v, echo))) => m.message@ == v && m.echo == echo && m.time == self.timestamp,
                (None, None) => true,
                _ => false,
            },
    {
        let message = match &self.details {
            NetworkStateChange::UserNickChange { user, new_nick, .. } => ClientMessage::Nick {
                source: *user,
                new_nick: copy_bytes(new_nick.as_slice()),
            },
            NetworkStateChange::UserQuit { user, message, .. } => ClientMessage::Quit {
                source: *user,
                message: copy_bytes(message.as_slice()),
            },
            NetworkStateChange::ChannelJoin { membership, channel_name, .. } => ClientMessage::Join {
                source: membership.user,
                channel_name: copy_bytes(channel_name.as_slice()),
            },
            NetworkStateChange::ChannelPart { membership, channel_name, message, .. } => ClientMessage::Part {
                source: membership.user,
                channel_name: copy_bytes(channel_name.as_slice()),
                message: copy_bytes(message.as_slice()),
            },
            NetworkStateChange::NewMessage { source, target, text, .. } => ClientMessage::Message {
                source: *source,
                target: target.copy(),
                text: copy_bytes(text.as_slice()),
            },
            _ => {
                return None;
            },
        };
        let echo = match &self.details {
            NetworkStateChange::NewMessage { source, target, .. } => for_user == *source && !(match target {
                MessageTarget::User(v, _) => *v == *source,
                MessageTarget::Channel(..) => false,
            }),
            _ => false,
        };
        Some(Replayed { message, time: self.timestamp, echo })
    }
}

} // verus!

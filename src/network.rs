//! The network state: users, channels, memberships and servers, held as tables
//! keyed by typed ids, and the reducer that applies events to it.
use vstd::prelude::*;
use crate::ids::{ChannelId, EpochId, EventId, MembershipId, MessageId, ObjectId, ServerId, UserId, id_lt};
use crate::text::{copy_bytes, normalise, push_all, push_decimal, same_name, decimal};
use crate::change::{Change, MessageTarget, NetworkStateChange, TargetView, changes_view};
use crate::event::{Event, EventDetails};

verus! {

/// A connected user.
#[derive(Debug)]
pub struct User {
    pub id: UserId,
    pub nick: Vec<u8>,
    /// The event that gave the user its nickname; the earlier claim keeps a
    /// contested nickname.
    pub nick_claim: EventId,
}

/// A channel.
#[derive(Debug)]
pub struct Channel {
    pub id: ChannelId,
    pub name: Vec<u8>,
}

/// A live server and the epoch it runs at.
#[derive(Clone, Copy, Debug, PartialEq, Eq, Structural)]
pub struct ServerMeta {
    pub id: ServerId,
    pub epoch: EpochId,
}

/// A channel that lost a creation race, and the channel it was merged into.
#[derive(Clone, Copy, Debug, PartialEq, Eq, Structural)]
pub struct ChannelAlias {
    pub from: ChannelId,
    pub into: ChannelId,
}

/// The whole replicated state.
#[derive(Debug)]
pub struct Network {
    pub users: Vec<User>,
    pub channels: Vec<Channel>,
    pub memberships: Vec<MembershipId>,
    pub servers: Vec<ServerMeta>,
    /// Channels merged away, each pointing at a live channel.
    pub merged: Vec<ChannelAlias>,
}

pub open spec fn has_user(users: Seq<User>, id: UserId) -> bool {
    exists|i: int| 0 <= i < users.len() && (#[trigger] users[i]).id == id
}

pub open spec fn has_channel(channels: Seq<Channel>, id: ChannelId) -> bool {
    exists|i: int| 0 <= i < channels.len() && (#[trigger] channels[i]).id == id
}

/// Some user's nickname equals `nick` under the case mapping.
pub open spec fn nick_taken(users: Seq<User>, nick: Seq<u8>) -> bool {
    exists|i: int| 0 <= i < users.len() && normalise((#[trigger] users[i]).nick@) == normalise(nick)
}

/// The nickname of user `id`.
pub open spec fn nick_of(users: Seq<User>, id: UserId) -> Seq<u8> {
    users[choose|i: int| 0 <= i < users.len() && (#[trigger] users[i]).id == id].nick@
}

/// The name of channel `id`.
pub open spec fn name_of(channels: Seq<Channel>, id: ChannelId) -> Seq<u8> {
    channels[choose|i: int| 0 <= i < channels.len() && (#[trigger] channels[i]).id == id].name@
}

/// The nickname a user falls back to after losing a clash:
/// `nick_server_epoch_seq` over its own id.
pub open spec fn fallback_nick(nick: Seq<u8>, id: UserId) -> Seq<u8> {
    nick + seq![95u8] + decimal(id.0.server as nat) + seq![95u8] + decimal(id.0.epoch as nat) + seq![95u8]
        + decimal(id.0.seq as nat)
}

/// No two users share an id, and no two share a nickname under the case
/// mapping.
pub open spec fn users_wf(users: Seq<User>) -> bool {
    &&& forall|i: int, j: int| 0 <= i < j < users.len() ==> (#[trigger] users[i]).id != (#[trigger] users[j]).id
    &&& forall|i: int, j: int|
        0 <= i < j < users.len() ==> normalise((#[trigger] users[i]).nick@) != normalise(
            (#[trigger] users[j]).nick@,
        )
}

/// No two channels share an id, and no two share a name under the case
/// mapping.
pub open spec fn channels_wf(channels: Seq<Channel>) -> bool {
    &&& forall|i: int, j: int| 0 <= i < j < channels.len() ==> (#[trigger] channels[i]).id != (#[trigger] channels[j]).id
    &&& forall|i: int, j: int|
        0 <= i < j < channels.len() ==> normalise((#[trigger] channels[i]).name@) != normalise(
            (#[trigger] channels[j]).name@,
        )
}

/// Each merged channel is gone, points at a live channel, and is listed once.
pub open spec fn merged_wf(net: Network) -> bool {
    &&& forall|k: int|
        0 <= k < net.merged@.len() ==> has_channel(net.channels@, (#[trigger] net.merged@[k]).into) && !has_channel(
            net.channels@,
            net.merged@[k].from,
        )
    &&& forall|i: int, j: int| 0 <= i < j < net.merged@.len() ==> (#[trigger] net.merged@[i]).from != (#[trigger] net.merged@[j]).from
}

/// Where events naming channel `c` go: the channel it was merged into, if
/// any, else `c` itself.
pub open spec fn resolve(net: Network, c: ChannelId) -> ChannelId {
    if exists|k: int| 0 <= k < net.merged@.len() && (#[trigger] net.merged@[k]).from == c {
        net.merged@[choose|k: int| 0 <= k < net.merged@.len() && (#[trigger] net.merged@[k]).from == c].into
    } else {
        c
    }
}

/// Every membership joins an existing user to an existing channel, once.
pub open spec fn memberships_wf(net: Network) -> bool {
    &&& forall|k: int|
        0 <= k < net.memberships@.len() ==> has_user(net.users@, (#[trigger] net.memberships@[k]).user)
            && has_channel(net.channels@, net.memberships@[k].channel)
    &&& forall|i: int, j: int|
        0 <= i < j < net.memberships@.len() ==> (#[trigger] net.memberships@[i]) != (#[trigger] net.memberships@[j])
}

pub open spec fn servers_wf(servers: Seq<ServerMeta>) -> bool {
    forall|i: int, j: int| 0 <= i < j < servers.len() ==> (#[trigger] servers[i]).id != (#[trigger] servers[j]).id
}

/// The two states hold the same tables.
pub open spec fn same_state(a: Network, b: Network) -> bool {
    &&& a.users@ == b.users@
    &&& a.channels@ == b.channels@
    &&& a.memberships@ == b.memberships@
    &&& a.servers@ == b.servers@
    &&& a.merged@ == b.merged@
}

/// The outcome of an event that had no effect.
pub open spec fn dropped(old: Network, new: Network, eid: EventId, ch: Seq<Change>) -> bool {
    same_state(old, new) && ch == seq![Change::EventDropped { event: eid }]
}

/// Some channel's name equals `name` under the case mapping.
pub open spec fn name_taken(channels: Seq<Channel>, name: Seq<u8>) -> bool {
    exists|i: int| 0 <= i < channels.len() && normalise((#[trigger] channels[i]).name@) == normalise(name)
}

/// The index of the channel named `name` (meaningful when `name_taken`).
pub open spec fn name_holder(channels: Seq<Channel>, name: Seq<u8>) -> int {
    choose|i: int| 0 <= i < channels.len() && normalise((#[trigger] channels[i]).name@) == normalise(name)
}

/// Channel `c` was merged away.
pub open spec fn is_merged(net: Network, c: ChannelId) -> bool {
    exists|k: int| 0 <= k < net.merged@.len() && (#[trigger] net.merged@[k]).from == c
}

/// A membership of channel `d` moves to channel `c`; others stay.
pub open spec fn migrated(m: MembershipId, d: ChannelId, c: ChannelId) -> MembershipId {
    if m.channel == d {
        MembershipId { user: m.user, channel: c }
    } else {
        m
    }
}

/// An alias into `d` now points into `c`.
pub open spec fn redirected(a: ChannelAlias, d: ChannelId, c: ChannelId) -> ChannelAlias {
    if a.into == d {
        ChannelAlias { from: a.from, into: c }
    } else {
        a
    }
}

/// The joins that announce the members of `d` in `c`, named `name`, in the
/// order of the memberships `ms`.
pub open spec fn migration_joins(users: Seq<User>, ms: Seq<MembershipId>, d: ChannelId, c: ChannelId, name: Seq<u8>) -> Seq<Change>
    decreases ms.len(),
{
    if ms.len() == 0 {
        Seq::empty()
    } else {
        let prev = migration_joins(users, ms.drop_last(), d, c, name);
        let m = ms.last();
        if m.channel == d {
            prev.push(
                Change::ChannelJoin {
                    membership: MembershipId { user: m.user, channel: c },
                    nick: nick_of(users, m.user),
                    channel_name: name,
                },
            )
        } else {
            prev
        }
    }
}

/// `NewChannel`: creates channel `c`. Where another channel `d` has the name,
/// the earlier id wins: if `c` does, it takes `d`'s place, `d`'s members move
/// to it (announced by joins) and `d` becomes an alias of `c`; else `c`
/// becomes an alias of `d`. An id already in use, as a channel or an alias,
/// is dropped.
pub open spec fn new_channel_effect(old: Network, new: Network, eid: EventId, c: ChannelId, name: Seq<u8>, ch: Seq<Change>) -> bool {
    if has_channel(old.channels@, c) || is_merged(old, c) {
        dropped(old, new, eid, ch)
    } else if !name_taken(old.channels@, name) {
        &&& new.users@ == old.users@
        &&& new.memberships@ == old.memberships@
        &&& new.servers@ == old.servers@
        &&& new.merged@ == old.merged@
        &&& new.channels@.len() == old.channels@.len() + 1
        &&& new.channels@.drop_last() == old.channels@
        &&& new.channels@.last().id == c
        &&& new.channels@.last().name@ == name
        &&& ch == seq![Change::NewChannel { channel: c, name }]
    } else {
        let j = name_holder(old.channels@, name);
        let d = old.channels@[j].id;
        if id_lt(c.0, d.0) {
            &&& new.users@ == old.users@
            &&& new.servers@ == old.servers@
            &&& new.channels@.len() == old.channels@.len()
            &&& forall|i: int| 0 <= i < old.channels@.len() && i != j ==> new.channels@[i] == old.channels@[i]
            &&& new.channels@[j].id == c
            &&& new.channels@[j].name@ == name
            &&& new.memberships@ == old.memberships@.map_values(|x: MembershipId| migrated(x, d, c))
            &&& new.merged@ == old.merged@.map_values(|a: ChannelAlias| redirected(a, d, c)).push(
                ChannelAlias { from: d, into: c },
            )
            &&& ch == seq![Change::NewChannel { channel: c, name }] + migration_joins(
                old.users@,
                old.memberships@,
                d,
                c,
                name,
            )
        } else {
            &&& new.users@ == old.users@
            &&& new.channels@ == old.channels@
            &&& new.memberships@ == old.memberships@
            &&& new.servers@ == old.servers@
            &&& new.merged@ == old.merged@.push(ChannelAlias { from: c, into: d })
            &&& ch.len() == 0
        }
    }
}

/// `ChannelJoin`: adds the membership of an existing user in an existing
/// channel (reached through `resolve`), unless it is already there or the
/// target names other endpoints.
pub open spec fn join_effect(
    old: Network,
    new: Network,
    eid: EventId,
    m: MembershipId,
    user: UserId,
    channel: ChannelId,
    ch: Seq<Change>,
) -> bool {
    let c = resolve(old, channel);
    let m2 = MembershipId { user, channel: c };
    if m.user == user && m.channel == channel && has_user(old.users@, user) && has_channel(old.channels@, c)
        && !old.memberships@.contains(m2) {
        &&& new.users@ == old.users@
        &&& new.channels@ == old.channels@
        &&& new.merged@ == old.merged@
        &&& new.servers@ == old.servers@
        &&& new.memberships@ == old.memberships@.push(m2)
        &&& ch == seq![
            Change::ChannelJoin {
                membership: m2,
                nick: nick_of(old.users@, user),
                channel_name: name_of(old.channels@, c),
            },
        ]
    } else {
        dropped(old, new, eid, ch)
    }
}

/// `ChannelPart`: removes the membership, its channel reached through
/// `resolve`, if present.
pub open spec fn part_effect(old: Network, new: Network, eid: EventId, m: MembershipId, message: Seq<u8>, ch: Seq<Change>) -> bool {
    let m2 = MembershipId { user: m.user, channel: resolve(old, m.channel) };
    if old.memberships@.contains(m2) {
        &&& new.users@ == old.users@
        &&& new.channels@ == old.channels@
        &&& new.merged@ == old.merged@
        &&& new.servers@ == old.servers@
        &&& new.memberships@.len() == old.memberships@.len() - 1
        &&& forall|x: MembershipId| new.memberships@.contains(x) <==> old.memberships@.contains(x) && x != m2
        &&& ch == seq![
            Change::ChannelPart {
                membership: m2,
                nick: nick_of(old.users@, m2.user),
                channel_name: name_of(old.channels@, m2.channel),
                message,
            },
        ]
    } else {
        dropped(old, new, eid, ch)
    }
}

/// A message to a merged channel goes to the channel it was merged into.
pub open spec fn resolve_target(old: Network, target: ObjectId) -> ObjectId {
    match target {
        ObjectId::Channel(c) => ObjectId::Channel(resolve(old, c)),
        _ => target,
    }
}

/// The recipient of a message exists.
pub open spec fn target_exists(old: Network, target: ObjectId) -> bool {
    match target {
        ObjectId::User(v) => has_user(old.users@, v),
        ObjectId::Channel(c) => has_channel(old.channels@, c),
        _ => false,
    }
}

/// The recipient with its current name.
pub open spec fn target_view(old: Network, target: ObjectId) -> TargetView {
    match target {
        ObjectId::User(v) => TargetView::User(v, nick_of(old.users@, v)),
        ObjectId::Channel(c) => TargetView::Channel(c, name_of(old.channels@, c)),
        _ => TargetView::User(UserId(EventId { server: 0, epoch: 0, seq: 0 }), Seq::empty()),
    }
}

/// `NewMessage`: changes nothing; reports the message when its source and
/// recipient exist.
pub open spec fn message_effect(
    old: Network,
    new: Network,
    eid: EventId,
    mid: MessageId,
    source: UserId,
    target: ObjectId,
    text: Seq<u8>,
    ch: Seq<Change>,
) -> bool {
    let t = resolve_target(old, target);
    if has_user(old.users@, source) && target_exists(old, t) {
        &&& same_state(old, new)
        &&& ch == seq![
            Change::NewMessage {
                message: mid,
                source,
                source_nick: nick_of(old.users@, source),
                target: target_view(old, t),
                text,
            },
        ]
    } else {
        dropped(old, new, eid, ch)
    }
}

/// `NewServer`: records server `s` at `epoch`, replacing any earlier entry.
pub open spec fn new_server_effect(old: Network, new: Network, s: ServerId, epoch: EpochId, ch: Seq<Change>) -> bool {
    &&& new.users@ == old.users@
    &&& new.channels@ == old.channels@
    &&& new.merged@ == old.merged@
    &&& new.memberships@ == old.memberships@
    &&& new.servers@.contains(ServerMeta { id: s, epoch })
    &&& forall|x: ServerMeta| x.id != s ==> (new.servers@.contains(x) <==> old.servers@.contains(x))
    &&& ch == seq![Change::NewServer { server: s, epoch }]
}

/// The index of the user holding `nick` (meaningful when `nick_taken`).
pub open spec fn holder(users: Seq<User>, nick: Seq<u8>) -> int {
    choose|i: int| 0 <= i < users.len() && normalise((#[trigger] users[i]).nick@) == normalise(nick)
}

/// `users` with user `u` appended under `nick`, claimed by `eid`; the rest
/// of the state as before.
pub open spec fn user_appended(old: Network, new: Network, u: UserId, nick: Seq<u8>, eid: EventId) -> bool {
    &&& new.users@.len() == old.users@.len() + 1
    &&& new.users@.last().id == u
    &&& new.users@.last().nick@ == nick
    &&& new.users@.last().nick_claim == eid
    &&& new.channels@ == old.channels@
    &&& new.merged@ == old.merged@
    &&& new.memberships@ == old.memberships@
    &&& new.servers@ == old.servers@
}

/// Users before index `n` other than `i` are unchanged; user `i` keeps its id
/// and now goes by `nick`, claimed by `claim`.
pub open spec fn renamed_at(old: Seq<User>, new: Seq<User>, n: int, i: int, nick: Seq<u8>, claim: EventId) -> bool {
    &&& forall|j: int| 0 <= j < n && j != i ==> new[j] == old[j]
    &&& new[i].id == old[i].id
    &&& new[i].nick@ == nick
    &&& new[i].nick_claim == claim
}

/// `NewUser`: creates user `u` under `nick`. Where the nickname is taken, the
/// earlier claim keeps it and the other user falls back to
/// `fallback_nick` over its own id, which is reported as a nick change. Where
/// the fallback is taken too, or `u` exists, the event is dropped.
pub open spec fn new_user_effect(old: Network, new: Network, eid: EventId, u: UserId, nick: Seq<u8>, ch: Seq<Change>) -> bool {
    if has_user(old.users@, u) {
        dropped(old, new, eid, ch)
    } else if !nick_taken(old.users@, nick) {
        &&& user_appended(old, new, u, nick, eid)
        &&& new.users@.drop_last() == old.users@
        &&& ch == seq![Change::NewUser { user: u, nick }]
    } else {
        let i = holder(old.users@, nick);
        let h = old.users@[i];
        if id_lt(eid, h.nick_claim) {
            let f = fallback_nick(h.nick@, h.id);
            if nick_taken(old.users@, f) {
                dropped(old, new, eid, ch)
            } else {
                &&& user_appended(old, new, u, nick, eid)
                &&& renamed_at(old.users@, new.users@, old.users@.len() as int, i, f, h.nick_claim)
                &&& ch == seq![
                    Change::UserNickChange { user: h.id, old_nick: h.nick@, new_nick: f },
                    Change::NewUser { user: u, nick },
                ]
            }
        } else {
            let f = fallback_nick(nick, u);
            if nick_taken(old.users@, f) {
                dropped(old, new, eid, ch)
            } else {
                &&& user_appended(old, new, u, f, eid)
                &&& new.users@.drop_last() == old.users@
                &&& ch == seq![
                    Change::NewUser { user: u, nick },
                    Change::UserNickChange { user: u, old_nick: nick, new_nick: f },
                ]
            }
        }
    }
}

/// A fallback nickname never equals, under the case mapping, the nickname it
/// was made from.
pub proof fn lemma_fallback_differs(nick: Seq<u8>, id: UserId, other: Seq<u8>)
    requires
        normalise(other) == normalise(nick),
    ensures
        normalise(fallback_nick(nick, id)) != normalise(other),
{
    assert(normalise(other).len() == other.len());
    assert(normalise(nick).len() == nick.len());
    assert(normalise(fallback_nick(nick, id)).len() == fallback_nick(nick, id).len());
}

/// The fallback nickname of `nick` for user `id`.
pub fn make_fallback(nick: &Vec<u8>, id: UserId) -> (r: Vec<u8>)
    ensures
        r@ == fallback_nick(nick@, id),
{
    let mut v = copy_bytes(nick.as_slice());
    v.push(95);
    push_decimal(&mut v, id.0.server);
    v.push(95);
    push_decimal(&mut v, id.0.epoch);
    v.push(95);
    push_decimal(&mut v, id.0.seq);
    assert(v@ =~= fallback_nick(nick@, id));
    v
}

/// The index of user `u` (meaningful when `has_user`).
pub open spec fn user_index(users: Seq<User>, u: UserId) -> int {
    choose|i: int| 0 <= i < users.len() && (#[trigger] users[i]).id == u
}

/// A user other than the one at index `k` holds `nick`.
pub open spec fn other_holds(users: Seq<User>, k: int, nick: Seq<u8>) -> bool {
    exists|j: int| 0 <= j < users.len() && j != k && normalise((#[trigger] users[j]).nick@) == normalise(nick)
}

pub open spec fn other_holder(users: Seq<User>, k: int, nick: Seq<u8>) -> int {
    choose|j: int| 0 <= j < users.len() && j != k && normalise((#[trigger] users[j]).nick@) == normalise(nick)
}

/// Only the user tables changed, and kept their length.
pub open spec fn only_users_renamed(old: Network, new: Network) -> bool {
    &&& new.users@.len() == old.users@.len()
    &&& new.channels@ == old.channels@
    &&& new.merged@ == old.merged@
    &&& new.memberships@ == old.memberships@
    &&& new.servers@ == old.servers@
}

/// `UserNickChange`: user `u` takes `nick`. Where another user holds it, the
/// earlier claim keeps it and the loser falls back to `fallback_nick` over
/// its own id; where that is taken too, or `u` is missing, the event is
/// dropped.
pub open spec fn nick_change_effect(old: Network, new: Network, eid: EventId, u: UserId, nick: Seq<u8>, ch: Seq<Change>) -> bool {
    if !has_user(old.users@, u) {
        dropped(old, new, eid, ch)
    } else {
        let k = user_index(old.users@, u);
        let cur = old.users@[k].nick@;
        if !other_holds(old.users@, k, nick) {
            &&& only_users_renamed(old, new)
            &&& renamed_at(old.users@, new.users@, old.users@.len() as int, k, nick, eid)
            &&& ch == seq![Change::UserNickChange { user: u, old_nick: cur, new_nick: nick }]
        } else {
            let j = other_holder(old.users@, k, nick);
            let h = old.users@[j];
            if id_lt(eid, h.nick_claim) {
                let f = fallback_nick(h.nick@, h.id);
                if nick_taken(old.users@, f) {
                    dropped(old, new, eid, ch)
                } else {
                    &&& only_users_renamed(old, new)
                    &&& forall|x: int| 0 <= x < old.users@.len() && x != j && x != k ==> new.users@[x] == old.users@[x]
                    &&& new.users@[k].id == u && new.users@[k].nick@ == nick && new.users@[k].nick_claim == eid
                    &&& new.users@[j].id == h.id && new.users@[j].nick@ == f && new.users@[j].nick_claim
                        == h.nick_claim
                    &&& ch == seq![
                        Change::UserNickChange { user: h.id, old_nick: h.nick@, new_nick: f },
                        Change::UserNickChange { user: u, old_nick: cur, new_nick: nick },
                    ]
                }
            } else {
                let f = fallback_nick(nick, u);
                if nick_taken(old.users@, f) {
                    dropped(old, new, eid, ch)
                } else {
                    &&& only_users_renamed(old, new)
                    &&& renamed_at(old.users@, new.users@, old.users@.len() as int, k, f, eid)
                    &&& ch == seq![Change::UserNickChange { user: u, old_nick: cur, new_nick: f }]
                }
            }
        }
    }
}

/// Users `u` and `v` are both members of some channel.
pub open spec fn shares_channel(net: Network, u: UserId, v: UserId) -> bool {
    exists|c: ChannelId|
        net.memberships@.contains(MembershipId { user: u, channel: c }) && #[trigger] net.memberships@.contains(
            MembershipId { user: v, channel: c },
        )
}

/// `common` lists, once each, the users other than `u` that share a channel
/// with it.
pub open spec fn common_users(net: Network, u: UserId, common: Seq<UserId>) -> bool {
    &&& forall|v: UserId| common.contains(v) <==> v != u && shares_channel(net, u, v)
    &&& forall|a: int, b: int| 0 <= a < b < common.len() ==> common[a] != common[b]
}

/// `UserQuit`: removes user `u` and its memberships, and reports it once,
/// with the users it shared channels with.
pub open spec fn quit_effect(old: Network, new: Network, eid: EventId, u: UserId, message: Seq<u8>, ch: Seq<Change>) -> bool {
    if !has_user(old.users@, u) {
        dropped(old, new, eid, ch)
    } else {
        let k = user_index(old.users@, u);
        &&& new.users@ == old.users@.remove(k)
        &&& new.channels@ == old.channels@
        &&& new.merged@ == old.merged@
        &&& new.servers@ == old.servers@
        &&& forall|x: MembershipId| new.memberships@.contains(x) <==> old.memberships@.contains(x) && x.user != u
        &&& ch.len() == 1
        &&& ch[0] matches Change::UserQuit { user, nick, message: msg, common } && user == u && nick
            == old.users@[k].nick@ && msg == message && common_users(old, u, common)
    }
}

/// A user of server `s` from `epoch` or before.
pub open spec fn homed_at(id: UserId, s: ServerId, epoch: EpochId) -> bool {
    id.0.server == s && id.0.epoch <= epoch
}

/// `ServerQuit`: server `s` at `epoch` left. Its users of that epoch or
/// before, and their memberships, are removed; users of a later epoch and the
/// entry of a later incarnation stay.
pub open spec fn server_quit_effect(old: Network, new: Network, s: ServerId, epoch: EpochId, ch: Seq<Change>) -> bool {
    &&& new.channels@ == old.channels@
    &&& new.merged@ == old.merged@
    &&& forall|i: int| 0 <= i < new.users@.len() ==> old.users@.contains(#[trigger] new.users@[i])
    &&& forall|id: UserId| has_user(new.users@, id) <==> has_user(old.users@, id) && !homed_at(id, s, epoch)
    &&& forall|x: MembershipId|
        new.memberships@.contains(x) <==> old.memberships@.contains(x) && !homed_at(x.user, s, epoch)
    &&& forall|x: ServerMeta|
        new.servers@.contains(x) <==> old.servers@.contains(x) && !(x.id == s && x.epoch <= epoch)
    &&& ch.len() == 2
    &&& ch[0] == Change::ServerQuit { server: s, epoch }
    &&& ch[1] matches Change::BulkUserQuit { users } && (forall|v: UserId|
        users.contains(v) <==> has_user(old.users@, v) && homed_at(v, s, epoch))
}

/// Whose departure removes memberships: one user, or every user of a server
/// up to an epoch.
#[derive(Clone, Copy, Debug, PartialEq, Eq, Structural)]
pub enum Departure {
    User(UserId),
    Server(ServerId, EpochId),
}

/// Does the departure take user `id` with it?
pub open spec fn departs(id: UserId, d: Departure) -> bool {
    match d {
        Departure::User(u) => id == u,
        Departure::Server(s, e) => homed_at(id, s, e),
    }
}

fn departs_exec(id: UserId, d: Departure) -> (r: bool)
    ensures
        r == departs(id, d),
{
    match d {
        Departure::User(u) => id == u,
        Departure::Server(s, e) => id.0.server == s && id.0.epoch <= e,
    }
}

/// What applying `e` to `old` does: the new state `new` and the
/// notifications `ch`. An event whose target does not fit its kind is dropped.
pub open spec fn event_effect(old: Network, new: Network, e: Event, ch: Seq<Change>) -> bool {
    match e.details {
        EventDetails::NewUser { nickname } => match e.target {
            ObjectId::User(u) => new_user_effect(old, new, e.id, u, nickname@, ch),
            _ => dropped(old, new, e.id, ch),
        },
        EventDetails::UserNickChange { new_nick } => match e.target {
            ObjectId::User(u) => nick_change_effect(old, new, e.id, u, new_nick@, ch),
            _ => dropped(old, new, e.id, ch),
        },
        EventDetails::UserQuit { message } => match e.target {
            ObjectId::User(u) => quit_effect(old, new, e.id, u, message@, ch),
            _ => dropped(old, new, e.id, ch),
        },
        EventDetails::NewChannel { name } => match e.target {
            ObjectId::Channel(c) => new_channel_effect(old, new, e.id, c, name@, ch),
            _ => dropped(old, new, e.id, ch),
        },
        EventDetails::ChannelJoin { user, channel } => match e.target {
            ObjectId::Membership(m) => join_effect(old, new, e.id, m, user, channel, ch),
            _ => dropped(old, new, e.id, ch),
        },
        EventDetails::ChannelPart { message } => match e.target {
            ObjectId::Membership(m) => part_effect(old, new, e.id, m, message@, ch),
            _ => dropped(old, new, e.id, ch),
        },
        EventDetails::NewMessage { source, target, text } => match e.target {
            ObjectId::Message(mid) => message_effect(old, new, e.id, mid, source, target, text@, ch),
            _ => dropped(old, new, e.id, ch),
        },
        EventDetails::NewServer { epoch } => match e.target {
            ObjectId::Server(s) => new_server_effect(old, new, s, epoch, ch),
            _ => dropped(old, new, e.id, ch),
        },
        EventDetails::ServerQuit { epoch } => match e.target {
            ObjectId::Server(s) => server_quit_effect(old, new, s, epoch, ch),
            _ => dropped(old, new, e.id, ch),
        },
    }
}

/// The event creates the user `id`.
pub open spec fn creates_user(e: Event, id: UserId) -> bool {
    e.details is NewUser && e.target == ObjectId::User(id)
}

/// The event creates the channel `id`.
pub open spec fn creates_channel(e: Event, id: ChannelId) -> bool {
    e.details is NewChannel && e.target == ObjectId::Channel(id)
}

/// In a table with unique ids, `nick_of` reads the entry with that id.
pub proof fn lemma_nick_of_at(users: Seq<User>, i: int)
    requires
        users_wf(users),
        0 <= i < users.len(),
    ensures
        nick_of(users, users[i].id) == users[i].nick@,
{
    let k = choose|k: int| 0 <= k < users.len() && (#[trigger] users[k]).id == users[i].id;
    if k != i {
        if k < i {
            assert(users[k].id != users[i].id);
        } else {
            assert(users[i].id != users[k].id);
        }
    }
}

/// The only user holding a nickname that no user held before is the one
/// just added.
proof fn lemma_holder_is_last(before: Seq<User>, after: Seq<User>, nick: Seq<u8>)
    requires
        users_wf(after),
        after.len() == before.len() + 1,
        after.drop_last() == before,
        normalise(after.last().nick@) == normalise(nick),
    ensures
        nick_taken(after, nick),
        holder(after, nick) == after.len() - 1,
{
    let last = after.len() - 1;
    assert(normalise(after[last].nick@) == normalise(nick));
    let h = holder(after, nick);
    if h != last {
        assert(normalise(after[h].nick@) != normalise(after[last].nick@));
    }
}

/// Two concurrent `NewUser` events, for users `u1 < u2` created by their own
/// ids, claim the same nickname. Applied in either order they leave the same
/// users with the same nicknames: `u1` keeps it, `u2` falls back.
pub proof fn lemma_concurrent_new_users_commute(
    old: Network,
    a1: Network,
    a: Network,
    b1: Network,
    b: Network,
    u1: UserId,
    u2: UserId,
    nick: Seq<u8>,
    c1: Seq<Change>,
    c2: Seq<Change>,
    c3: Seq<Change>,
    c4: Seq<Change>,
)
    requires
        old.wf(),
        a1.wf(),
        a.wf(),
        b1.wf(),
        b.wf(),
        id_lt(u1.0, u2.0),
        !has_user(old.users@, u1),
        !has_user(old.users@, u2),
        !nick_taken(old.users@, nick),
        !nick_taken(old.users@, fallback_nick(nick, u2)),
        new_user_effect(old, a1, u1.0, u1, nick, c1),
        new_user_effect(a1, a, u2.0, u2, nick, c2),
        new_user_effect(old, b1, u2.0, u2, nick, c3),
        new_user_effect(b1, b, u1.0, u1, nick, c4),
    ensures
        forall|id: UserId| has_user(a.users@, id) <==> has_user(b.users@, id),
        forall|id: UserId| has_user(a.users@, id) ==> nick_of(a.users@, id) == nick_of(b.users@, id),
        nick_of(a.users@, u1) == nick,
        nick_of(a.users@, u2) == fallback_nick(nick, u2),
        a.channels@ == b.channels@,
        a.memberships@ == b.memberships@,
        a.servers@ == b.servers@,
{
    let ou = old.users@;
    let n0 = ou.len() as int;
    let f = fallback_nick(nick, u2);
    lemma_fallback_differs(nick, u2, nick);
    // First order: u1, then u2.
    let au1 = a1.users@;
    lemma_holder_is_last(ou, au1, nick);
    assert(!has_user(au1, u2)) by {
        if has_user(au1, u2) {
            let k = choose|k: int| 0 <= k < au1.len() && (#[trigger] au1[k]).id == u2;
            if k < n0 {
                assert(au1.drop_last()[k] == ou[k]);
            }
        }
    }
    assert(!nick_taken(au1, f)) by {
        if nick_taken(au1, f) {
            let k = choose|k: int| 0 <= k < au1.len() && normalise((#[trigger] au1[k]).nick@) == normalise(f);
            if k < n0 {
                assert(au1.drop_last()[k] == ou[k]);
            }
        }
    }
    let au = a.users@;
    // Second order: u2, then u1.
    let bu1 = b1.users@;
    lemma_holder_is_last(ou, bu1, nick);
    assert(!has_user(bu1, u1)) by {
        if has_user(bu1, u1) {
            let k = choose|k: int| 0 <= k < bu1.len() && (#[trigger] bu1[k]).id == u1;
            if k < n0 {
                assert(bu1.drop_last()[k] == ou[k]);
            }
        }
    }
    assert(bu1[n0].nick@ == nick);
    assert(!nick_taken(bu1, f)) by {
        if nick_taken(bu1, f) {
            let k = choose|k: int| 0 <= k < bu1.len() && normalise((#[trigger] bu1[k]).nick@) == normalise(f);
            if k < n0 {
                assert(bu1.drop_last()[k] == ou[k]);
            }
        }
    }
    let bu = b.users@;
    // Both end with the users of `old`, then u1 and u2 in some order.
    assert(au.len() == n0 + 2 && bu.len() == n0 + 2);
    assert forall|i: int| 0 <= i < n0 implies au[i] == ou[i] && bu[i] == ou[i] by {
        assert(au.drop_last()[i] == au1[i]);
        assert(au1.drop_last()[i] == ou[i]);
        assert(bu1.drop_last()[i] == ou[i]);
        assert(bu[i] == bu1[i]);
    }
    assert(au[n0] == au1[n0]) by {
        assert(au.drop_last()[n0] == au1[n0]);
    }
    assert(au[n0].id == u1 && au[n0].nick@ == nick);
    assert(au[n0 + 1].id == u2 && au[n0 + 1].nick@ == f);
    assert(bu[n0].id == u2 && bu[n0].nick@ == f);
    assert(bu[n0 + 1].id == u1 && bu[n0 + 1].nick@ == nick);
    assert forall|id: UserId| has_user(au, id) <==> has_user(bu, id) by {
        if has_user(au, id) {
            let k = choose|k: int| 0 <= k < au.len() && (#[trigger] au[k]).id == id;
            if k == n0 {
                assert(bu[n0 + 1].id == id);
            } else if k == n0 + 1 {
                assert(bu[n0].id == id);
            } else {
                assert(bu[k].id == id);
            }
        }
        if has_user(bu, id) {
            let k = choose|k: int| 0 <= k < bu.len() && (#[trigger] bu[k]).id == id;
            if k == n0 {
                assert(au[n0 + 1].id == id);
            } else if k == n0 + 1 {
                assert(au[n0].id == id);
            } else {
                assert(au[k].id == id);
            }
        }
    }
    assert forall|id: UserId| has_user(au, id) implies nick_of(au, id) == nick_of(bu, id) by {
        let k = choose|k: int| 0 <= k < au.len() && (#[trigger] au[k]).id == id;
        lemma_nick_of_at(au, k);
        if k == n0 {
            lemma_nick_of_at(bu, n0 + 1);
        } else if k == n0 + 1 {
            lemma_nick_of_at(bu, n0);
        } else {
            lemma_nick_of_at(bu, k);
        }
    }
    lemma_nick_of_at(au, n0);
    lemma_nick_of_at(au, n0 + 1);
}

/// Applying an event brings in no user or channel but the one it creates.
pub proof fn lemma_effect_creates(old: Network, new: Network, e: Event, ch: Seq<Change>)
    requires
        event_effect(old, new, e, ch),
    ensures
        forall|id: UserId| has_user(new.users@, id) ==> has_user(old.users@, id) || creates_user(e, id),
        forall|id: ChannelId| has_channel(new.channels@, id) ==> has_channel(old.channels@, id) || creates_channel(e, id),
{
    let ou = old.users@;
    let nu = new.users@;
    assert forall|id: UserId| has_user(nu, id) implies has_user(ou, id) || creates_user(e, id) by {
        let j = choose|j: int| 0 <= j < nu.len() && (#[trigger] nu[j]).id == id;
        if nu != ou {
            match e.details {
                EventDetails::NewUser { nickname } => {
                    if let ObjectId::User(u) = e.target {
                        if j < ou.len() {
                            if !nick_taken(ou, nickname@) || !id_lt(e.id, ou[holder(ou, nickname@)].nick_claim) {
                                assert(nu.drop_last()[j] == ou[j]);
                            } else {
                                assert(nu[j].id == ou[j].id);
                            }
                            assert(ou[j].id == id);
                        }
                    }
                },
                EventDetails::UserNickChange { new_nick } => {
                    if let ObjectId::User(u) = e.target {
                        assert(nu[j].id == ou[j].id);
                    }
                },
                EventDetails::UserQuit { message } => {
                    if let ObjectId::User(u) = e.target {
                        let k = user_index(ou, u);
                        if j < k {
                            assert(nu[j] == ou[j]);
                        } else {
                            assert(nu[j] == ou[j + 1]);
                        }
                    }
                },
                _ => {},
            }
        }
    }
    assert forall|id: ChannelId| has_channel(new.channels@, id) implies has_channel(old.channels@, id) || creates_channel(e, id) by {
        let j = choose|j: int| 0 <= j < new.channels@.len() && (#[trigger] new.channels@[j]).id == id;
        if new.channels@ != old.channels@ {
            if let EventDetails::NewChannel { name } = e.details {
                if let ObjectId::Channel(c) = e.target {
                    if !name_taken(old.channels@, name@) {
                        if j < old.channels@.len() {
                            assert(new.channels@.drop_last()[j] == old.channels@[j]);
                        }
                    } else {
                        let h = name_holder(old.channels@, name@);
                        if j != h {
                            assert(new.channels@[j] == old.channels@[j]);
                        }
                    }
                }
            }
        }
    }
}

/// In a well-formed state no two users share a nickname under the case
/// mapping.
pub proof fn lemma_nicks_unique(net: Network)
    requires
        net.wf(),
    ensures
        forall|i: int, j: int|
            0 <= i < net.users@.len() && 0 <= j < net.users@.len() && i != j ==> normalise(
                (#[trigger] net.users@[i]).nick@,
            ) != normalise((#[trigger] net.users@[j]).nick@),
{
    assert forall|i: int, j: int|
        0 <= i < net.users@.len() && 0 <= j < net.users@.len() && i != j implies normalise(
            (#[trigger] net.users@[i]).nick@,
        ) != normalise((#[trigger] net.users@[j]).nick@) by {
        if j < i {
            assert(normalise(net.users@[j].nick@) != normalise(net.users@[i].nick@));
        }
    }
}

/// In a well-formed state every membership joins an existing user to an
/// existing channel.
pub proof fn lemma_memberships_valid(net: Network, m: MembershipId)
    requires
        net.wf(),
        net.memberships@.contains(m),
    ensures
        has_user(net.users@, m.user),
        has_channel(net.channels@, m.channel),
{
    let k = choose|k: int| 0 <= k < net.memberships@.len() && net.memberships@[k] == m;
    assert(has_user(net.users@, net.memberships@[k].user));
}

/// Two users claim one nickname: `h`, holding it by claim `h.nick_claim`, and
/// a new user `u` created by event `eid`. Where the loser's fallback is free,
/// exactly one of the two ends up with the nickname: the one whose claim is
/// smaller by `(server, epoch, seq)`; the other goes by its fallback.
pub proof fn lemma_nick_clash(old: Network, new: Network, eid: EventId, u: UserId, nick: Seq<u8>, ch: Seq<Change>)
    requires
        old.wf(),
        new.wf(),
        !has_user(old.users@, u),
        nick_taken(old.users@, nick),
        new_user_effect(old, new, eid, u, nick, ch),
        ({
            let h = old.users@[holder(old.users@, nick)];
            if id_lt(eid, h.nick_claim) {
                !nick_taken(old.users@, fallback_nick(h.nick@, h.id))
            } else {
                !nick_taken(old.users@, fallback_nick(nick, u))
            }
        }),
    ensures
        ({
            let i = holder(old.users@, nick);
            let h = old.users@[i];
            let last = new.users@.len() - 1;
            &&& new.users@[last].id == u
            &&& new.users@[i].id == h.id
            &&& if id_lt(eid, h.nick_claim) {
                &&& new.users@[last].nick@ == nick
                &&& new.users@[i].nick@ == fallback_nick(h.nick@, h.id)
            } else {
                &&& new.users@[i].nick@ == h.nick@
                &&& normalise(h.nick@) == normalise(nick)
                &&& new.users@[last].nick@ == fallback_nick(nick, u)
            }
        }),
{
    let i = holder(old.users@, nick);
    let h = old.users@[i];
    if !id_lt(eid, h.nick_claim) {
        assert(new.users@.drop_last()[i] == old.users@[i]);
    }
}

impl Network {
    pub open spec fn wf(&self) -> bool {
        &&& users_wf(self.users@)
        &&& channels_wf(self.channels@)
        &&& memberships_wf(*self)
        &&& servers_wf(self.servers@)
        &&& merged_wf(*self)
    }

    /// The empty network.
    pub fn new() -> (r: Network)
        ensures
            r.wf(),
            r.users@.len() == 0,
            r.channels@.len() == 0,
            r.memberships@.len() == 0,
            r.servers@.len() == 0,
    {
        Network { users: Vec::new(), channels: Vec::new(), memberships: Vec::new(), servers: Vec::new(), merged: Vec::new() }
    }

    /// Index of user `id`.
    pub fn find_user(&self, id: UserId) -> (r: Option<usize>)
        requires
            self.wf(),
        ensures
            match r {
                Some(i) => i < self.users@.len() && self.users@[i as int].id == id && nick_of(
                    self.users@,
                    id,
                ) == self.users@[i as int].nick@,
                None => !has_user(self.users@, id),
            },
    {
        let mut i: usize = 0;
        while i < self.users.len()
            invariant
                self.wf(),
                i <= self.users@.len(),
                forall|j: int| 0 <= j < i ==> (#[trigger] self.users@[j]).id != id,
            decreases self.users@.len() - i,
        {
            if self.users[i].id == id {
                proof {
                    let k = choose|k: int| 0 <= k < self.users@.len() && (#[trigger] self.users@[k]).id == id;
                    if k != i {
                        if k < i {
                            assert(self.users@[k].id != self.users@[i as int].id);
                        } else {
                            assert(self.users@[i as int].id != self.users@[k].id);
                        }
                    }
                }
                return Some(i);
            }
            i = i + 1;
        }
        None
    }

    /// Index of channel `id`.
    pub fn find_channel(&self, id: ChannelId) -> (r: Option<usize>)
        requires
            self.wf(),
        ensures
            match r {
                Some(i) => i < self.channels@.len() && self.channels@[i as int].id == id && name_of(
                    self.channels@,
                    id,
                ) == self.channels@[i as int].name@,
                None => !has_channel(self.channels@, id),
            },
    {
        let mut i: usize = 0;
        while i < self.channels.len()
            invariant
                self.wf(),
                i <= self.channels@.len(),
                forall|j: int| 0 <= j < i ==> (#[trigger] self.channels@[j]).id != id,
            decreases self.channels@.len() - i,
        {
            if self.channels[i].id == id {
                proof {
                    let k = choose|k: int| 0 <= k < self.channels@.len() && (#[trigger] self.channels@[k]).id == id;
                    if k != i {
                        if k < i {
                            assert(self.channels@[k].id != self.channels@[i as int].id);
                        } else {
                            assert(self.channels@[i as int].id != self.channels@[k].id);
                        }
                    }
                }
                return Some(i);
            }
            i = i + 1;
        }
        None
    }

    /// Index of the user holding `nick` under the case mapping.
    pub fn find_nick(&self, nick: &Vec<u8>) -> (r: Option<usize>)
        ensures
            match r {
                Some(i) => i < self.users@.len() && normalise(self.users@[i as int].nick@) == normalise(nick@),
                None => !nick_taken(self.users@, nick@),
            },
    {
        let mut i: usize = 0;
        while i < self.users.len()
            invariant
                i <= self.users@.len(),
                forall|j: int| 0 <= j < i ==> normalise((#[trigger] self.users@[j]).nick@) != normalise(nick@),
            decreases self.users@.len() - i,
        {
            if same_name(&self.users[i].nick, nick) {
                return Some(i);
            }
            i = i + 1;
        }
        None
    }

    /// Is `m` a membership?
    pub fn has_membership(&self, m: MembershipId) -> (r: bool)
        ensures
            r == self.memberships@.contains(m),
    {
        let mut i: usize = 0;
        while i < self.memberships.len()
            invariant
                i <= self.memberships@.len(),
                forall|j: int| 0 <= j < i ==> self.memberships@[j] != m,
            decreases self.memberships@.len() - i,
        {
            if self.memberships[i] == m {
                assert(self.memberships@[i as int] == m);
                return true;
            }
            i = i + 1;
        }
        false
    }

    /// The channel that events naming `c` go to.
    pub fn resolve_channel(&self, c: ChannelId) -> (r: ChannelId)
        requires
            self.wf(),
        ensures
            r == resolve(*self, c),
    {
        let mut i: usize = 0;
        while i < self.merged.len()
            invariant
                self.wf(),
                i <= self.merged@.len(),
                forall|k: int| 0 <= k < i ==> (#[trigger] self.merged@[k]).from != c,
            decreases self.merged@.len() - i,
        {
            if self.merged[i].from == c {
                proof {
                    let k = choose|k: int| 0 <= k < self.merged@.len() && (#[trigger] self.merged@[k]).from == c;
                    if k != i {
                        if k < i {
                            assert(self.merged@[k].from != self.merged@[i as int].from);
                        } else {
                            assert(self.merged@[i as int].from != self.merged@[k].from);
                        }
                    }
                }
                return self.merged[i].into;
            }
            i = i + 1;
        }
        c
    }

    fn merged_away(&self, c: ChannelId) -> (r: bool)
        ensures
            r == is_merged(*self, c),
    {
        let mut i: usize = 0;
        while i < self.merged.len()
            invariant
                i <= self.merged@.len(),
                forall|k: int| 0 <= k < i ==> (#[trigger] self.merged@[k]).from != c,
            decreases self.merged@.len() - i,
        {
            if self.merged[i].from == c {
                return true;
            }
            i = i + 1;
        }
        false
    }

    /// Index of the channel named `name` under the case mapping.
    pub fn find_channel_name(&self, name: &Vec<u8>) -> (r: Option<usize>)
        requires
            self.wf(),
        ensures
            match r {
                Some(i) => i < self.channels@.len() && i as int == name_holder(self.channels@, name@) && normalise(
                    self.channels@[i as int].name@,
                ) == normalise(name@),
                None => !name_taken(self.channels@, name@),
            },
    {
        let mut i: usize = 0;
        while i < self.channels.len()
            invariant
                self.wf(),
                i <= self.channels@.len(),
                forall|j: int| 0 <= j < i ==> normalise((#[trigger] self.channels@[j]).name@) != normalise(name@),
            decreases self.channels@.len() - i,
        {
            if same_name(&self.channels[i].name, name) {
                proof {
                    let k = name_holder(self.channels@, name@);
                    if k != i {
                        if k < i {
                            assert(normalise(self.channels@[k].name@) != normalise(self.channels@[i as int].name@));
                        } else {
                            assert(normalise(self.channels@[i as int].name@) != normalise(self.channels@[k].name@));
                        }
                    }
                }
                return Some(i);
            }
            i = i + 1;
        }
        None
    }

    /// Applies a `NewChannel` event.
    pub fn apply_new_channel(&mut self, eid: EventId, c: ChannelId, name: &Vec<u8>) -> (r: Vec<NetworkStateChange>)
        requires
            old(self).wf(),
        ensures
            final(self).wf(),
            new_channel_effect(*old(self), *final(self), eid, c, name@, changes_view(r@)),
    {
        if self.find_channel(c).is_some() || self.merged_away(c) {
            let r = vec![NetworkStateChange::EventDropped { event: eid }];
            assert(changes_view(r@) =~= seq![Change::EventDropped { event: eid }]);
            return r;
        }
        let ghost before = *self;
        match self.find_channel_name(name) {
            None => {
                self.channels.push(Channel { id: c, name: copy_bytes(name.as_slice()) });
                proof {
                    let oc = before.channels@;
                    let nc = self.channels@;
                    assert(nc.drop_last() =~= oc);
                    assert forall|i: int, j: int| 0 <= i < j < nc.len() implies (#[trigger] nc[i]).id != (#[trigger] nc[j]).id
                        && normalise(nc[i].name@) != normalise(nc[j].name@) by {
                        assert(nc[i] == oc[i]);
                        if j < nc.len() - 1 {
                            assert(nc[j] == oc[j]);
                        }
                    }
                    Self::lemma_channels_kept(oc, nc);
                }
                let r = vec![NetworkStateChange::NewChannel { channel: c, name: copy_bytes(name.as_slice()) }];
                assert(changes_view(r@) =~= seq![Change::NewChannel { channel: c, name: name@ }]);
                r
            },
            Some(j) => {
                let d = self.channels[j].id;
                if !c.0.precedes(&d.0) {
                    self.merged.push(ChannelAlias { from: c, into: d });
                    proof {
                        let om = before.merged@;
                        let nm = self.merged@;
                        assert(has_channel(self.channels@, d));
                        assert forall|a: int, b: int| 0 <= a < b < nm.len() implies (#[trigger] nm[a]).from != (#[trigger] nm[b]).from by {
                            assert(nm[a] == om[a]);
                            if b < nm.len() - 1 {
                                assert(nm[b] == om[b]);
                            }
                        }
                        assert forall|k: int| 0 <= k < nm.len() implies has_channel(self.channels@, (#[trigger] nm[k]).into)
                            && !has_channel(self.channels@, nm[k].from) by {
                            if k < nm.len() - 1 {
                                assert(nm[k] == om[k]);
                            }
                        }
                    }
                    let r: Vec<NetworkStateChange> = Vec::new();
                    assert(changes_view(r@) =~= Seq::<Change>::empty());
                    return r;
                }
                self.merge_channel(j, c, name)
            },
        }
    }

    /// Channel `c` wins the name of channel `j`, which has a later id: `c`
    /// takes its place, its members move over and it becomes an alias of `c`.
    fn merge_channel(&mut self, j: usize, c: ChannelId, name: &Vec<u8>) -> (r: Vec<NetworkStateChange>)
        requires
            old(self).wf(),
            j < old(self).channels@.len(),
            j as int == name_holder(old(self).channels@, name@),
            normalise(old(self).channels@[j as int].name@) == normalise(name@),
            !has_channel(old(self).channels@, c),
            !is_merged(*old(self), c),
        ensures
            final(self).wf(),
            ({
                let old_net = *old(self);
                let new_net = *final(self);
                let d = old_net.channels@[j as int].id;
                &&& new_net.users@ == old_net.users@
                &&& new_net.servers@ == old_net.servers@
                &&& new_net.channels@.len() == old_net.channels@.len()
                &&& forall|i: int| 0 <= i < old_net.channels@.len() && i != j ==> new_net.channels@[i] == old_net.channels@[i]
                &&& new_net.channels@[j as int].id == c
                &&& new_net.channels@[j as int].name@ == name@
                &&& new_net.memberships@ == old_net.memberships@.map_values(|x: MembershipId| migrated(x, d, c))
                &&& new_net.merged@ == old_net.merged@.map_values(|a: ChannelAlias| redirected(a, d, c)).push(
                    ChannelAlias { from: d, into: c },
                )
                &&& changes_view(r@) == seq![Change::NewChannel { channel: c, name: name@ }] + migration_joins(
                    old_net.users@,
                    old_net.memberships@,
                    d,
                    c,
                    name@,
                )
            }),
    {
        let ghost before = *self;
        let d = self.channels[j].id;
        let ghost oms = self.memberships@;
        // The joins that announce the moved members.
        let mut r: Vec<NetworkStateChange> = vec![NetworkStateChange::NewChannel { channel: c, name: copy_bytes(name.as_slice()) }];
        let mut i: usize = 0;
        while i < self.memberships.len()
            invariant
                self.wf(),
                *self == before,
                oms == self.memberships@,
                i <= oms.len(),
                changes_view(r@) == seq![Change::NewChannel { channel: c, name: name@ }] + migration_joins(
                    before.users@,
                    oms.take(i as int),
                    d,
                    c,
                    name@,
                ),
            decreases oms.len() - i,
        {
            let m = self.memberships[i];
            proof {
                assert(oms.take(i + 1).drop_last() =~= oms.take(i as int));
                assert(oms.take(i + 1).last() == m);
            }
            if m.channel == d {
                assert(has_user(self.users@, m.user));
                let ui = self.find_user(m.user).unwrap();
                let ghost rb = r@;
                r.push(NetworkStateChange::ChannelJoin {
                    membership: MembershipId { user: m.user, channel: c },
                    nick: copy_bytes(self.users[ui].nick.as_slice()),
                    channel_name: copy_bytes(name.as_slice()),
                });
                assert(changes_view(r@) =~= changes_view(rb).push(r@.last()@));
            }
            i = i + 1;
        }
        assert(oms.take(oms.len() as int) =~= oms);
        // Move the memberships.
        let mut k: usize = 0;
        while k < self.memberships.len()
            invariant
                k <= oms.len(),
                self.memberships@.len() == oms.len(),
                self.users == before.users,
                self.channels == before.channels,
                self.servers == before.servers,
                self.merged == before.merged,
                forall|x: int| 0 <= x < k ==> self.memberships@[x] == migrated(oms[x], d, c),
                forall|x: int| k <= x < oms.len() ==> self.memberships@[x] == oms[x],
            decreases oms.len() - k,
        {
            let m = self.memberships[k];
            if m.channel == d {
                self.memberships.set(k, MembershipId { user: m.user, channel: c });
            }
            k = k + 1;
        }
        assert(self.memberships@ =~= oms.map_values(|x: MembershipId| migrated(x, d, c)));
        // Redirect the aliases into `d`, and make `d` one.
        let ghost oal = self.merged@;
        let mut k: usize = 0;
        while k < self.merged.len()
            invariant
                k <= oal.len(),
                self.merged@.len() == oal.len(),
                self.users == before.users,
                self.channels == before.channels,
                self.servers == before.servers,
                self.memberships@ == oms.map_values(|x: MembershipId| migrated(x, d, c)),
                forall|x: int| 0 <= x < k ==> self.merged@[x] == redirected(oal[x], d, c),
                forall|x: int| k <= x < oal.len() ==> self.merged@[x] == oal[x],
            decreases oal.len() - k,
        {
            let a = self.merged[k];
            if a.into == d {
                self.merged.set(k, ChannelAlias { from: a.from, into: c });
            }
            k = k + 1;
        }
        assert(self.merged@ =~= oal.map_values(|a: ChannelAlias| redirected(a, d, c)));
        self.merged.push(ChannelAlias { from: d, into: c });
        self.channels.set(j, Channel { id: c, name: copy_bytes(name.as_slice()) });
        proof {
            let oc = before.channels@;
            let nc = self.channels@;
            // channels
            assert forall|a: int, b: int| 0 <= a < b < nc.len() implies (#[trigger] nc[a]).id != (#[trigger] nc[b]).id
                && normalise(nc[a].name@) != normalise(nc[b].name@) by {
                if a == j {
                    assert(nc[b] == oc[b]);
                    assert(normalise(oc[a].name@) != normalise(oc[b].name@));
                } else if b == j {
                    assert(nc[a] == oc[a]);
                    assert(normalise(oc[a].name@) != normalise(oc[b].name@));
                } else {
                    assert(nc[a] == oc[a] && nc[b] == oc[b]);
                }
            }
            assert(has_channel(nc, c)) by {
                assert(nc[j as int].id == c);
            }
            // a channel other than `d` is still there
            assert forall|x: ChannelId| has_channel(oc, x) && x != d implies has_channel(nc, x) by {
                let y = choose|y: int| 0 <= y < oc.len() && (#[trigger] oc[y]).id == x;
                assert(y != j);
                assert(nc[y] == oc[y]);
            }
            assert forall|x: ChannelId| has_channel(nc, x) implies (has_channel(oc, x) && x != d) || x == c by {
                let y = choose|y: int| 0 <= y < nc.len() && (#[trigger] nc[y]).id == x;
                if y != j {
                    assert(nc[y] == oc[y]);
                    assert(oc[y].id != oc[j as int].id || y == j);
                    if y < j {
                        assert(oc[y].id != oc[j as int].id);
                    } else {
                        assert(oc[j as int].id != oc[y].id);
                    }
                }
            }
            // memberships
            let nms = self.memberships@;
            assert forall|x: int| 0 <= x < nms.len() implies has_user(self.users@, (#[trigger] nms[x]).user) && has_channel(
                nc,
                nms[x].channel,
            ) by {
                assert(has_user(before.users@, oms[x].user));
                assert(has_channel(oc, oms[x].channel));
            }
            assert forall|a: int, b: int| 0 <= a < b < nms.len() implies (#[trigger] nms[a]) != (#[trigger] nms[b]) by {
                assert(oms[a] != oms[b]);
                assert(has_channel(oc, oms[a].channel));
                assert(has_channel(oc, oms[b].channel));
            }
            // aliases
            let nm = self.merged@;
            assert forall|x: int| 0 <= x < nm.len() implies has_channel(nc, (#[trigger] nm[x]).into) && !has_channel(
                nc,
                nm[x].from,
            ) by {
                if x < oal.len() {
                    assert(has_channel(oc, oal[x].into));
                    assert(!has_channel(oc, oal[x].from));
                    assert(oal[x].from != c) by {
                        if oal[x].from == c {
                            assert(is_merged(before, c));
                        }
                    }
                } else {
                    assert(nm[x] == (ChannelAlias { from: d, into: c }));
                }
            }
            assert forall|a: int, b: int| 0 <= a < b < nm.len() implies (#[trigger] nm[a]).from != (#[trigger] nm[b]).from by {
                if b == nm.len() - 1 {
                    assert(!has_channel(oc, oal[a].from));
                    assert(oc[j as int].id == d);
                } else {
                    assert(oal[a].from != oal[b].from);
                }
            }
        }
        r
    }

    /// Channels whose ids stay at their indices: `has_channel` carries over.
    proof fn lemma_channels_kept(old: Seq<Channel>, new: Seq<Channel>)
        requires
            old.len() <= new.len(),
            forall|j: int| 0 <= j < old.len() ==> (#[trigger] new[j]).id == old[j].id,
        ensures
            forall|id: ChannelId| has_channel(old, id) ==> has_channel(new, id),
    {
        assert forall|id: ChannelId| has_channel(old, id) implies has_channel(new, id) by {
            let j = choose|j: int| 0 <= j < old.len() && (#[trigger] old[j]).id == id;
            assert(new[j].id == id);
        }
    }

    /// Applies a `ChannelJoin` event targeting membership `m`.
    pub fn apply_join(&mut self, eid: EventId, m: MembershipId, user: UserId, channel: ChannelId) -> (r: Vec<NetworkStateChange>)
        requires
            old(self).wf(),
        ensures
            final(self).wf(),
            join_effect(*old(self), *final(self), eid, m, user, channel, changes_view(r@)),
    {
        let c = self.resolve_channel(channel);
        let m2 = MembershipId { user, channel: c };
        let ui = self.find_user(user);
        let ci = self.find_channel(c);
        if m.user != user || m.channel != channel || ui.is_none() || ci.is_none() || self.has_membership(m2) {
            let r = vec![NetworkStateChange::EventDropped { event: eid }];
            assert(changes_view(r@) =~= seq![Change::EventDropped { event: eid }]);
            return r;
        }
        let ui = ui.unwrap();
        let ci = ci.unwrap();
        let nick = copy_bytes(self.users[ui].nick.as_slice());
        let channel_name = copy_bytes(self.channels[ci].name.as_slice());
        let ghost before = *self;
        self.memberships.push(m2);
        proof {
            assert(has_user(self.users@, user) && has_channel(self.channels@, c));
            assert forall|i: int, j: int| 0 <= i < j < self.memberships@.len() implies (#[trigger] self.memberships@[i])
                != (#[trigger] self.memberships@[j]) by {
                if j == self.memberships@.len() - 1 {
                    assert(before.memberships@[i] == self.memberships@[i]);
                }
            }
        }
        let r = vec![NetworkStateChange::ChannelJoin { membership: m2, nick, channel_name }];
        assert(changes_view(r@) =~= seq![
            Change::ChannelJoin {
                membership: m2,
                nick: nick_of(before.users@, user),
                channel_name: name_of(before.channels@, c),
            },
        ]);
        r
    }

    /// Applies a `ChannelPart` event targeting membership `m`.
    pub fn apply_part(&mut self, eid: EventId, m: MembershipId, message: &Vec<u8>) -> (r: Vec<NetworkStateChange>)
        requires
            old(self).wf(),
        ensures
            final(self).wf(),
            part_effect(*old(self), *final(self), eid, m, message@, changes_view(r@)),
    {
        let target = m;
        let m = MembershipId { user: target.user, channel: self.resolve_channel(target.channel) };
        let mut i: usize = 0;
        while i < self.memberships.len()
            invariant
                i <= self.memberships@.len(),
                forall|j: int| 0 <= j < i ==> self.memberships@[j] != m,
            ensures
                i <= self.memberships@.len(),
                forall|j: int| 0 <= j < i ==> self.memberships@[j] != m,
                i < self.memberships@.len() ==> self.memberships@[i as int] == m,
            decreases self.memberships@.len() - i,
        {
            if self.memberships[i] == m {
                break;
            }
            i = i + 1;
        }
        if i == self.memberships.len() {
            let r = vec![NetworkStateChange::EventDropped { event: eid }];
            assert(changes_view(r@) =~= seq![Change::EventDropped { event: eid }]);
            return r;
        }
        assert(self.memberships@[i as int] == m);
        assert(has_user(self.users@, m.user) && has_channel(self.channels@, m.channel));
        let ui = self.find_user(m.user).unwrap();
        let ci = self.find_channel(m.channel).unwrap();
        let nick = copy_bytes(self.users[ui].nick.as_slice());
        let channel_name = copy_bytes(self.channels[ci].name.as_slice());
        let ghost before = *self;
        self.memberships.remove(i);
        proof {
            let o = before.memberships@;
            let n = self.memberships@;
            assert(n =~= o.remove(i as int));
            assert forall|x: MembershipId| n.contains(x) <==> o.contains(x) && x != m by {
                if n.contains(x) {
                    let k = choose|k: int| 0 <= k < n.len() && n[k] == x;
                    if k < i {
                        assert(o[k] == x);
                        assert(o[k] != o[i as int]);
                    } else {
                        assert(o[k + 1] == x);
                        assert(o[i as int] != o[k + 1]);
                    }
                }
                if o.contains(x) && x != m {
                    let k = choose|k: int| 0 <= k < o.len() && o[k] == x;
                    if k < i {
                        assert(n[k] == x);
                    } else {
                        assert(k != i);
                        assert(n[k - 1] == x);
                    }
                }
            }
            assert forall|k: int| 0 <= k < n.len() implies has_user(self.users@, (#[trigger] n[k]).user) && has_channel(
                self.channels@,
                n[k].channel,
            ) by {
                if k < i {
                    assert(n[k] == o[k]);
                } else {
                    assert(n[k] == o[k + 1]);
                }
            }
            assert forall|a: int, b: int| 0 <= a < b < n.len() implies (#[trigger] n[a]) != (#[trigger] n[b]) by {
                let a2 = if a < i { a } else { a + 1 };
                let b2 = if b < i { b } else { b + 1 };
                assert(n[a] == o[a2] && n[b] == o[b2]);
            }
        }
        let r = vec![NetworkStateChange::ChannelPart { membership: m, nick, channel_name, message: copy_bytes(message.as_slice()) }];
        assert(changes_view(r@) =~= seq![
            Change::ChannelPart {
                membership: m,
                nick: nick_of(before.users@, m.user),
                channel_name: name_of(before.channels@, m.channel),
                message: message@,
            },
        ]);
        r
    }

    /// Applies a `NewMessage` event.
    pub fn apply_message(&self, eid: EventId, mid: MessageId, source: UserId, target: ObjectId, text: &Vec<u8>) -> (r: Vec<NetworkStateChange>)
        requires
            self.wf(),
        ensures
            message_effect(*self, *self, eid, mid, source, target, text@, changes_view(r@)),
    {
        let old_target = target;
        let si = match self.find_user(source) {
            Some(si) => si,
            None => {
                let r = vec![NetworkStateChange::EventDropped { event: eid }];
                assert(changes_view(r@) =~= seq![Change::EventDropped { event: eid }]);
                return r;
            },
        };
        let target = match target {
            ObjectId::Channel(c) => ObjectId::Channel(self.resolve_channel(c)),
            other => other,
        };
        let t = match target {
            ObjectId::User(v) => match self.find_user(v) {
                Some(vi) => Some(MessageTarget::User(v, copy_bytes(self.users[vi].nick.as_slice()))),
                None => None,
            },
            ObjectId::Channel(c) => match self.find_channel(c) {
                Some(ci) => Some(MessageTarget::Channel(c, copy_bytes(self.channels[ci].name.as_slice()))),
                None => None,
            },
            _ => None,
        };
        match t {
            Some(t) => {
                assert(t@ == target_view(*self, target));
                assert(target == resolve_target(*self, old_target));
                let r = vec![NetworkStateChange::NewMessage {
                    message: mid,
                    source,
                    source_nick: copy_bytes(self.users[si].nick.as_slice()),
                    target: t,
                    text: copy_bytes(text.as_slice()),
                }];
                assert(changes_view(r@) =~= seq![
                    Change::NewMessage {
                        message: mid,
                        source,
                        source_nick: nick_of(self.users@, source),
                        target: target_view(*self, resolve_target(*self, old_target)),
                        text: text@,
                    },
                ]);
                r
            },
            None => {
                let r = vec![NetworkStateChange::EventDropped { event: eid }];
                assert(changes_view(r@) =~= seq![Change::EventDropped { event: eid }]);
                r
            },
        }
    }

    /// Applies a `NewServer` event.
    pub fn apply_new_server(&mut self, s: ServerId, epoch: EpochId) -> (r: Vec<NetworkStateChange>)
        requires
            old(self).wf(),
        ensures
            final(self).wf(),
            new_server_effect(*old(self), *final(self), s, epoch, changes_view(r@)),
    {
        let ghost before = self.servers@;
        let mut i: usize = 0;
        while i < self.servers.len()
            invariant
                i <= self.servers@.len(),
                self.servers@ == before,
                servers_wf(before),
                forall|j: int| 0 <= j < i ==> self.servers@[j].id != s,
            ensures
                i <= self.servers@.len(),
                forall|j: int| 0 <= j < i ==> self.servers@[j].id != s,
                i < self.servers@.len() ==> self.servers@[i as int].id == s,
            decreases self.servers@.len() - i,
        {
            if self.servers[i].id == s {
                break;
            }
            i = i + 1;
        }
        let meta = ServerMeta { id: s, epoch };
        if i < self.servers.len() {
            self.servers.set(i, meta);
            proof {
                let n = self.servers@;
                assert(n[i as int] == meta);
                assert forall|x: ServerMeta| x.id != s implies (n.contains(x) <==> before.contains(x)) by {
                    if n.contains(x) {
                        let k = choose|k: int| 0 <= k < n.len() && n[k] == x;
                        assert(before[k] == x);
                    }
                    if before.contains(x) {
                        let k = choose|k: int| 0 <= k < before.len() && before[k] == x;
                        assert(n[k] == x);
                    }
                }
                assert forall|a: int, b: int| 0 <= a < b < n.len() implies (#[trigger] n[a]).id != (#[trigger] n[b]).id by {
                    assert(before[a].id != before[b].id);
                }
            }
        } else {
            self.servers.push(meta);
            proof {
                let n = self.servers@;
                assert(n[n.len() - 1] == meta);
                assert forall|x: ServerMeta| x.id != s implies (n.contains(x) <==> before.contains(x)) by {
                    if n.contains(x) {
                        let k = choose|k: int| 0 <= k < n.len() && n[k] == x;
                        assert(before[k] == x);
                    }
                    if before.contains(x) {
                        let k = choose|k: int| 0 <= k < before.len() && before[k] == x;
                        assert(n[k] == x);
                    }
                }
                assert forall|a: int, b: int| 0 <= a < b < n.len() implies (#[trigger] n[a]).id != (#[trigger] n[b]).id by {
                    if b < n.len() - 1 {
                        assert(before[a].id != before[b].id);
                    } else {
                        assert(n[a] == before[a]);
                    }
                }
            }
        }
        let r = vec![NetworkStateChange::NewServer { server: s, epoch }];
        assert(changes_view(r@) =~= seq![Change::NewServer { server: s, epoch }]);
        r
    }

    /// Users whose ids stay at their indices: `has_user` carries over.
    proof fn lemma_users_kept(old: Seq<User>, new: Seq<User>)
        requires
            old.len() <= new.len(),
            forall|j: int| 0 <= j < old.len() ==> (#[trigger] new[j]).id == old[j].id,
        ensures
            forall|id: UserId| has_user(old, id) ==> has_user(new, id),
    {
        assert forall|id: UserId| has_user(old, id) implies has_user(new, id) by {
            let j = choose|j: int| 0 <= j < old.len() && (#[trigger] old[j]).id == id;
            assert(new[j].id == id);
        }
    }

    /// Applies a `NewUser` event creating user `u`.
    pub fn apply_new_user(&mut self, eid: EventId, u: UserId, nick: &Vec<u8>) -> (r: Vec<NetworkStateChange>)
        requires
            old(self).wf(),
        ensures
            final(self).wf(),
            new_user_effect(*old(self), *final(self), eid, u, nick@, changes_view(r@)),
    {
        let ghost before = *self;
        let ghost ou = self.users@;
        if self.find_user(u).is_some() {
            let r = vec![NetworkStateChange::EventDropped { event: eid }];
            assert(changes_view(r@) =~= seq![Change::EventDropped { event: eid }]);
            return r;
        }
        let r: Vec<NetworkStateChange>;
        match self.find_nick(nick) {
            None => {
                self.users.push(User { id: u, nick: copy_bytes(nick.as_slice()), nick_claim: eid });
                r = vec![NetworkStateChange::NewUser { user: u, nick: copy_bytes(nick.as_slice()) }];
                assert(changes_view(r@) =~= seq![Change::NewUser { user: u, nick: nick@ }]);
                proof {
                    assert(self.users@.drop_last() =~= ou);
                    self.lemma_push_user_wf(before, nick@);
                }
            },
            Some(i) => {
                proof {
                    let k = holder(ou, nick@);
                    if k != i {
                        if k < i {
                            assert(normalise(ou[k].nick@) != normalise(ou[i as int].nick@));
                        } else {
                            assert(normalise(ou[i as int].nick@) != normalise(ou[k].nick@));
                        }
                    }
                }
                let claim = self.users[i].nick_claim;
                if eid.precedes(&claim) {
                    let hid = self.users[i].id;
                    let f = make_fallback(&self.users[i].nick, hid);
                    if self.find_nick(&f).is_some() {
                        let r = vec![NetworkStateChange::EventDropped { event: eid }];
                        assert(changes_view(r@) =~= seq![Change::EventDropped { event: eid }]);
                        return r;
                    }
                    let old_nick = copy_bytes(self.users[i].nick.as_slice());
                    let f2 = copy_bytes(f.as_slice());
                    self.users.set(i, User { id: hid, nick: f, nick_claim: claim });
                    self.users.push(User { id: u, nick: copy_bytes(nick.as_slice()), nick_claim: eid });
                    r = vec![
                        NetworkStateChange::UserNickChange { user: hid, old_nick, new_nick: f2 },
                        NetworkStateChange::NewUser { user: u, nick: copy_bytes(nick.as_slice()) },
                    ];
                    proof {
                        let f = fallback_nick(ou[i as int].nick@, hid);
                        assert(changes_view(r@) =~= seq![
                            Change::UserNickChange { user: hid, old_nick: ou[i as int].nick@, new_nick: f },
                            Change::NewUser { user: u, nick: nick@ },
                        ]);
                        let nu = self.users@;
                        lemma_fallback_differs(ou[i as int].nick@, hid, nick@);
                        assert forall|a: int, b: int| 0 <= a < b < nu.len() implies (#[trigger] nu[a]).id
                            != (#[trigger] nu[b]).id && normalise(nu[a].nick@) != normalise(nu[b].nick@) by {
                            if b == nu.len() - 1 {
                                assert(nu[a].id == ou[a].id);
                                if a != i {
                                    assert(normalise(ou[a].nick@) != normalise(ou[i as int].nick@));
                                }
                            } else if a == i {
                                assert(normalise(ou[b].nick@) != normalise(f));
                            } else if b == i {
                                assert(normalise(ou[a].nick@) != normalise(f));
                            }
                        }
                        Self::lemma_users_kept(ou, nu);
                    }
                } else {
                    let f = make_fallback(nick, u);
                    if self.find_nick(&f).is_some() {
                        let r = vec![NetworkStateChange::EventDropped { event: eid }];
                        assert(changes_view(r@) =~= seq![Change::EventDropped { event: eid }]);
                        return r;
                    }
                    let f2 = copy_bytes(f.as_slice());
                    self.users.push(User { id: u, nick: f, nick_claim: eid });
                    r = vec![
                        NetworkStateChange::NewUser { user: u, nick: copy_bytes(nick.as_slice()) },
                        NetworkStateChange::UserNickChange { user: u, old_nick: copy_bytes(nick.as_slice()), new_nick: f2 },
                    ];
                    proof {
                        let f = fallback_nick(nick@, u);
                        assert(changes_view(r@) =~= seq![
                            Change::NewUser { user: u, nick: nick@ },
                            Change::UserNickChange { user: u, old_nick: nick@, new_nick: f },
                        ]);
                        assert(self.users@.drop_last() =~= ou);
                        self.lemma_push_user_wf(before, f);
                    }
                }
            },
        }
        r
    }

    /// Appending a user with a fresh id and a free nickname keeps the state
    /// well formed.
    proof fn lemma_push_user_wf(&self, before: Network, nick: Seq<u8>)
        requires
            before.wf(),
            self.users@.len() == before.users@.len() + 1,
            self.users@.drop_last() == before.users@,
            !has_user(before.users@, self.users@.last().id),
            self.users@.last().nick@ == nick,
            !nick_taken(before.users@, nick),
            self.channels@ == before.channels@,
            self.memberships@ == before.memberships@,
            self.servers@ == before.servers@,
            self.merged@ == before.merged@,
        ensures
            self.wf(),
    {
        let ou = before.users@;
        let nu = self.users@;
        assert forall|a: int, b: int| 0 <= a < b < nu.len() implies (#[trigger] nu[a]).id != (#[trigger] nu[b]).id
            && normalise(nu[a].nick@) != normalise(nu[b].nick@) by {
            assert(nu[a] == ou[a]);
            if b < nu.len() - 1 {
                assert(nu[b] == ou[b]);
            }
        }
        Self::lemma_users_kept(ou, nu);
    }

    /// Renaming users in place, with ids kept and nicknames left distinct,
    /// keeps the state well formed.
    proof fn lemma_renamed_wf(&self, before: Network)
        requires
            before.wf(),
            only_users_renamed(before, *self),
            forall|i: int| 0 <= i < before.users@.len() ==> (#[trigger] self.users@[i]).id == before.users@[i].id,
            forall|a: int, b: int|
                0 <= a < b < self.users@.len() ==> normalise((#[trigger] self.users@[a]).nick@) != normalise(
                    (#[trigger] self.users@[b]).nick@,
                ),
        ensures
            self.wf(),
    {
        let ou = before.users@;
        let nu = self.users@;
        assert forall|a: int, b: int| 0 <= a < b < nu.len() implies (#[trigger] nu[a]).id != (#[trigger] nu[b]).id by {
            assert(ou[a].id != ou[b].id);
        }
        Self::lemma_users_kept(ou, nu);
    }

    /// Applies a `UserNickChange` event for user `u`.
    pub fn apply_nick_change(&mut self, eid: EventId, u: UserId, nick: &Vec<u8>) -> (r: Vec<NetworkStateChange>)
        requires
            old(self).wf(),
        ensures
            final(self).wf(),
            nick_change_effect(*old(self), *final(self), eid, u, nick@, changes_view(r@)),
    {
        let ghost before = *self;
        let ghost ou = self.users@;
        let k = match self.find_user(u) {
            Some(k) => k,
            None => {
                let r = vec![NetworkStateChange::EventDropped { event: eid }];
                assert(changes_view(r@) =~= seq![Change::EventDropped { event: eid }]);
                return r;
            },
        };
        proof {
            let k2 = user_index(ou, u);
            if k2 != k {
                if k2 < k {
                    assert(ou[k2].id != ou[k as int].id);
                } else {
                    assert(ou[k as int].id != ou[k2].id);
                }
            }
        }
        let cur = copy_bytes(self.users[k].nick.as_slice());
        let other: Option<usize> = match self.find_nick(nick) {
            Some(i) => if i == k {
                None
            } else {
                Some(i)
            },
            None => None,
        };
        proof {
            match other {
                None => {
                    if other_holds(ou, k as int, nick@) {
                        let j = other_holder(ou, k as int, nick@);
                        if j < k {
                            assert(normalise(ou[j].nick@) != normalise(ou[k as int].nick@));
                        } else {
                            assert(normalise(ou[k as int].nick@) != normalise(ou[j].nick@));
                        }
                    }
                },
                Some(i) => {
                    let j = other_holder(ou, k as int, nick@);
                    if j != i {
                        if j < i {
                            assert(normalise(ou[j].nick@) != normalise(ou[i as int].nick@));
                        } else {
                            assert(normalise(ou[i as int].nick@) != normalise(ou[j].nick@));
                        }
                    }
                },
            }
        }
        let r: Vec<NetworkStateChange>;
        match other {
            None => {
                self.users.set(k, User { id: u, nick: copy_bytes(nick.as_slice()), nick_claim: eid });
                r = vec![NetworkStateChange::UserNickChange { user: u, old_nick: cur, new_nick: copy_bytes(nick.as_slice()) }];
                proof {
                    assert(changes_view(r@) =~= seq![Change::UserNickChange { user: u, old_nick: ou[k as int].nick@, new_nick: nick@ }]);
                    let nu = self.users@;
                    assert forall|a: int, b: int| 0 <= a < b < nu.len() implies normalise((#[trigger] nu[a]).nick@)
                        != normalise((#[trigger] nu[b]).nick@) by {
                        if a == k {
                            assert(normalise(ou[b].nick@) != normalise(nick@));
                        } else if b == k {
                            assert(normalise(ou[a].nick@) != normalise(nick@));
                        }
                    }
                    self.lemma_renamed_wf(before);
                }
            },
            Some(j) => {
                let claim = self.users[j].nick_claim;
                if eid.precedes(&claim) {
                    let hid = self.users[j].id;
                    let f = make_fallback(&self.users[j].nick, hid);
                    if self.find_nick(&f).is_some() {
                        let r = vec![NetworkStateChange::EventDropped { event: eid }];
                        assert(changes_view(r@) =~= seq![Change::EventDropped { event: eid }]);
                        return r;
                    }
                    let hold = copy_bytes(self.users[j].nick.as_slice());
                    let f2 = copy_bytes(f.as_slice());
                    self.users.set(j, User { id: hid, nick: f, nick_claim: claim });
                    self.users.set(k, User { id: u, nick: copy_bytes(nick.as_slice()), nick_claim: eid });
                    r = vec![
                        NetworkStateChange::UserNickChange { user: hid, old_nick: hold, new_nick: f2 },
                        NetworkStateChange::UserNickChange { user: u, old_nick: cur, new_nick: copy_bytes(nick.as_slice()) },
                    ];
                    proof {
                        let f = fallback_nick(ou[j as int].nick@, hid);
                        assert(changes_view(r@) =~= seq![
                            Change::UserNickChange { user: hid, old_nick: ou[j as int].nick@, new_nick: f },
                            Change::UserNickChange { user: u, old_nick: ou[k as int].nick@, new_nick: nick@ },
                        ]);
                        lemma_fallback_differs(ou[j as int].nick@, hid, nick@);
                        let nu = self.users@;
                        assert forall|a: int, b: int| 0 <= a < b < nu.len() implies normalise((#[trigger] nu[a]).nick@)
                            != normalise((#[trigger] nu[b]).nick@) by {
                            if a == j || b == j {
                                let x = if a == j { b } else { a };
                                if x != k {
                                    assert(normalise(ou[x].nick@) != normalise(f));
                                }
                            } else if a == k || b == k {
                                let x = if a == k { b } else { a };
                                if x < j {
                                    assert(normalise(ou[x].nick@) != normalise(ou[j as int].nick@));
                                } else {
                                    assert(normalise(ou[j as int].nick@) != normalise(ou[x].nick@));
                                }
                            }
                        }
                        self.lemma_renamed_wf(before);
                    }
                } else {
                    let f = make_fallback(nick, u);
                    if self.find_nick(&f).is_some() {
                        let r = vec![NetworkStateChange::EventDropped { event: eid }];
                        assert(changes_view(r@) =~= seq![Change::EventDropped { event: eid }]);
                        return r;
                    }
                    let f2 = copy_bytes(f.as_slice());
                    self.users.set(k, User { id: u, nick: f, nick_claim: eid });
                    r = vec![NetworkStateChange::UserNickChange { user: u, old_nick: cur, new_nick: f2 }];
                    proof {
                        let f = fallback_nick(nick@, u);
                        assert(changes_view(r@) =~= seq![Change::UserNickChange { user: u, old_nick: ou[k as int].nick@, new_nick: f }]);
                        let nu = self.users@;
                        assert forall|a: int, b: int| 0 <= a < b < nu.len() implies normalise((#[trigger] nu[a]).nick@)
                            != normalise((#[trigger] nu[b]).nick@) by {
                            if a == k {
                                assert(normalise(ou[b].nick@) != normalise(f));
                            } else if b == k {
                                assert(normalise(ou[a].nick@) != normalise(f));
                            }
                        }
                        self.lemma_renamed_wf(before);
                    }
                }
            },
        }
        r
    }

    /// Does some channel hold both `u` and `v`?
    fn shares(&self, u: UserId, v: UserId) -> (r: bool)
        ensures
            r == shares_channel(*self, u, v),
    {
        let mut i: usize = 0;
        while i < self.memberships.len()
            invariant
                i <= self.memberships@.len(),
                forall|j: int|
                    0 <= j < i && (#[trigger] self.memberships@[j]).user == u ==> !self.memberships@.contains(
                        MembershipId { user: v, channel: self.memberships@[j].channel },
                    ),
            decreases self.memberships@.len() - i,
        {
            let m = self.memberships[i];
            if m.user == u && self.has_membership(MembershipId { user: v, channel: m.channel }) {
                proof {
                    assert(self.memberships@[i as int] == MembershipId { user: u, channel: m.channel });
                    assert(self.memberships@.contains(MembershipId { user: u, channel: m.channel }));
                }
                return true;
            }
            i = i + 1;
        }
        proof {
            assert forall|c: ChannelId| !(self.memberships@.contains(MembershipId { user: u, channel: c })
                && #[trigger] self.memberships@.contains(MembershipId { user: v, channel: c })) by {
                if self.memberships@.contains(MembershipId { user: u, channel: c }) {
                    let j = choose|j: int| 0 <= j < self.memberships@.len() && self.memberships@[j] == MembershipId { user: u, channel: c };
                    assert(self.memberships@[j].user == u);
                }
            }
        }
        false
    }

    /// The users other than `u` that share a channel with it, once each.
    pub fn common_users_of(&self, u: UserId) -> (r: Vec<UserId>)
        requires
            self.wf(),
        ensures
            common_users(*self, u, r@),
    {
        let mut common: Vec<UserId> = Vec::new();
        let mut i: usize = 0;
        while i < self.users.len()
            invariant
                self.wf(),
                i <= self.users@.len(),
                forall|x: UserId|
                    common@.contains(x) <==> (exists|j: int| 0 <= j < i && (#[trigger] self.users@[j]).id == x)
                        && x != u && shares_channel(*self, u, x),
                forall|a: int, b: int| 0 <= a < b < common@.len() ==> common@[a] != common@[b],
            decreases self.users@.len() - i,
        {
            let v = self.users[i].id;
            let ghost before = common@;
            if v != u && self.shares(u, v) {
                proof {
                    if before.contains(v) {
                        let j = choose|j: int| 0 <= j < i && (#[trigger] self.users@[j]).id == v;
                        assert(self.users@[j].id != self.users@[i as int].id);
                    }
                }
                common.push(v);
                proof {
                    assert forall|x: UserId| common@.contains(x) <==> (exists|j: int|
                        0 <= j < i + 1 && (#[trigger] self.users@[j]).id == x) && x != u && shares_channel(*self, u, x) by {
                        if common@.contains(x) && x != v {
                            let a = choose|a: int| 0 <= a < common@.len() && common@[a] == x;
                            assert(before[a] == x);
                            assert(before.contains(x));
                        }
                        if x == v {
                            assert(common@[common@.len() - 1] == v);
                        }
                        if (exists|j: int| 0 <= j < i && (#[trigger] self.users@[j]).id == x) && x != u && shares_channel(*self, u, x) {
                            assert(before.contains(x));
                            let a = choose|a: int| 0 <= a < before.len() && before[a] == x;
                            assert(common@[a] == x);
                        }
                    }
                }
            } else {
                proof {
                    assert forall|x: UserId| common@.contains(x) <==> (exists|j: int|
                        0 <= j < i + 1 && (#[trigger] self.users@[j]).id == x) && x != u && shares_channel(*self, u, x) by {
                        if (exists|j: int| 0 <= j < i + 1 && (#[trigger] self.users@[j]).id == x) && x != u && shares_channel(*self, u, x) {
                            let j = choose|j: int| 0 <= j < i + 1 && (#[trigger] self.users@[j]).id == x;
                            if j == i {
                                assert(false);
                            }
                        }
                    }
                }
            }
            i = i + 1;
        }
        proof {
            assert forall|x: UserId| x != u && shares_channel(*self, u, x) implies exists|j: int|
                0 <= j < self.users@.len() && (#[trigger] self.users@[j]).id == x by {
                let c = choose|c: ChannelId| self.memberships@.contains(MembershipId { user: u, channel: c })
                    && #[trigger] self.memberships@.contains(MembershipId { user: x, channel: c });
                let k = choose|k: int| 0 <= k < self.memberships@.len() && self.memberships@[k] == MembershipId { user: x, channel: c };
                assert(has_user(self.users@, self.memberships@[k].user));
            }
        }
        common
    }

    /// Drops the memberships of the departing users.
    fn retain_memberships(&mut self, d: Departure)
        requires
            forall|i: int, j: int|
                0 <= i < j < old(self).memberships@.len() ==> (#[trigger] old(self).memberships@[i])
                    != (#[trigger] old(self).memberships@[j]),
        ensures
            final(self).users == old(self).users,
            final(self).channels == old(self).channels,
            final(self).servers == old(self).servers,
            final(self).merged == old(self).merged,
            forall|x: MembershipId|
                final(self).memberships@.contains(x) <==> old(self).memberships@.contains(x) && !departs(x.user, d),
            forall|i: int, j: int|
                0 <= i < j < final(self).memberships@.len() ==> (#[trigger] final(self).memberships@[i])
                    != (#[trigger] final(self).memberships@[j]),
    {
        let ghost orig = self.memberships@;
        let mut kept: Vec<MembershipId> = Vec::new();
        let mut i: usize = 0;
        while i < self.memberships.len()
            invariant
                self.memberships@ == orig,
                self.users == old(self).users,
                self.channels == old(self).channels,
                self.servers == old(self).servers,
                orig == old(self).memberships@,
                i <= orig.len(),
                forall|a: int, b: int| 0 <= a < b < orig.len() ==> (#[trigger] orig[a]) != (#[trigger] orig[b]),
                forall|x: MembershipId|
                    kept@.contains(x) <==> (exists|j: int| 0 <= j < i && orig[j] == x) && !departs(x.user, d),
                forall|a: int, b: int| 0 <= a < b < kept@.len() ==> kept@[a] != kept@[b],
            decreases orig.len() - i,
        {
            let m = self.memberships[i];
            let ghost before = kept@;
            if !departs_exec(m.user, d) {
                proof {
                    if before.contains(m) {
                        let j = choose|j: int| 0 <= j < i && orig[j] == m;
                        assert(orig[j] != orig[i as int]);
                    }
                }
                kept.push(m);
                proof {
                    assert forall|x: MembershipId| kept@.contains(x) <==> (exists|j: int| 0 <= j < i + 1 && orig[j] == x)
                        && !departs(x.user, d) by {
                        if kept@.contains(x) && x != m {
                            let a = choose|a: int| 0 <= a < kept@.len() && kept@[a] == x;
                            assert(before[a] == x);
                            assert(before.contains(x));
                        }
                        if x == m {
                            assert(kept@[kept@.len() - 1] == m);
                            assert(orig[i as int] == m);
                        }
                        if (exists|j: int| 0 <= j < i && orig[j] == x) && !departs(x.user, d) {
                            assert(before.contains(x));
                            let a = choose|a: int| 0 <= a < before.len() && before[a] == x;
                            assert(kept@[a] == x);
                        }
                    }
                }
            } else {
                proof {
                    assert forall|x: MembershipId| kept@.contains(x) <==> (exists|j: int| 0 <= j < i + 1 && orig[j] == x)
                        && !departs(x.user, d) by {
                        if (exists|j: int| 0 <= j < i + 1 && orig[j] == x) && !departs(x.user, d) {
                            let j = choose|j: int| 0 <= j < i + 1 && orig[j] == x;
                            if j == i {
                                assert(false);
                            }
                        }
                    }
                }
            }
            i = i + 1;
        }
        proof {
            assert forall|x: MembershipId| orig.contains(x) implies exists|j: int| 0 <= j < orig.len() && orig[j] == x by {
            }
        }
        self.memberships = kept;
    }

    /// Applies a `UserQuit` event for user `u`.
    pub fn apply_quit(&mut self, eid: EventId, u: UserId, message: &Vec<u8>) -> (r: Vec<NetworkStateChange>)
        requires
            old(self).wf(),
        ensures
            final(self).wf(),
            quit_effect(*old(self), *final(self), eid, u, message@, changes_view(r@)),
    {
        let ghost before = *self;
        let ghost ou = self.users@;
        let k = match self.find_user(u) {
            Some(k) => k,
            None => {
                let r = vec![NetworkStateChange::EventDropped { event: eid }];
                assert(changes_view(r@) =~= seq![Change::EventDropped { event: eid }]);
                return r;
            },
        };
        proof {
            let k2 = user_index(ou, u);
            if k2 != k {
                if k2 < k {
                    assert(ou[k2].id != ou[k as int].id);
                } else {
                    assert(ou[k as int].id != ou[k2].id);
                }
            }
        }
        let nick = copy_bytes(self.users[k].nick.as_slice());
        let common = self.common_users_of(u);
        self.retain_memberships(Departure::User(u));
        self.users.remove(k);
        let r = vec![NetworkStateChange::UserQuit { user: u, nick, message: copy_bytes(message.as_slice()), common }];
        proof {
            let nu = self.users@;
            assert(nu =~= ou.remove(k as int));
            assert forall|a: int, b: int| 0 <= a < b < nu.len() implies (#[trigger] nu[a]).id != (#[trigger] nu[b]).id
                && normalise(nu[a].nick@) != normalise(nu[b].nick@) by {
                let a2 = if a < k { a } else { a + 1 };
                let b2 = if b < k { b } else { b + 1 };
                assert(nu[a] == ou[a2] && nu[b] == ou[b2]);
            }
            assert forall|x: int| 0 <= x < self.memberships@.len() implies has_user(nu, (#[trigger] self.memberships@[x]).user)
                && has_channel(self.channels@, self.memberships@[x].channel) by {
                let mx = self.memberships@[x];
                assert(self.memberships@.contains(mx));
                let y = choose|y: int| 0 <= y < before.memberships@.len() && before.memberships@[y] == mx;
                assert(has_user(ou, mx.user));
                let j = choose|j: int| 0 <= j < ou.len() && (#[trigger] ou[j]).id == mx.user;
                assert(j != k);
                if j < k {
                    assert(nu[j] == ou[j]);
                } else {
                    assert(nu[j - 1] == ou[j]);
                }
            }
            assert(changes_view(r@)[0] == r@[0]@);
        }
        r
    }

    /// Applies a `ServerQuit` event for server `s` at `epoch`.
    pub fn apply_server_quit(&mut self, s: ServerId, epoch: EpochId) -> (r: Vec<NetworkStateChange>)
        requires
            old(self).wf(),
        ensures
            final(self).wf(),
            server_quit_effect(*old(self), *final(self), s, epoch, changes_view(r@)),
    {
        let ghost before = *self;
        let d = Departure::Server(s, epoch);
        self.retain_memberships(d);
        let mut rest: Vec<User> = Vec::new();
        std::mem::swap(&mut rest, &mut self.users);
        let ghost orig = rest@;
        let mut kept: Vec<User> = Vec::new();
        let mut gone: Vec<UserId> = Vec::new();
        while rest.len() > 0
            invariant
                orig == before.users@,
                users_wf(orig),
                rest@.len() <= orig.len(),
                rest@ == orig.subrange(orig.len() - rest@.len(), orig.len() as int),
                forall|a: int| 0 <= a < kept@.len() ==> exists|j: int|
                    0 <= j < orig.len() - rest@.len() && orig[j] == #[trigger] kept@[a],
                forall|a: int| 0 <= a < kept@.len() ==> !homed_at((#[trigger] kept@[a]).id, s, epoch),
                forall|j: int| 0 <= j < orig.len() - rest@.len() && !homed_at((#[trigger] orig[j]).id, s, epoch)
                    ==> has_user(kept@, orig[j].id),
                users_wf(kept@),
                forall|v: UserId| gone@.contains(v) <==> (exists|j: int|
                    0 <= j < orig.len() - rest@.len() && (#[trigger] orig[j]).id == v) && homed_at(v, s, epoch),
            decreases rest@.len(),
        {
            let ghost done = orig.len() - rest@.len();
            let ghost kb = kept@;
            let ghost gb = gone@;
            let x = rest.remove(0);
            assert(x == orig[done]);
            assert(rest@ =~= orig.subrange(orig.len() - rest@.len(), orig.len() as int));
            if x.id.0.server == s && x.id.0.epoch <= epoch {
                gone.push(x.id);
                proof {
                    assert forall|v: UserId| gone@.contains(v) <==> (exists|j: int|
                        0 <= j < done + 1 && (#[trigger] orig[j]).id == v) && homed_at(v, s, epoch) by {
                        if gone@.contains(v) && v != orig[done].id {
                            let a = choose|a: int| 0 <= a < gone@.len() && gone@[a] == v;
                            assert(gb[a] == v);
                            assert(gb.contains(v));
                        }
                        if v == orig[done].id {
                            assert(gone@[gone@.len() - 1] == v);
                        }
                        if (exists|j: int| 0 <= j < done && (#[trigger] orig[j]).id == v) && homed_at(v, s, epoch) {
                            assert(gb.contains(v));
                            let a = choose|a: int| 0 <= a < gb.len() && gb[a] == v;
                            assert(gone@[a] == v);
                        }
                    }
                    assert forall|a: int| 0 <= a < kept@.len() implies exists|j: int|
                        0 <= j < done + 1 && orig[j] == #[trigger] kept@[a] by {
                        let j = choose|j: int| 0 <= j < done && orig[j] == kb[a];
                    }
                }
            } else {
                kept.push(x);
                proof {
                    let nk = kept@;
                    assert forall|a: int| 0 <= a < nk.len() implies exists|j: int|
                        0 <= j < done + 1 && orig[j] == #[trigger] nk[a] by {
                        if a < kb.len() {
                            let j = choose|j: int| 0 <= j < done && orig[j] == kb[a];
                            assert(nk[a] == kb[a]);
                        } else {
                            assert(nk[a] == orig[done]);
                        }
                    }
                    assert forall|a: int, b: int| 0 <= a < b < nk.len() implies (#[trigger] nk[a]).id != (#[trigger] nk[b]).id
                        && normalise(nk[a].nick@) != normalise(nk[b].nick@) by {
                        if b == nk.len() - 1 {
                            let j = choose|j: int| 0 <= j < done && orig[j] == kb[a];
                            assert(nk[a] == orig[j]);
                            assert(orig[j].id != orig[done].id);
                            assert(normalise(orig[j].nick@) != normalise(orig[done].nick@));
                        } else {
                            assert(nk[a] == kb[a] && nk[b] == kb[b]);
                        }
                    }
                    assert forall|j: int| 0 <= j < done + 1 && !homed_at((#[trigger] orig[j]).id, s, epoch)
                        implies has_user(nk, orig[j].id) by {
                        if j < done {
                            let a = choose|a: int| 0 <= a < kb.len() && (#[trigger] kb[a]).id == orig[j].id;
                            assert(nk[a] == kb[a]);
                        } else {
                            assert(nk[nk.len() - 1] == orig[j]);
                        }
                    }
                    assert forall|v: UserId| gone@.contains(v) <==> (exists|j: int|
                        0 <= j < done + 1 && (#[trigger] orig[j]).id == v) && homed_at(v, s, epoch) by {
                        if gone@.contains(v) {
                            assert(gb.contains(v));
                        }
                        if (exists|j: int| 0 <= j < done + 1 && (#[trigger] orig[j]).id == v) && homed_at(v, s, epoch) {
                            let j = choose|j: int| 0 <= j < done + 1 && (#[trigger] orig[j]).id == v && homed_at(v, s, epoch);
                            assert(j != done);
                            assert(gb.contains(v));
                        }
                    }
                }
            }
        }
        self.users = kept;
        proof {
            let nu = self.users@;
            assert forall|id: UserId| has_user(nu, id) <==> has_user(orig, id) && !homed_at(id, s, epoch) by {
                if has_user(nu, id) {
                    let a = choose|a: int| 0 <= a < nu.len() && (#[trigger] nu[a]).id == id;
                    let j = choose|j: int| 0 <= j < orig.len() && orig[j] == nu[a];
                }
                if has_user(orig, id) && !homed_at(id, s, epoch) {
                    let j = choose|j: int| 0 <= j < orig.len() && (#[trigger] orig[j]).id == id;
                }
            }
            assert forall|i: int| 0 <= i < nu.len() implies orig.contains(#[trigger] nu[i]) by {
                let j = choose|j: int| 0 <= j < orig.len() && orig[j] == nu[i];
            }
            assert forall|k: int| 0 <= k < self.memberships@.len() implies has_user(nu, (#[trigger] self.memberships@[k]).user)
                && has_channel(self.channels@, self.memberships@[k].channel) by {
                let mk = self.memberships@[k];
                assert(self.memberships@.contains(mk));
                let y = choose|y: int| 0 <= y < before.memberships@.len() && before.memberships@[y] == mk;
                assert(has_user(orig, mk.user));
            }
        }
        // Servers: drop the entry of this incarnation or an earlier one.
        let ghost os = self.servers@;
        let mut kept_servers: Vec<ServerMeta> = Vec::new();
        let mut i: usize = 0;
        while i < self.servers.len()
            invariant
                self.servers@ == os,
                os == before.servers@,
                servers_wf(os),
                i <= os.len(),
                forall|a: int| 0 <= a < kept_servers@.len() ==> exists|j: int| 0 <= j < i && os[j] == #[trigger] kept_servers@[a],
                forall|x: ServerMeta| kept_servers@.contains(x) <==> (exists|j: int| 0 <= j < i && os[j] == x)
                    && !(x.id == s && x.epoch <= epoch),
                servers_wf(kept_servers@),
            decreases os.len() - i,
        {
            let m = self.servers[i];
            let ghost kb = kept_servers@;
            if !(m.id == s && m.epoch <= epoch) {
                kept_servers.push(m);
                proof {
                    let nk = kept_servers@;
                    assert forall|a: int| 0 <= a < nk.len() implies exists|j: int| 0 <= j < i + 1 && os[j] == #[trigger] nk[a] by {
                        if a < kb.len() {
                            let j = choose|j: int| 0 <= j < i && os[j] == kb[a];
                            assert(nk[a] == kb[a]);
                        } else {
                            assert(nk[a] == os[i as int]);
                        }
                    }
                    assert forall|a: int, b: int| 0 <= a < b < nk.len() implies (#[trigger] nk[a]).id != (#[trigger] nk[b]).id by {
                        if b == nk.len() - 1 {
                            let j = choose|j: int| 0 <= j < i && os[j] == kb[a];
                            assert(nk[a] == os[j]);
                            assert(os[j].id != os[i as int].id);
                        } else {
                            assert(nk[a] == kb[a] && nk[b] == kb[b]);
                        }
                    }
                    assert forall|x: ServerMeta| nk.contains(x) <==> (exists|j: int| 0 <= j < i + 1 && os[j] == x)
                        && !(x.id == s && x.epoch <= epoch) by {
                        if nk.contains(x) && x != m {
                            let a = choose|a: int| 0 <= a < nk.len() && nk[a] == x;
                            assert(kb[a] == x);
                            assert(kb.contains(x));
                        }
                        if x == m {
                            assert(nk[nk.len() - 1] == m);
                            assert(os[i as int] == m);
                        }
                        if (exists|j: int| 0 <= j < i && os[j] == x) && !(x.id == s && x.epoch <= epoch) {
                            assert(kb.contains(x));
                            let a = choose|a: int| 0 <= a < kb.len() && kb[a] == x;
                            assert(nk[a] == x);
                        }
                    }
                }
            } else {
                proof {
                    assert forall|x: ServerMeta| kept_servers@.contains(x) <==> (exists|j: int| 0 <= j < i + 1 && os[j] == x)
                        && !(x.id == s && x.epoch <= epoch) by {
                        if (exists|j: int| 0 <= j < i + 1 && os[j] == x) && !(x.id == s && x.epoch <= epoch) {
                            let j = choose|j: int| 0 <= j < i + 1 && os[j] == x;
                            if j == i {
                                assert(false);
                            }
                            assert(kb.contains(x));
                        }
                    }
                }
            }
            i = i + 1;
        }
        self.servers = kept_servers;
        let r = vec![NetworkStateChange::ServerQuit { server: s, epoch }, NetworkStateChange::BulkUserQuit { users: gone }];
        proof {
            assert(changes_view(r@)[0] == r@[0]@);
            assert(changes_view(r@)[1] == r@[1]@);
            assert forall|x: ServerMeta| self.servers@.contains(x) <==> os.contains(x) && !(x.id == s && x.epoch <= epoch) by {
                if os.contains(x) {
                    let j = choose|j: int| 0 <= j < os.len() && os[j] == x;
                }
            }
        }
        r
    }

    /// Applies one event and returns its notifications, in order. The state
    /// stays well formed: nicknames unique under the case mapping, and every
    /// membership joining an existing user to an existing channel.
    pub fn apply(&mut self, e: &Event) -> (r: Vec<NetworkStateChange>)
        requires
            old(self).wf(),
        ensures
            final(self).wf(),
            event_effect(*old(self), *final(self), *e, changes_view(r@)),
    {
        let eid = e.id;
        match (&e.details, e.target) {
            (EventDetails::NewUser { nickname }, ObjectId::User(u)) => self.apply_new_user(eid, u, nickname),
            (EventDetails::UserNickChange { new_nick }, ObjectId::User(u)) => self.apply_nick_change(eid, u, new_nick),
            (EventDetails::UserQuit { message }, ObjectId::User(u)) => self.apply_quit(eid, u, message),
            (EventDetails::NewChannel { name }, ObjectId::Channel(c)) => self.apply_new_channel(eid, c, name),
            (EventDetails::ChannelJoin { user, channel }, ObjectId::Membership(m)) => self.apply_join(eid, m, *user, *channel),
            (EventDetails::ChannelPart { message }, ObjectId::Membership(m)) => self.apply_part(eid, m, message),
            (EventDetails::NewMessage { source, target, text }, ObjectId::Message(mid)) => self.apply_message(
                eid,
                mid,
                *source,
                *target,
                text,
            ),
            (EventDetails::NewServer { epoch }, ObjectId::Server(s)) => self.apply_new_server(s, *epoch),
            (EventDetails::ServerQuit { epoch }, ObjectId::Server(s)) => self.apply_server_quit(s, *epoch),
            _ => {
                let r = vec![NetworkStateChange::EventDropped { event: eid }];
                assert(changes_view(r@) =~= seq![Change::EventDropped { event: eid }]);
                r
            },
        }
    }
}

} // verus!

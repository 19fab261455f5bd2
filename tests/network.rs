use sable_network::change::NetworkStateChange;
use sable_network::clock::EventClock;
use sable_network::event::{Event, EventDetails};
use sable_network::ids::{ChannelId, EventId, MembershipId, MessageId, ObjectId, UserId};
use sable_network::network::{make_fallback, Network};
use sable_network::text::same_name;

fn id(server: u64, epoch: u64, seq: u64) -> EventId {
    EventId::new(server, epoch, seq)
}

fn ev(eid: EventId, target: ObjectId, details: EventDetails) -> Event {
    Event { id: eid, timestamp: 0, clock: EventClock::new(), target, details }
}

fn new_user(eid: EventId, nick: &str) -> Event {
    ev(eid, ObjectId::User(UserId(eid)), EventDetails::NewUser { nickname: nick.as_bytes().to_vec() })
}

fn new_channel(eid: EventId, name: &str) -> Event {
    ev(eid, ObjectId::Channel(ChannelId(eid)), EventDetails::NewChannel { name: name.as_bytes().to_vec() })
}

fn join(eid: EventId, user: UserId, channel: ChannelId) -> Event {
    ev(eid, ObjectId::Membership(MembershipId { user, channel }), EventDetails::ChannelJoin { user, channel })
}

fn nick_of(net: &Network, u: UserId) -> Vec<u8> {
    net.users.iter().find(|x| x.id == u).map(|x| x.nick.clone()).unwrap()
}

#[test]
fn solo_join() {
    let mut net = Network::new();
    let u1 = UserId(id(1, 1, 1));
    let c1 = ChannelId(id(1, 1, 2));
    let mut notes = Vec::new();
    notes.extend(net.apply(&new_user(id(1, 1, 1), "alice")));
    notes.extend(net.apply(&new_channel(id(1, 1, 2), "#chat")));
    notes.extend(net.apply(&join(id(1, 1, 3), u1, c1)));
    assert_eq!(net.users.len(), 1);
    assert_eq!(net.channels.len(), 1);
    assert_eq!(net.memberships.len(), 1);
    assert_eq!(notes.len(), 3);
    assert!(matches!(notes[0], NetworkStateChange::NewUser { .. }));
    assert!(matches!(notes[1], NetworkStateChange::NewChannel { .. }));
    assert!(matches!(notes[2], NetworkStateChange::ChannelJoin { .. }));
}

fn clash(first_a: bool) -> (Network, Vec<NetworkStateChange>) {
    let mut net = Network::new();
    let a = new_user(id(1, 1, 1), "bob");
    let b = new_user(id(2, 1, 1), "bob");
    let mut notes = Vec::new();
    if first_a {
        notes.extend(net.apply(&a));
        notes.extend(net.apply(&b));
    } else {
        notes.extend(net.apply(&b));
        notes.extend(net.apply(&a));
    }
    (net, notes)
}

#[test]
fn concurrent_nick_clash() {
    for first_a in [true, false] {
        let (net, notes) = clash(first_a);
        let u1 = UserId(id(1, 1, 1));
        let u2 = UserId(id(2, 1, 1));
        assert_eq!(nick_of(&net, u1), b"bob".to_vec());
        assert_eq!(nick_of(&net, u2), b"bob_2_1_1".to_vec());
        let renamed = notes.iter().any(|n| matches!(n, NetworkStateChange::UserNickChange { user, new_nick, .. } if *user == u2 && new_nick == b"bob_2_1_1"));
        assert!(renamed);
    }
}

#[test]
fn nick_clash_ignores_case() {
    let mut net = Network::new();
    net.apply(&new_user(id(2, 1, 1), "Bob[1]"));
    net.apply(&new_user(id(1, 1, 1), "bob{1}"));
    assert_eq!(nick_of(&net, UserId(id(1, 1, 1))), b"bob{1}".to_vec());
    assert_eq!(nick_of(&net, UserId(id(2, 1, 1))), b"Bob[1]_2_1_1".to_vec());
}

#[test]
fn fallback_nick_spelling() {
    assert_eq!(make_fallback(&b"bob".to_vec(), UserId(id(12, 3, 405))), b"bob_12_3_405".to_vec());
    assert!(same_name(&b"NICK[]\\~".to_vec(), &b"nick{}|^".to_vec()));
    assert!(!same_name(&b"nick".to_vec(), &b"nicks".to_vec()));
}

#[test]
fn nick_change_and_clash() {
    let mut net = Network::new();
    let u1 = UserId(id(1, 1, 1));
    let u2 = UserId(id(1, 1, 2));
    net.apply(&new_user(id(1, 1, 1), "ann"));
    net.apply(&new_user(id(1, 1, 2), "ben"));
    let r = net.apply(&ev(id(1, 1, 3), ObjectId::User(u1), EventDetails::UserNickChange { new_nick: b"amy".to_vec() }));
    assert_eq!(r.len(), 1);
    assert_eq!(nick_of(&net, u1), b"amy".to_vec());
    // a later claim on a held nickname loses it
    net.apply(&ev(id(1, 1, 4), ObjectId::User(u2), EventDetails::UserNickChange { new_nick: b"AMY".to_vec() }));
    assert_eq!(nick_of(&net, u1), b"amy".to_vec());
    assert_eq!(nick_of(&net, u2), b"AMY_1_1_2".to_vec());
    // an earlier claim wins it
    net.apply(&ev(id(1, 1, 0), ObjectId::User(u2), EventDetails::UserNickChange { new_nick: b"amy".to_vec() }));
    assert_eq!(nick_of(&net, u2), b"amy".to_vec());
    assert_eq!(nick_of(&net, u1), b"amy_1_1_1".to_vec());
}

#[test]
fn quit_cascades() {
    let mut net = Network::new();
    let u = [UserId(id(1, 1, 1)), UserId(id(1, 1, 2)), UserId(id(1, 1, 3))];
    net.apply(&new_user(id(1, 1, 1), "u1"));
    net.apply(&new_user(id(1, 1, 2), "u2"));
    net.apply(&new_user(id(1, 1, 3), "u3"));
    let c1 = ChannelId(id(1, 1, 4));
    let c2 = ChannelId(id(1, 1, 5));
    net.apply(&new_channel(id(1, 1, 4), "#c1"));
    net.apply(&new_channel(id(1, 1, 5), "#c2"));
    net.apply(&join(id(1, 1, 6), u[0], c1));
    net.apply(&join(id(1, 1, 7), u[0], c2));
    net.apply(&join(id(1, 1, 8), u[1], c1));
    net.apply(&join(id(1, 1, 9), u[2], c2));
    let r = net.apply(&ev(id(1, 1, 10), ObjectId::User(u[0]), EventDetails::UserQuit { message: b"bye".to_vec() }));
    assert_eq!(r.len(), 1);
    match &r[0] {
        NetworkStateChange::UserQuit { user, message, common, .. } => {
            assert_eq!(*user, u[0]);
            assert_eq!(message, &b"bye".to_vec());
            let mut c = common.clone();
            c.sort_by_key(|x| x.0.seq);
            assert_eq!(c, vec![u[1], u[2]]);
        }
        _ => panic!("expected a quit"),
    }
    assert_eq!(net.users.len(), 2);
    assert_eq!(net.memberships.len(), 2);
    assert!(net.memberships.iter().all(|m| m.user != u[0]));
}

#[test]
fn part_removes_membership() {
    let mut net = Network::new();
    let u1 = UserId(id(1, 1, 1));
    let c1 = ChannelId(id(1, 1, 2));
    net.apply(&new_user(id(1, 1, 1), "a"));
    net.apply(&new_channel(id(1, 1, 2), "#x"));
    net.apply(&join(id(1, 1, 3), u1, c1));
    let m = MembershipId { user: u1, channel: c1 };
    let r = net.apply(&ev(id(1, 1, 4), ObjectId::Membership(m), EventDetails::ChannelPart { message: b"later".to_vec() }));
    assert!(matches!(&r[0], NetworkStateChange::ChannelPart { channel_name, .. } if channel_name == b"#x"));
    assert_eq!(net.memberships.len(), 0);
    let r = net.apply(&ev(id(1, 1, 5), ObjectId::Membership(m), EventDetails::ChannelPart { message: Vec::new() }));
    assert!(matches!(r[0], NetworkStateChange::EventDropped { event } if event == id(1, 1, 5)));
}

#[test]
fn missing_references_are_dropped() {
    let mut net = Network::new();
    let ghost_user = UserId(id(3, 1, 1));
    let c1 = ChannelId(id(1, 1, 2));
    net.apply(&new_channel(id(1, 1, 2), "#x"));
    let r = net.apply(&join(id(1, 1, 3), ghost_user, c1));
    assert!(matches!(r[0], NetworkStateChange::EventDropped { .. }));
    assert_eq!(net.memberships.len(), 0);
    let r = net.apply(&ev(id(1, 1, 4), ObjectId::Message(MessageId(id(1, 1, 4))), EventDetails::NewMessage {
        source: ghost_user,
        target: ObjectId::Channel(c1),
        text: b"hi".to_vec(),
    }));
    assert!(matches!(r[0], NetworkStateChange::EventDropped { .. }));
    // a target of the wrong kind
    let r = net.apply(&ev(id(1, 1, 5), ObjectId::Channel(c1), EventDetails::NewUser { nickname: b"x".to_vec() }));
    assert!(matches!(r[0], NetworkStateChange::EventDropped { .. }));
    assert_eq!(net.users.len(), 0);
}

#[test]
fn memberships_reference_existing_objects() {
    let mut net = Network::new();
    let u1 = UserId(id(1, 1, 1));
    let c1 = ChannelId(id(1, 1, 2));
    net.apply(&new_user(id(1, 1, 1), "a"));
    net.apply(&new_channel(id(1, 1, 2), "#x"));
    net.apply(&join(id(1, 1, 3), u1, c1));
    net.apply(&join(id(1, 1, 4), u1, c1));
    assert_eq!(net.memberships.len(), 1);
    net.apply(&ev(id(1, 1, 5), ObjectId::User(u1), EventDetails::UserQuit { message: Vec::new() }));
    for m in &net.memberships {
        assert!(net.users.iter().any(|u| u.id == m.user));
        assert!(net.channels.iter().any(|c| c.id == m.channel));
    }
    assert_eq!(net.memberships.len(), 0);
}

#[test]
fn nicknames_stay_unique() {
    let mut net = Network::new();
    for s in 1..=6u64 {
        net.apply(&new_user(id(s, 1, 1), if s % 2 == 0 { "Dup" } else { "dup" }));
    }
    let names: Vec<Vec<u8>> = net.users.iter().map(|u| u.nick.to_ascii_lowercase()).collect();
    for i in 0..names.len() {
        for j in 0..names.len() {
            if i != j {
                assert_ne!(names[i], names[j]);
            }
        }
    }
    assert_eq!(net.users.len(), 6);
}

#[test]
fn epoch_restart_server_quit() {
    let mut net = Network::new();
    net.apply(&ev(id(2, 1, 1), ObjectId::Server(1), EventDetails::NewServer { epoch: 3 }));
    net.apply(&new_user(id(1, 3, 1), "old"));
    net.apply(&ev(id(2, 1, 2), ObjectId::Server(1), EventDetails::NewServer { epoch: 4 }));
    net.apply(&new_user(id(1, 4, 1), "new"));
    let r = net.apply(&ev(id(2, 1, 3), ObjectId::Server(1), EventDetails::ServerQuit { epoch: 3 }));
    assert_eq!(r.len(), 2);
    assert!(matches!(r[0], NetworkStateChange::ServerQuit { server: 1, epoch: 3 }));
    match &r[1] {
        NetworkStateChange::BulkUserQuit { users } => assert_eq!(users, &vec![UserId(id(1, 3, 1))]),
        _ => panic!("expected a bulk quit"),
    }
    assert_eq!(net.users.len(), 1);
    assert_eq!(net.users[0].id, UserId(id(1, 4, 1)));
    assert_eq!(net.servers.len(), 1);
    assert_eq!(net.servers[0].epoch, 4);
}

fn channel_race(first_early: bool) -> (Network, Vec<NetworkStateChange>) {
    let mut net = Network::new();
    let u1 = UserId(id(1, 1, 1));
    let u2 = UserId(id(2, 1, 1));
    net.apply(&new_user(id(1, 1, 1), "ann"));
    net.apply(&new_user(id(2, 1, 1), "ben"));
    let early = ChannelId(id(1, 1, 5));
    let late = ChannelId(id(2, 1, 5));
    let mut notes = Vec::new();
    if first_early {
        notes.extend(net.apply(&new_channel(id(1, 1, 5), "#Chat")));
        notes.extend(net.apply(&join(id(1, 1, 6), u1, early)));
        notes.extend(net.apply(&new_channel(id(2, 1, 5), "#chat")));
        notes.extend(net.apply(&join(id(2, 1, 6), u2, late)));
    } else {
        notes.extend(net.apply(&new_channel(id(2, 1, 5), "#chat")));
        notes.extend(net.apply(&join(id(2, 1, 6), u2, late)));
        notes.extend(net.apply(&new_channel(id(1, 1, 5), "#Chat")));
        notes.extend(net.apply(&join(id(1, 1, 6), u1, early)));
    }
    (net, notes)
}

#[test]
fn channel_creation_race_converges() {
    let early = ChannelId(id(1, 1, 5));
    let late = ChannelId(id(2, 1, 5));
    for first_early in [true, false] {
        let (net, _) = channel_race(first_early);
        assert_eq!(net.channels.len(), 1);
        assert_eq!(net.channels[0].id, early);
        assert_eq!(net.channels[0].name, b"#Chat".to_vec());
        let mut members: Vec<UserId> = net.memberships.iter().map(|m| {
            assert_eq!(m.channel, early);
            m.user
        }).collect();
        members.sort_by_key(|u| u.0.server);
        assert_eq!(members, vec![UserId(id(1, 1, 1)), UserId(id(2, 1, 1))]);
        assert_eq!(net.merged.len(), 1);
        assert_eq!(net.merged[0].from, late);
        assert_eq!(net.merged[0].into, early);
    }
}

#[test]
fn channel_race_winner_announces_moved_members() {
    let (_, notes) = channel_race(false);
    let moved = notes.iter().any(|n| matches!(n, NetworkStateChange::ChannelJoin { membership, .. }
        if membership.user == UserId(id(2, 1, 1)) && membership.channel == ChannelId(id(1, 1, 5))));
    assert!(moved);
}

#[test]
fn messages_to_a_merged_channel_reach_the_winner() {
    let (mut net, _) = channel_race(true);
    let r = net.apply(&ev(id(2, 1, 7), ObjectId::Message(MessageId(id(2, 1, 7))), EventDetails::NewMessage {
        source: UserId(id(2, 1, 1)),
        target: ObjectId::Channel(ChannelId(id(2, 1, 5))),
        text: b"hi".to_vec(),
    }));
    match &r[0] {
        NetworkStateChange::NewMessage { target: sable_network::change::MessageTarget::Channel(c, name), .. } => {
            assert_eq!(*c, ChannelId(id(1, 1, 5)));
            assert_eq!(name, &b"#Chat".to_vec());
        }
        _ => panic!("expected a message"),
    }
    let m = MembershipId { user: UserId(id(2, 1, 1)), channel: ChannelId(id(2, 1, 5)) };
    net.apply(&ev(id(2, 1, 8), ObjectId::Membership(m), EventDetails::ChannelPart { message: Vec::new() }));
    assert_eq!(net.memberships.len(), 1);
}

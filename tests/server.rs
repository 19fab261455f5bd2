use sable_network::change::NetworkStateChange;
use sable_network::clock::EventClock;
use sable_network::event::{Event, EventDetails, EventLogUpdate};
use sable_network::ids::{ChannelId, EventId, MembershipId, MessageId, ObjectId, UserId};
use sable_network::server::Server;

fn id(server: u64, epoch: u64, seq: u64) -> EventId {
    EventId::new(server, epoch, seq)
}

fn ev(eid: EventId, clock: EventClock, target: ObjectId, details: EventDetails) -> Event {
    Event { id: eid, timestamp: 0, clock, target, details }
}

#[test]
fn solo_join_through_the_log() {
    let mut s = Server::new(1, b"node".to_vec(), 1, 16, 100);
    let u1 = UserId(id(1, 1, 1));
    let c1 = ChannelId(id(1, 1, 2));
    let mut notes = Vec::new();
    notes.extend(s.submit(ObjectId::User(u1), EventDetails::NewUser { nickname: b"alice".to_vec() }, 1).1);
    notes.extend(s.submit(ObjectId::Channel(c1), EventDetails::NewChannel { name: b"#chat".to_vec() }, 2).1);
    notes.extend(s.submit(ObjectId::Membership(MembershipId { user: u1, channel: c1 }), EventDetails::ChannelJoin {
        user: u1,
        channel: c1,
    }, 3).1);
    assert_eq!(notes.len(), 3);
    assert!(matches!(notes[0], NetworkStateChange::NewUser { .. }));
    assert!(matches!(notes[1], NetworkStateChange::NewChannel { .. }));
    assert!(matches!(notes[2], NetworkStateChange::ChannelJoin { .. }));
    assert_eq!(s.net.users.len(), 1);
    assert_eq!(s.net.channels.len(), 1);
    assert_eq!(s.net.memberships.len(), 1);
    assert_eq!(s.history_log.entries.len(), 3);
}

#[test]
fn creation_must_name_itself() {
    let mut s = Server::new(1, b"node".to_vec(), 1, 16, 100);
    let r = s.receive(ev(id(2, 1, 1), EventClock::new(), ObjectId::User(UserId(id(2, 1, 99))), EventDetails::NewUser {
        nickname: b"sneaky".to_vec(),
    }));
    assert_eq!(r.0.len(), 1);
    assert!(matches!(r.1[0], NetworkStateChange::EventDropped { .. }));
    assert_eq!(s.net.users.len(), 0);
}

#[test]
fn objects_never_ahead_of_the_log() {
    let mut s = Server::new(1, b"node".to_vec(), 1, 16, 100);
    let mut clock = EventClock::new();
    clock.update(id(3, 1, 1));
    // waits for its dependency: no user appears yet
    let r = s.receive(ev(id(2, 1, 1), clock, ObjectId::User(UserId(id(2, 1, 1))), EventDetails::NewUser { nickname: b"b".to_vec() }));
    assert!(r.0.is_empty() && r.1.is_empty());
    assert_eq!(s.net.users.len(), 0);
    let r = s.receive(ev(id(3, 1, 1), EventClock::new(), ObjectId::User(UserId(id(3, 1, 1))), EventDetails::NewUser {
        nickname: b"a".to_vec(),
    }));
    let ids: Vec<EventId> = r.0.iter().map(|e| e.id).collect();
    assert_eq!(ids, vec![id(3, 1, 1), id(2, 1, 1)]);
    assert_eq!(s.net.users.len(), 2);
    for u in &s.net.users {
        assert!(s.event_log.seen.contains(&u.id.0));
    }
}

#[test]
fn save_and_restore() {
    let mut s = Server::new(7, b"node".to_vec(), 2, 16, 100);
    let u1 = UserId(id(7, 2, 1));
    s.submit(ObjectId::User(u1), EventDetails::NewUser { nickname: b"alice".to_vec() }, 5);
    let state = s.save_state();
    let r = Server::restore_from(state);
    assert_eq!(r.my_id, 7);
    assert_eq!(r.name, b"node".to_vec());
    assert_eq!(r.epoch, 2);
    assert_eq!(r.net.users.len(), 1);
    assert_eq!(r.net.users[0].nick, b"alice".to_vec());
    assert!(r.event_log.seen.contains(&id(7, 2, 1)));
    assert_eq!(r.event_log.next_seq, 2);
    assert_eq!(r.history_log.entries.len(), 1);
}

#[test]
fn epoch_update_and_new_events() {
    let mut s = Server::new(1, b"node".to_vec(), 3, 16, 100);
    s.handle_update(EventLogUpdate::NewEvent(ObjectId::User(UserId(id(1, 3, 1))), EventDetails::NewUser {
        nickname: b"x".to_vec(),
    }), 1);
    let r = s.handle_update(EventLogUpdate::EpochUpdate(4), 2);
    assert!(r.0.is_empty() && r.1.is_empty());
    assert_eq!(s.epoch, 4);
    let r = s.handle_update(EventLogUpdate::NewEvent(ObjectId::User(UserId(id(1, 4, 1))), EventDetails::NewUser {
        nickname: b"y".to_vec(),
    }), 3);
    assert_eq!(r.0[0].id, id(1, 4, 1));
    assert!(matches!(r.1[0], NetworkStateChange::NewUser { user, .. } if user == UserId(id(1, 4, 1))));
}

#[test]
fn who_is_told() {
    let mut s = Server::new(1, b"node".to_vec(), 1, 16, 100);
    let u = [UserId(id(1, 1, 1)), UserId(id(1, 1, 2)), UserId(id(1, 1, 3))];
    for (k, n) in ["a", "b", "c"].iter().enumerate() {
        s.submit(ObjectId::User(u[k]), EventDetails::NewUser { nickname: n.as_bytes().to_vec() }, 0);
    }
    let c = ChannelId(id(1, 1, 4));
    s.submit(ObjectId::Channel(c), EventDetails::NewChannel { name: b"#x".to_vec() }, 0);
    let mut joins = Vec::new();
    for k in 0..2 {
        joins = s.submit(ObjectId::Membership(MembershipId { user: u[k], channel: c }), EventDetails::ChannelJoin {
            user: u[k],
            channel: c,
        }, 0).1;
    }
    let mut told = s.handle_event(&joins[0]);
    told.sort_by_key(|x| x.0.seq);
    assert_eq!(told, vec![u[0], u[1]]);
    let r = s.submit(ObjectId::Message(MessageId(id(1, 1, 7))), EventDetails::NewMessage {
        source: u[0],
        target: ObjectId::Channel(c),
        text: b"hi".to_vec(),
    }, 0).1;
    assert_eq!(s.handle_event(&r[0]), vec![u[1]]);
    let r = s.submit(ObjectId::Message(MessageId(id(1, 1, 8))), EventDetails::NewMessage {
        source: u[0],
        target: ObjectId::User(u[2]),
        text: b"psst".to_vec(),
    }, 0).1;
    assert_eq!(s.handle_event(&r[0]), vec![u[2]]);
    let r = s.submit(ObjectId::User(u[0]), EventDetails::UserQuit { message: b"bye".to_vec() }, 0).1;
    assert_eq!(s.handle_event(&r[0]), vec![u[1]]);
    assert!(s.handle_new_channel(c).is_empty());
    // a message from someone who is not a user reaches nobody
    let stranger = UserId(id(9, 9, 9));
    let target = sable_network::change::MessageTarget::User(u[1], b"b".to_vec());
    assert!(s.handle_new_message(stranger, &target).is_empty());
    let gone = sable_network::change::MessageTarget::User(stranger, b"x".to_vec());
    assert!(s.handle_new_message(u[1], &gone).is_empty());
    // the quit list is given once each
    assert_eq!(s.handle_quit(&vec![u[1], u[2], u[1]]), vec![u[1], u[2]]);
}

#[test]
fn dropped_events_are_counted() {
    let mut s = Server::new(1, b"node".to_vec(), 1, 16, 100);
    let ghost_user = UserId(id(2, 1, 9));
    s.receive(ev(id(2, 1, 1), EventClock::new(), ObjectId::User(ghost_user), EventDetails::UserQuit { message: Vec::new() }));
    s.receive(ev(id(2, 1, 2), EventClock::new(), ObjectId::User(UserId(id(2, 1, 2))), EventDetails::NewUser {
        nickname: b"real".to_vec(),
    }));
    assert_eq!(s.dropped_events, 1);
    let r = Server::restore_from(s.save_state());
    assert_eq!(r.dropped_events, 1);
}
